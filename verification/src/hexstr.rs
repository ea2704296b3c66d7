//! Lowercase hexadecimal text for authentication tags: two digits per byte,
//! with a strict decoder that accepts exactly what the encoder writes.

use vstd::prelude::*;

use vstd::string::StrSliceExecFns;

verus! {

/// The lowercase hex digit of a nibble.
pub open spec fn hex_char(n: u8) -> char
    recommends
        n < 16,
{
    if n < 10 {
        ((48 + n) as u8) as char
    } else {
        ((87 + n) as u8) as char
    }
}

/// The lowercase hex form of a byte string.
pub open spec fn hex_of(bytes: Seq<u8>) -> Seq<char>
    decreases bytes.len(),
{
    if bytes.len() == 0 {
        Seq::empty()
    } else {
        seq![hex_char(bytes[0] / 16), hex_char(bytes[0] % 16)] + hex_of(bytes.drop_first())
    }
}

pub proof fn lemma_hex_of_len(bytes: Seq<u8>)
    ensures
        hex_of(bytes).len() == 2 * bytes.len(),
    decreases bytes.len(),
{
    if bytes.len() > 0 {
        lemma_hex_of_len(bytes.drop_first());
    }
}

pub proof fn lemma_hex_of_index(bytes: Seq<u8>, j: int)
    requires
        0 <= j < bytes.len(),
    ensures
        hex_of(bytes).len() == 2 * bytes.len(),
        hex_of(bytes)[2 * j] == hex_char(bytes[j] / 16),
        hex_of(bytes)[2 * j + 1] == hex_char(bytes[j] % 16),
    decreases bytes.len(),
{
    lemma_hex_of_len(bytes);
    if j > 0 {
        lemma_hex_of_index(bytes.drop_first(), j - 1);
        assert(bytes.drop_first()[j - 1] == bytes[j]);
        assert(hex_of(bytes)[2 * j] == hex_of(bytes.drop_first())[2 * (j - 1)]);
        assert(hex_of(bytes)[2 * j + 1] == hex_of(bytes.drop_first())[2 * (j - 1) + 1]);
    }
}

pub proof fn lemma_hex_of_push(bytes: Seq<u8>, x: u8)
    ensures
        hex_of(bytes.push(x)) == hex_of(bytes) + seq![hex_char(x / 16), hex_char(x % 16)],
    decreases bytes.len(),
{
    if bytes.len() == 0 {
        assert(bytes.push(x)[0] == x);
        assert(bytes.push(x).drop_first() =~= Seq::<u8>::empty());
        assert(hex_of(Seq::<u8>::empty()) =~= Seq::<char>::empty());
        assert(hex_of(bytes.push(x)) =~= seq![hex_char(x / 16), hex_char(x % 16)]);
        assert(hex_of(bytes) + seq![hex_char(x / 16), hex_char(x % 16)] =~= seq![
            hex_char(x / 16),
            hex_char(x % 16),
        ]);
    } else {
        assert(bytes.push(x)[0] == bytes[0]);
        assert(bytes.push(x).drop_first() =~= bytes.drop_first().push(x));
        lemma_hex_of_push(bytes.drop_first(), x);
        let head = seq![hex_char(bytes[0] / 16), hex_char(bytes[0] % 16)];
        assert(hex_of(bytes.push(x)) =~= head + (hex_of(bytes.drop_first()) + seq![
            hex_char(x / 16),
            hex_char(x % 16),
        ]));
        assert(head + (hex_of(bytes.drop_first()) + seq![hex_char(x / 16), hex_char(x % 16)]) =~= (
        head + hex_of(bytes.drop_first())) + seq![hex_char(x / 16), hex_char(x % 16)]);
    }
}

pub proof fn lemma_hex_char_injective(n1: u8, n2: u8)
    requires
        n1 < 16,
        n2 < 16,
        hex_char(n1) == hex_char(n2),
    ensures
        n1 == n2,
{
    let b1: u8 = if n1 < 10 {
        (48 + n1) as u8
    } else {
        (87 + n1) as u8
    };
    let b2: u8 = if n2 < 10 {
        (48 + n2) as u8
    } else {
        (87 + n2) as u8
    };
    assert((b1 as char) as u8 == b1);
    assert((b2 as char) as u8 == b2);
}

/// The lowercase hex string of a byte string.
pub fn hex_encode(bytes: &Vec<u8>) -> (r: String)
    ensures
        r@ == hex_of(bytes@),
{
    let mut out = String::new();
    let mut i: usize = 0;
    proof {
        assert(bytes@.take(0) =~= Seq::<u8>::empty());
        assert(hex_of(Seq::<u8>::empty()) =~= Seq::<char>::empty());
    }
    while i < bytes.len()
        invariant
            i <= bytes@.len(),
            out@ == hex_of(bytes@.take(i as int)),
        decreases bytes@.len() - i,
    {
        let x = bytes[i];
        proof {
            crate::wire::lemma_nibble_bound(x);
            lemma_hex_of_push(bytes@.take(i as int), x);
            assert(bytes@.take(i as int + 1) =~= bytes@.take(i as int).push(x));
        }
        let hi = x / 16;
        let lo = x % 16;
        let c1: u8 = if hi < 10 {
            48 + hi
        } else {
            87 + hi
        };
        let c2: u8 = if lo < 10 {
            48 + lo
        } else {
            87 + lo
        };
        crate::codec::push_char(&mut out, c1 as char);
        crate::codec::push_char(&mut out, c2 as char);
        proof {
            assert(c1 as char == hex_char(hi));
            assert(c2 as char == hex_char(lo));
            assert(out@ =~= hex_of(bytes@.take(i as int + 1)));
        }
        i = i + 1;
    }
    proof {
        assert(bytes@.take(bytes@.len() as int) =~= bytes@);
    }
    out
}

/// Decodes lowercase hex text back into bytes, exactly when the text is the
/// hex form of some byte string.
pub fn hex_decode(s: &str) -> (r: Option<Vec<u8>>)
    ensures
        match r {
            Some(b) => s@ == hex_of(b@),
            None => forall|bs: Seq<u8>| s@ != hex_of(bs),
        },
{
    let n = s.unicode_len();
    if n % 2 != 0 {
        proof {
            assert forall|bs: Seq<u8>| s@ != hex_of(bs) by {
                lemma_hex_of_len(bs);
            }
        }
        return None;
    }
    let mut out: Vec<u8> = Vec::new();
    let mut i: usize = 0;
    proof {
        assert(s@.take(0) =~= Seq::<char>::empty());
        assert(hex_of(Seq::<u8>::empty()) =~= Seq::<char>::empty());
        assert(s@.take(0) =~= hex_of(out@));
    }
    while i < n
        invariant
            n == s@.len(),
            n % 2 == 0,
            i <= n,
            i % 2 == 0,
            out@.len() * 2 == i,
            s@.take(i as int) == hex_of(out@),
            forall|bs: Seq<u8>| s@ == hex_of(bs) ==> out@ == bs.take(out@.len() as int),
        decreases n - i,
    {
        let c1 = s.get_char(i);
        let c2 = s.get_char(i + 1);
        let hi: u8;
        let lo: u8;
        if '0' <= c1 && c1 <= '9' {
            hi = (c1 as u8) - 48;
        } else if 'a' <= c1 && c1 <= 'f' {
            hi = (c1 as u8) - 87;
        } else {
            proof {
                assert forall|bs: Seq<u8>| s@ != hex_of(bs) by {
                    if s@ == hex_of(bs) {
                        lemma_hex_of_len(bs);
                        let m = out@.len() as int;
                        lemma_hex_of_index(bs, m);
                        crate::wire::lemma_nibble_bound(bs[m]);
                        assert(s@[2 * m] == hex_char(bs[m] / 16));
                        assert(c1 == hex_char(bs[m] / 16));
                    }
                }
            }
            return None;
        }
        if '0' <= c2 && c2 <= '9' {
            lo = (c2 as u8) - 48;
        } else if 'a' <= c2 && c2 <= 'f' {
            lo = (c2 as u8) - 87;
        } else {
            proof {
                assert forall|bs: Seq<u8>| s@ != hex_of(bs) by {
                    if s@ == hex_of(bs) {
                        lemma_hex_of_len(bs);
                        let m = out@.len() as int;
                        lemma_hex_of_index(bs, m);
                        crate::wire::lemma_nibble_bound(bs[m]);
                        assert(s@[2 * m + 1] == hex_char(bs[m] % 16));
                        assert(c2 == hex_char(bs[m] % 16));
                    }
                }
            }
            return None;
        }
        let ghost prev = out@;
        let x: u8 = hi * 16 + lo;
        out.push(x);
        proof {
            crate::wire::lemma_nibble_recompose(hi, lo);
            assert(x / 16 == hi && x % 16 == lo);
            assert(hex_char(hi) == c1) by {
                assert(((c1 as u8) as char) == c1);
            }
            assert(hex_char(lo) == c2) by {
                assert(((c2 as u8) as char) == c2);
            }
            lemma_hex_of_push(prev, x);
            assert(s@.take(i as int + 2) =~= s@.take(i as int) + seq![c1, c2]);
            assert(hex_of(out@) =~= hex_of(prev) + seq![c1, c2]);
            assert(s@.take(i as int + 2) =~= hex_of(out@));
            assert forall|bs: Seq<u8>| s@ == hex_of(bs) implies out@ == bs.take(
                out@.len() as int,
            ) by {
                lemma_hex_of_len(bs);
                let m = prev.len() as int;
                assert(prev == bs.take(m));
                lemma_hex_of_index(bs, m);
                crate::wire::lemma_nibble_bound(bs[m]);
                assert(s@[2 * m] == hex_char(bs[m] / 16));
                assert(s@[2 * m + 1] == hex_char(bs[m] % 16));
                lemma_hex_char_injective(hi, bs[m] / 16);
                lemma_hex_char_injective(lo, bs[m] % 16);
                assert(x == bs[m]);
                assert(bs.take(m + 1) =~= bs.take(m).push(bs[m]));
                assert(out@ =~= bs.take(m + 1));
            }
        }
        i = i + 2;
    }
    proof {
        assert(s@.take(n as int) =~= s@);
    }
    Some(out)
}

pub proof fn lemma_hex_of_injective(b1: Seq<u8>, b2: Seq<u8>)
    requires
        hex_of(b1) == hex_of(b2),
    ensures
        b1 == b2,
{
    lemma_hex_of_len(b1);
    lemma_hex_of_len(b2);
    assert(b1.len() == b2.len());
    assert forall|j: int| 0 <= j < b1.len() implies b1[j] == b2[j] by {
        lemma_hex_of_index(b1, j);
        lemma_hex_of_index(b2, j);
        crate::wire::lemma_nibble_bound(b1[j]);
        crate::wire::lemma_nibble_bound(b2[j]);
        lemma_hex_char_injective(b1[j] / 16, b2[j] / 16);
        lemma_hex_char_injective(b1[j] % 16, b2[j] % 16);
        assert(b1[j] == b1[j] / 16 * 16 + b1[j] % 16);
        assert(b2[j] == b2[j] / 16 * 16 + b2[j] % 16);
    }
    assert(b1 =~= b2);
}

} // verus!
