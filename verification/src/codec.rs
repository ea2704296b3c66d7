//! The executable message codec: encoding messages into single JSON frames
//! and decoding frames back, verified against the grammar in `wire`.

use vstd::prelude::*;

use crate::id::ConnectionId;
use crate::msg::{char_clean, client_wire_ok, server_wire_ok, str_clean, ClientMessage,
    ClientMessageV, ServerMessage, ServerMessageV};
use crate::wire::{canonical_dec, dec_bytes, dec_val, esc_bytes, esc_char, hex_digit_byte,
    is_digit, lemma_ascii_char_injective, lemma_client_round_trip, lemma_client_variant_bytes,
    lemma_dec_bytes_props, lemma_dec_unique, lemma_dec_val_prefix, lemma_esc_bytes_concat,
    lemma_esc_bytes_push, lemma_nib_count_step, lemma_nibble_bound, lemma_nibble_recompose,
    lemma_run_end_bounds, lemma_run_end_ge, lemma_run_end_is, lemma_server_round_trip,
    lemma_server_variant_bytes, lemma_spec_decode_client_none, lemma_spec_decode_server_none,
    lemma_uuid_bytes_injective, name_accept, name_authenticate, name_challenge, name_connection,
    name_error, name_hello, nib_count, nibble_of, obj_open, quoted_close, quoted_open, rev_digits,
    run_end, spec_decode_client, spec_decode_server, spec_encode_client,
    spec_encode_server, uuid_bytes, uuid_hyphen};
use vstd::string::StrSliceExecFns;

verus! {

// ---------------------------------------------------------------------------
// Literal fragments of the grammar
// ---------------------------------------------------------------------------

/// `{"Authenticate":"`
fn lit_pre_authenticate() -> (v: Vec<u8>)
    ensures
        v@ == quoted_open(name_authenticate()),
{
    let mut v: Vec<u8> = Vec::new();
    v.push('{' as u8);
    v.push('"' as u8);
    v.push('A' as u8);
    v.push('u' as u8);
    v.push('t' as u8);
    v.push('h' as u8);
    v.push('e' as u8);
    v.push('n' as u8);
    v.push('t' as u8);
    v.push('i' as u8);
    v.push('c' as u8);
    v.push('a' as u8);
    v.push('t' as u8);
    v.push('e' as u8);
    v.push('"' as u8);
    v.push(':' as u8);
    v.push('"' as u8);
    proof {
        assert(v@ =~= quoted_open(name_authenticate()));
    }
    v
}

/// `{"Hello":`
fn lit_pre_hello() -> (v: Vec<u8>)
    ensures
        v@ == obj_open(name_hello()),
{
    let mut v: Vec<u8> = Vec::new();
    v.push('{' as u8);
    v.push('"' as u8);
    v.push('H' as u8);
    v.push('e' as u8);
    v.push('l' as u8);
    v.push('l' as u8);
    v.push('o' as u8);
    v.push('"' as u8);
    v.push(':' as u8);
    proof {
        assert(v@ =~= obj_open(name_hello()));
    }
    v
}

/// `{"Accept":"`
fn lit_pre_accept() -> (v: Vec<u8>)
    ensures
        v@ == quoted_open(name_accept()),
{
    let mut v: Vec<u8> = Vec::new();
    v.push('{' as u8);
    v.push('"' as u8);
    v.push('A' as u8);
    v.push('c' as u8);
    v.push('c' as u8);
    v.push('e' as u8);
    v.push('p' as u8);
    v.push('t' as u8);
    v.push('"' as u8);
    v.push(':' as u8);
    v.push('"' as u8);
    proof {
        assert(v@ =~= quoted_open(name_accept()));
    }
    v
}

/// `{"Challenge":"`
fn lit_pre_challenge() -> (v: Vec<u8>)
    ensures
        v@ == quoted_open(name_challenge()),
{
    let mut v: Vec<u8> = Vec::new();
    v.push('{' as u8);
    v.push('"' as u8);
    v.push('C' as u8);
    v.push('h' as u8);
    v.push('a' as u8);
    v.push('l' as u8);
    v.push('l' as u8);
    v.push('e' as u8);
    v.push('n' as u8);
    v.push('g' as u8);
    v.push('e' as u8);
    v.push('"' as u8);
    v.push(':' as u8);
    v.push('"' as u8);
    proof {
        assert(v@ =~= quoted_open(name_challenge()));
    }
    v
}

/// `{"Connection":"`
fn lit_pre_connection() -> (v: Vec<u8>)
    ensures
        v@ == quoted_open(name_connection()),
{
    let mut v: Vec<u8> = Vec::new();
    v.push('{' as u8);
    v.push('"' as u8);
    v.push('C' as u8);
    v.push('o' as u8);
    v.push('n' as u8);
    v.push('n' as u8);
    v.push('e' as u8);
    v.push('c' as u8);
    v.push('t' as u8);
    v.push('i' as u8);
    v.push('o' as u8);
    v.push('n' as u8);
    v.push('"' as u8);
    v.push(':' as u8);
    v.push('"' as u8);
    proof {
        assert(v@ =~= quoted_open(name_connection()));
    }
    v
}

/// `{"Error":"`
fn lit_pre_error() -> (v: Vec<u8>)
    ensures
        v@ == quoted_open(name_error()),
{
    let mut v: Vec<u8> = Vec::new();
    v.push('{' as u8);
    v.push('"' as u8);
    v.push('E' as u8);
    v.push('r' as u8);
    v.push('r' as u8);
    v.push('o' as u8);
    v.push('r' as u8);
    v.push('"' as u8);
    v.push(':' as u8);
    v.push('"' as u8);
    proof {
        assert(v@ =~= quoted_open(name_error()));
    }
    v
}

/// `"Heartbeat"`, the whole frame of the unit variant.
fn lit_heartbeat() -> (v: Vec<u8>)
    ensures
        v@ == spec_encode_server(ServerMessageV::Heartbeat),
{
    let mut v: Vec<u8> = Vec::new();
    v.push('"' as u8);
    v.push('H' as u8);
    v.push('e' as u8);
    v.push('a' as u8);
    v.push('r' as u8);
    v.push('t' as u8);
    v.push('b' as u8);
    v.push('e' as u8);
    v.push('a' as u8);
    v.push('t' as u8);
    v.push('"' as u8);
    proof {
        assert(v@ =~= spec_encode_server(ServerMessageV::Heartbeat));
    }
    v
}

// ---------------------------------------------------------------------------
// Matching and writing the pieces
// ---------------------------------------------------------------------------

/// Whether `b` carries exactly `lit` at position `at`.
fn expect_lit(b: &Vec<u8>, at: usize, lit: &Vec<u8>) -> (r: bool)
    requires
        at <= b@.len(),
    ensures
        r == (at + lit@.len() <= b@.len() && b@.subrange(
            at as int,
            at as int + lit@.len() as int,
        ) == lit@),
{
    let bl = b.len();
    if bl - at < lit.len() {
        return false;
    }
    let mut i: usize = 0;
    while i < lit.len()
        invariant
            bl == b@.len(),
            at + lit@.len() <= bl,
            i <= lit@.len(),
            forall|j: int| 0 <= j < i ==> b@[at + j] == lit@[j],
        decreases lit@.len() - i,
    {
        if b[at + i] != lit[i] {
            proof {
                let sub = b@.subrange(at as int, at as int + lit@.len() as int);
                assert(sub[i as int] == b@[at + i]);
            }
            return false;
        }
        i = i + 1;
    }
    proof {
        assert(b@.subrange(at as int, at as int + lit@.len() as int) =~= lit@);
    }
    true
}

/// Appends the canonical decimal digits of `n`.
fn push_decimal(out: &mut Vec<u8>, n: u16)
    ensures
        final(out)@ == old(out)@ + dec_bytes(n as int),
{
    if n == 0 {
        out.push(48);
        proof {
            assert(dec_bytes(0) =~= seq![48u8]);
            assert(final(out)@ =~= old(out)@ + dec_bytes(0));
        }
        return ;
    }
    let ghost base = out@;
    let mut tmp: Vec<u8> = Vec::new();
    let mut m: u16 = n;
    proof {
        assert(rev_digits(Seq::<u8>::empty()) =~= Seq::<u8>::empty());
        assert(dec_bytes(n as int) =~= dec_bytes(m as int) + rev_digits(tmp@));
    }
    while m > 0
        invariant
            dec_bytes(n as int) == if m > 0 {
                dec_bytes(m as int) + rev_digits(tmp@)
            } else {
                rev_digits(tmp@)
            },
        decreases m,
    {
        let d: u8 = (m % 10) as u8 + 48;
        let ghost old_tmp = tmp@;
        let ghost old_m = m as int;
        tmp.push(d);
        proof {
            assert(tmp@.last() == d);
            assert(tmp@.drop_last() =~= old_tmp);
            assert(rev_digits(tmp@) =~= seq![d] + rev_digits(old_tmp));
        }
        assert(m / 10 < m) by (nonlinear_arith)
            requires
                m >= 1,
        ;
        m = m / 10;
        proof {
            if old_m >= 10 {
                assert(dec_bytes(old_m) =~= dec_bytes(old_m / 10) + seq![(48 + old_m % 10) as u8]);
                assert((48 + old_m % 10) as u8 == d);
                assert(dec_bytes(old_m / 10) + (seq![d] + rev_digits(old_tmp)) =~= (dec_bytes(
                    old_m / 10,
                ) + seq![d]) + rev_digits(old_tmp));
            } else {
                assert(dec_bytes(old_m) =~= seq![(48 + old_m) as u8]);
                assert((48 + old_m) as u8 == d);
                assert(seq![d] + rev_digits(old_tmp) =~= dec_bytes(old_m) + rev_digits(old_tmp));
            }
        }
    }
    while tmp.len() > 0
        invariant
            out@.len() >= base.len(),
            out@.take(base.len() as int) == base,
            dec_bytes(n as int) == out@.skip(base.len() as int) + rev_digits(tmp@),
        decreases tmp@.len(),
    {
        let ghost old_tmp = tmp@;
        let ghost old_out = out@;
        let d = tmp.pop().unwrap();
        out.push(d);
        proof {
            assert(old_tmp.last() == d);
            assert(tmp@ =~= old_tmp.drop_last());
            assert(rev_digits(old_tmp) =~= seq![d] + rev_digits(tmp@));
            assert(out@.take(base.len() as int) =~= base);
            assert(out@.skip(base.len() as int) =~= old_out.skip(base.len() as int) + seq![d]);
            assert(out@.skip(base.len() as int) + rev_digits(tmp@) =~= old_out.skip(
                base.len() as int,
            ) + (seq![d] + rev_digits(tmp@)));
        }
    }
    proof {
        assert(rev_digits(tmp@) =~= Seq::<u8>::empty());
        assert(out@.skip(base.len() as int) + rev_digits(tmp@) =~= out@.skip(base.len() as int));
        assert(out@ =~= out@.take(base.len() as int) + out@.skip(base.len() as int));
        assert(out@ =~= base + dec_bytes(n as int));
    }
}

/// Reads a run of digits at `at` as a decimal number of at most 65535,
/// exactly when the run is the canonical encoding of such a number.
fn parse_u16_digits(b: &Vec<u8>, at: usize) -> (r: Option<(u16, usize)>)
    requires
        at <= b@.len(),
    ensures
        ({
            let e = run_end(b@, at as int);
            let d = b@.subrange(at as int, e);
            match r {
                Some(pair) => pair.1 == e && canonical_dec(d) && dec_val(d) == pair.0 as int,
                None => !(canonical_dec(d) && dec_val(d) <= 65535),
            }
        }),
{
    proof {
        lemma_run_end_bounds(b@, at as int);
    }
    let ghost e = run_end(b@, at as int);
    let ghost d = b@.subrange(at as int, e);
    if at == b.len() || !(48 <= b[at] && b[at] <= 57) {
        proof {
            assert(e == at);
            assert(d.len() == 0);
        }
        return None;
    }
    let mut i: usize = at;
    let mut acc: u32 = 0;
    while i < b.len() && 48 <= b[i] && b[i] <= 57
        invariant
            at <= i <= b@.len(),
            acc <= 65535,
            e == run_end(b@, at as int),
            d == b@.subrange(at as int, e),
            forall|j: int| at <= j < i ==> is_digit(#[trigger] b@[j]),
            acc as int == dec_val(b@.subrange(at as int, i as int)),
        decreases b@.len() - i,
    {
        let dig: u32 = (b[i] - 48) as u32;
        let next: u32 = acc * 10 + dig;
        proof {
            let prev = b@.subrange(at as int, i as int);
            let cur = b@.subrange(at as int, i as int + 1);
            assert(cur.drop_last() =~= prev);
            assert(cur.last() == b@[i as int]);
            assert(dec_val(cur) == dec_val(prev) * 10 + (b@[i as int] - 48));
        }
        if next > 65535 {
            proof {
                lemma_run_end_bounds(b@, at as int);
                lemma_run_end_ge(b@, at as int, i as int + 1);
                assert(e >= i + 1);
                let cur = b@.subrange(at as int, i as int + 1);
                let n = i as int + 1 - at;
                assert(d.len() == e - at && n <= d.len());
                assert forall|j: int| 0 <= j < n implies d.take(n)[j] == cur[j] by {
                    assert(d.take(n)[j] == d[j]);
                    assert(d[j] == b@[at + j]);
                    assert(cur[j] == b@[at + j]);
                }
                assert(cur =~= d.take(n));
                lemma_dec_val_prefix(d, n);
                assert(dec_val(d) >= dec_val(cur));
                assert(dec_val(cur) == next);
            }
            return None;
        }
        acc = next;
        i = i + 1;
    }
    proof {
        lemma_run_end_is(b@, at as int, i as int);
        assert(e == i);
        assert(d =~= b@.subrange(at as int, i as int));
    }
    if b[at] == 48 && i > at + 1 {
        proof {
            assert(d[0] == 48 && d.len() > 1);
        }
        return None;
    }
    proof {
        assert(canonical_dec(d));
    }
    Some(((acc as u16), i))
}

/// Appends the 36-character hyphenated form of an identifier.
fn push_uuid(out: &mut Vec<u8>, id: &ConnectionId)
    requires
        id.wf(),
    ensures
        final(out)@ == old(out)@ + uuid_bytes(id@),
{
    let mut k: usize = 0;
    while k < 36
        invariant
            id.wf(),
            k <= 36,
            out@ == old(out)@ + uuid_bytes(id@).take(k as int),
        decreases 36 - k,
    {
        let ghost prev = out@;
        if k == 8 || k == 13 || k == 18 || k == 23 {
            out.push(45);
            proof {
                assert(uuid_bytes(id@)[k as int] == 45);
            }
        } else {
            let j: usize = if k < 8 {
                k
            } else if k < 13 {
                k - 1
            } else if k < 18 {
                k - 2
            } else if k < 23 {
                k - 3
            } else {
                k - 4
            };
            let byte = id.byte_at(j / 2);
            proof {
                lemma_nibble_bound(byte);
            }
            let nib: u8 = if j % 2 == 0 {
                byte / 16
            } else {
                byte % 16
            };
            let ch: u8 = if nib < 10 {
                48 + nib
            } else {
                87 + nib
            };
            out.push(ch);
            proof {
                assert(j as int == nib_count(k as int));
                assert(nib == nibble_of(id@, nib_count(k as int)));
                assert(ch == hex_digit_byte(nib));
                assert(uuid_bytes(id@)[k as int] == ch);
            }
        }
        proof {
            assert(uuid_bytes(id@).take(k as int + 1) =~= uuid_bytes(id@).take(k as int).push(
                uuid_bytes(id@)[k as int],
            ));
            assert(out@ =~= prev + seq![uuid_bytes(id@)[k as int]]);
            assert(out@ =~= old(out)@ + uuid_bytes(id@).take(k as int + 1));
        }
        k = k + 1;
    }
    proof {
        assert(uuid_bytes(id@).take(36) =~= uuid_bytes(id@));
    }
}

/// Reads the 36-character identifier form at `at`, exactly when one stands
/// there.
fn parse_uuid(b: &Vec<u8>, at: usize) -> (r: Option<ConnectionId>)
    requires
        at <= b@.len(),
    ensures
        match r {
            Some(id) => at + 36 <= b@.len() && id.wf() && b@.subrange(at as int, at as int + 36)
                == uuid_bytes(id@),
            None => forall|u: Seq<u8>|
                u.len() == 16 ==> !(at + 36 <= b@.len() && b@.subrange(at as int, at as int + 36)
                    == uuid_bytes(u)),
        },
{
    let bl = b.len();
    if bl - at < 36 {
        return None;
    }
    let mut nibs: Vec<u8> = Vec::new();
    let mut k: usize = 0;
    while k < 36
        invariant
            bl == b@.len(),
            at + 36 <= bl,
            k <= 36,
            nibs@.len() == nib_count(k as int),
            forall|j: int| 0 <= j < nibs@.len() ==> #[trigger] nibs@[j] < 16,
            forall|j: int| #![trigger b@[at + j]]
                0 <= j < k && uuid_hyphen(j) ==> b@[at + j] == 45,
            forall|j: int| #![trigger b@[at + j]]
                0 <= j < k && !uuid_hyphen(j) ==> nib_count(j) < nibs@.len() && b@[at + j]
                    == hex_digit_byte(nibs@[nib_count(j)]),
        decreases 36 - k,
    {
        proof {
            lemma_nib_count_step(k as int);
        }
        if k == 8 || k == 13 || k == 18 || k == 23 {
            if b[at + k] != 45 {
                proof {
                    uuid_mismatch_none(b@, at as int, k as int);
                }
                return None;
            }
        } else {
            let c = b[at + k];
            let nib: u8;
            if 48 <= c && c <= 57 {
                nib = c - 48;
            } else if 97 <= c && c <= 102 {
                nib = c - 87;
            } else {
                proof {
                    uuid_mismatch_none(b@, at as int, k as int);
                }
                return None;
            }
            nibs.push(nib);
            proof {
                assert(hex_digit_byte(nib) == c);
                assert(nibs@[nib_count(k as int)] == nib);
            }
        }
        k = k + 1;
    }
    let mut bytes: Vec<u8> = Vec::new();
    let mut i: usize = 0;
    while i < 16
        invariant
            i <= 16,
            nibs@.len() == 32,
            forall|j: int| 0 <= j < nibs@.len() ==> #[trigger] nibs@[j] < 16,
            bytes@.len() == i,
            forall|j: int|
                0 <= j < i ==> #[trigger] bytes@[j] == nibs@[2 * j] * 16 + nibs@[2 * j + 1],
        decreases 16 - i,
    {
        let hi = nibs[2 * i];
        let lo = nibs[2 * i + 1];
        bytes.push(hi * 16 + lo);
        i = i + 1;
    }
    let id = ConnectionId::from_bytes(bytes);
    proof {
        assert forall|k2: int| 0 <= k2 < 36 implies b@.subrange(at as int, at as int + 36)[k2]
            == uuid_bytes(id@)[k2] by {
            assert(b@.subrange(at as int, at as int + 36)[k2] == b@[at + k2]);
            if uuid_hyphen(k2) {
                assert(b@[at + k2] == 45);
            } else {
                let j = nib_count(k2);
                assert(0 <= j < 32);
                assert(b@[at + k2] == hex_digit_byte(nibs@[j]));
                let byte = id@[j / 2];
                assert(byte == nibs@[2 * (j / 2)] * 16 + nibs@[2 * (j / 2) + 1]);
                lemma_nibble_recompose(nibs@[2 * (j / 2)], nibs@[2 * (j / 2) + 1]);
                if j % 2 == 0 {
                    assert(2 * (j / 2) == j);
                    assert(nibble_of(id@, j) == byte / 16);
                    assert(byte / 16 == nibs@[j]);
                } else {
                    assert(2 * (j / 2) + 1 == j);
                    assert(nibble_of(id@, j) == byte % 16);
                    assert(byte % 16 == nibs@[j]);
                }
            }
        }
        assert(b@.subrange(at as int, at as int + 36) =~= uuid_bytes(id@));
    }
    Some(id)
}

/// When the byte at a position cannot belong to any identifier form, no
/// identifier matches.
proof fn uuid_mismatch_none(b: Seq<u8>, at: int, k: int)
    requires
        0 <= at,
        at + 36 <= b.len(),
        0 <= k < 36,
        uuid_hyphen(k) ==> b[at + k] != 45,
        !uuid_hyphen(k) ==> !(48 <= b[at + k] <= 57 || 97 <= b[at + k] <= 102),
    ensures
        forall|u: Seq<u8>|
            u.len() == 16 ==> !(at + 36 <= b.len() && b.subrange(at, at + 36) == uuid_bytes(u)),
{
    assert forall|u: Seq<u8>| u.len() == 16 implies !(at + 36 <= b.len() && b.subrange(at, at + 36)
        == uuid_bytes(u)) by {
        if b.subrange(at, at + 36) == uuid_bytes(u) {
            assert(b.subrange(at, at + 36)[k] == b[at + k]);
            if uuid_hyphen(k) {
                assert(uuid_bytes(u)[k] == 45);
            } else {
                let j = nib_count(k);
                assert(0 <= j < 32);
                lemma_nibble_bound(u[j / 2]);
                let n = nibble_of(u, j);
                assert(n < 16);
                assert(uuid_bytes(u)[k] == hex_digit_byte(n));
                assert(48 <= hex_digit_byte(n) <= 57 || 97 <= hex_digit_byte(n) <= 102);
            }
        }
    }
}

// ---------------------------------------------------------------------------
// String payloads
// ---------------------------------------------------------------------------

/// Relies on `String::push`: appends exactly one character.
#[verifier::external_body]
pub(crate) fn push_char(s: &mut String, c: char)
    ensures
        final(s)@ == old(s)@ + seq![c],
{
    s.push(c);
}

/// Appends the escaped bytes of `s` when every character is clean.
fn push_escaped(out: &mut Vec<u8>, s: &str) -> (ok: bool)
    ensures
        ok ==> str_clean(s@) && final(out)@ == old(out)@ + esc_bytes(s@),
        !ok ==> !str_clean(s@),
{
    let n = s.unicode_len();
    let mut i: usize = 0;
    proof {
        assert(s@.take(0) =~= Seq::<char>::empty());
        assert(esc_bytes(Seq::<char>::empty()) =~= Seq::<u8>::empty());
        assert(out@ =~= old(out)@ + esc_bytes(s@.take(0)));
    }
    while i < n
        invariant
            n == s@.len(),
            i <= n,
            str_clean(s@.take(i as int)),
            out@ == old(out)@ + esc_bytes(s@.take(i as int)),
        decreases n - i,
    {
        let c = s.get_char(i);
        if !(' ' <= c && c <= '~') {
            proof {
                assert(!char_clean(s@[i as int]));
            }
            return false;
        }
        let ghost prev = s@.take(i as int);
        proof {
            lemma_esc_bytes_push(prev, c);
            assert(s@.take(i as int + 1) =~= prev.push(c));
        }
        if c == '"' || c == '\\' {
            out.push(92);
            out.push(c as u8);
            proof {
                assert(esc_char(c) =~= seq![92u8, c as u8]);
                assert(out@ =~= old(out)@ + esc_bytes(prev) + esc_char(c));
            }
        } else {
            out.push(c as u8);
            proof {
                assert(esc_char(c) =~= seq![c as u8]);
                assert(out@ =~= old(out)@ + esc_bytes(prev) + esc_char(c));
            }
        }
        proof {
            assert(out@ =~= old(out)@ + esc_bytes(s@.take(i as int + 1)));
            assert forall|j: int| 0 <= j < i + 1 implies char_clean(#[trigger] s@.take(
                i as int + 1,
            )[j]) by {
                if j < i {
                    assert(char_clean(prev[j]));
                }
            }
        }
        i = i + 1;
    }
    proof {
        assert(s@.take(n as int) =~= s@);
    }
    true
}

/// A clean string whose escaped form, followed by the closing `"}`, is
/// exactly the tail of `b` from `at` on.
spec fn str_payload_matches(b: Seq<u8>, at: int, t: Seq<char>) -> bool {
    str_clean(t) && b.skip(at) == esc_bytes(t) + quoted_close()
}

/// What the next bytes must look like while a matching string `t` is being
/// read and `out` chars of it are already consumed.
proof fn string_parse_head(b: Seq<u8>, at: int, i: int, out: Seq<char>, t: Seq<char>)
    requires
        0 <= at <= i <= b.len(),
        b.subrange(at, i) == esc_bytes(out),
        str_clean(out),
        str_payload_matches(b, at, t),
        out.len() <= t.len(),
        out == t.take(out.len() as int),
    ensures
        out.len() < t.len() ==> ({
            let c = t[out.len() as int];
            &&& char_clean(c)
            &&& i < b.len()
            &&& ((c == '"' || c == '\\') ==> i + 1 < b.len() && b[i] == 92 && b[i + 1] == c as u8)
            &&& (!(c == '"' || c == '\\') ==> b[i] == c as u8)
        }),
        out.len() == t.len() ==> i + 2 == b.len() && b[i] == 34 && b[i + 1] == 125,
{
    let m = out.len() as int;
    assert(t =~= t.take(m) + t.skip(m));
    lemma_esc_bytes_concat(t.take(m), t.skip(m));
    let rest = esc_bytes(t.skip(m));
    assert(esc_bytes(t) == esc_bytes(out) + rest);
    let tail = b.skip(at);
    assert(tail.len() == b.len() - at);
    assert(tail == esc_bytes(t) + quoted_close());
    assert(b.len() - at == esc_bytes(t).len() + 2);
    assert(i - at == esc_bytes(out).len());
    assert(forall|j: int| 0 <= j < tail.len() ==> #[trigger] tail[j] == b[at + j]);
    if m < t.len() {
        assert(t.skip(m).len() > 0);
        assert(t.skip(m)[0] == t[m]);
        let c = t[m];
        assert(char_clean(c));
        assert(rest =~= esc_char(c) + esc_bytes(t.skip(m).drop_first()));
        assert(rest.len() > 0);
        assert(i < b.len());
        assert(tail[i - at] == (esc_bytes(t) + quoted_close())[i - at]);
        assert((esc_bytes(t) + quoted_close())[i - at] == esc_bytes(t)[i - at]);
        assert(esc_bytes(t)[i - at] == rest[0]);
        assert(rest[0] == esc_char(c)[0]);
        assert(b[i] == esc_char(c)[0]);
        if c == '"' || c == '\\' {
            assert(esc_char(c).len() == 2);
            assert(rest.len() >= 2);
            assert(i + 1 - at < esc_bytes(t).len());
            assert(i + 1 < b.len());
            assert(tail[i + 1 - at] == esc_bytes(t)[i + 1 - at]);
            assert(esc_bytes(t)[i + 1 - at] == rest[1]);
            assert(rest[1] == esc_char(c)[1]);
            assert(b[i] == 92 && b[i + 1] == c as u8);
        }
    } else {
        assert(t.skip(m).len() == 0);
        assert(rest =~= Seq::<u8>::empty());
        assert(esc_bytes(t) =~= esc_bytes(out));
        assert(b.len() - at == (i - at) + 2);
        assert(tail[i - at] == quoted_close()[0]);
        assert(tail[i + 1 - at] == quoted_close()[1]);
        assert(b[i] == 34 && b[i + 1] == 125);
    }
}

/// Reads an escaped string ending the frame with `"}`, exactly when the tail
/// of `b` has that form.
fn parse_string_payload(b: &Vec<u8>, at: usize) -> (r: Option<String>)
    requires
        at <= b@.len(),
    ensures
        match r {
            Some(s) => str_payload_matches(b@, at as int, s@),
            None => forall|t: Seq<char>| !str_payload_matches(b@, at as int, t),
        },
{
    let bl = b.len();
    let mut i: usize = at;
    let mut out = String::new();
    proof {
        assert(b@.subrange(at as int, at as int) =~= Seq::<u8>::empty());
        assert(esc_bytes(out@) =~= Seq::<u8>::empty());
    }
    loop
        invariant
            bl == b@.len(),
            at <= i <= bl,
            str_clean(out@),
            b@.subrange(at as int, i as int) == esc_bytes(out@),
            forall|t: Seq<char>|
                str_payload_matches(b@, at as int, t) ==> out@.len() <= t.len() && out@
                    == t.take(out@.len() as int),
        decreases bl - i,
    {
        if i == bl {
            proof {
                assert forall|t: Seq<char>| !str_payload_matches(b@, at as int, t) by {
                    if str_payload_matches(b@, at as int, t) {
                        string_parse_head(b@, at as int, i as int, out@, t);
                    }
                }
            }
            return None;
        }
        let c = b[i];
        if c == 34 {
            let good = i + 1 < bl && b[i + 1] == 125 && i + 2 == bl;
            if good {
                proof {
                    assert forall|j: int| 0 <= j < b@.len() - at implies b@.skip(at as int)[j] == (
                    esc_bytes(out@) + quoted_close())[j] by {
                        assert(b@.skip(at as int)[j] == b@[at + j]);
                        if j < i - at {
                            assert(b@.subrange(at as int, i as int)[j] == b@[at + j]);
                        }
                    }
                    assert(b@.skip(at as int) =~= esc_bytes(out@) + quoted_close());
                }
                return Some(out);
            } else {
                proof {
                    assert forall|t: Seq<char>| !str_payload_matches(b@, at as int, t) by {
                        if str_payload_matches(b@, at as int, t) {
                            string_parse_head(b@, at as int, i as int, out@, t);
                            let m = out@.len() as int;
                            if m < t.len() {
                                let c0 = t[m];
                                if c0 == '"' || c0 == '\\' {
                                    assert(b@[i as int] == 92);
                                } else {
                                    assert(b@[i as int] == c0 as u8);
                                    lemma_ascii_char_injective(c0, '"');
                                }
                            }
                        }
                    }
                }
                return None;
            }
        } else if c == 92 {
            if i + 1 == bl {
                proof {
                    assert forall|t: Seq<char>| !str_payload_matches(b@, at as int, t) by {
                        if str_payload_matches(b@, at as int, t) {
                            string_parse_head(b@, at as int, i as int, out@, t);
                            let m = out@.len() as int;
                            if m < t.len() {
                                let c0 = t[m];
                                if !(c0 == '"' || c0 == '\\') {
                                    assert(b@[i as int] == c0 as u8);
                                    lemma_ascii_char_injective(c0, '\\');
                                }
                            }
                        }
                    }
                }
                return None;
            }
            let c2 = b[i + 1];
            if c2 == 34 || c2 == 92 {
                let ch = c2 as char;
                let ghost prev = out@;
                let ghost i0 = i as int;
                push_char(&mut out, ch);
                proof {
                    assert(ch == '"' || ch == '\\');
                    assert(char_clean(ch));
                    assert(out@ =~= prev.push(ch));
                    lemma_esc_bytes_push(prev, ch);
                    assert(esc_char(ch) =~= seq![92u8, c2]);
                    assert forall|j: int| 0 <= j < i0 + 2 - at implies b@.subrange(
                        at as int,
                        i0 + 2,
                    )[j] == esc_bytes(out@)[j] by {
                        if j < i0 - at {
                            assert(b@.subrange(at as int, i0)[j] == b@[at + j]);
                        }
                    }
                    assert(b@.subrange(at as int, i0 + 2) =~= esc_bytes(out@));
                    assert forall|j: int| 0 <= j < out@.len() implies char_clean(
                        #[trigger] out@[j],
                    ) by {
                        if j < prev.len() {
                            assert(char_clean(prev[j]));
                        }
                    }
                    assert forall|t: Seq<char>|
                        str_payload_matches(b@, at as int, t) implies out@.len() <= t.len() && out@
                        == t.take(out@.len() as int) by {
                        string_parse_head(b@, at as int, i0, prev, t);
                        let m = prev.len() as int;
                        assert(m < t.len()) by {
                            if m == t.len() {
                                assert(b@[i0] == 34);
                            }
                        }
                        let c0 = t[m];
                        assert(c0 == '"' || c0 == '\\') by {
                            if !(c0 == '"' || c0 == '\\') {
                                assert(b@[i0] == c0 as u8);
                                lemma_ascii_char_injective(c0, '\\');
                            }
                        }
                        assert(b@[i0 + 1] == c0 as u8);
                        assert(ch == c0) by {
                            if c0 == '"' {
                                assert(c2 == 34);
                            } else {
                                assert(c2 == 92);
                            }
                        }
                        assert(t.take(m + 1) =~= t.take(m).push(t[m]));
                        assert(out@ =~= t.take(out@.len() as int));
                    }
                }
                i = i + 2;
            } else {
                proof {
                    assert forall|t: Seq<char>| !str_payload_matches(b@, at as int, t) by {
                        if str_payload_matches(b@, at as int, t) {
                            string_parse_head(b@, at as int, i as int, out@, t);
                            let m = out@.len() as int;
                            if m < t.len() {
                                let c0 = t[m];
                                if !(c0 == '"' || c0 == '\\') {
                                    assert(b@[i as int] == c0 as u8);
                                    lemma_ascii_char_injective(c0, '\\');
                                }
                            }
                        }
                    }
                }
                return None;
            }
        } else if 32 <= c && c < 127 {
            let ch = c as char;
            let ghost prev = out@;
            let ghost i0 = i as int;
            push_char(&mut out, ch);
            proof {
                assert(' ' <= ch && ch <= '~');
                assert(char_clean(ch));
                assert(ch as u8 == c);
                assert(!(ch == '"' || ch == '\\')) by {
                    if ch == '"' || ch == '\\' {
                        assert(c == 34 || c == 92);
                    }
                }
                assert(out@ =~= prev.push(ch));
                lemma_esc_bytes_push(prev, ch);
                assert(esc_char(ch) =~= seq![c]);
                assert forall|j: int| 0 <= j < i0 + 1 - at implies b@.subrange(at as int, i0 + 1)[j]
                    == esc_bytes(out@)[j] by {
                    if j < i0 - at {
                        assert(b@.subrange(at as int, i0)[j] == b@[at + j]);
                    }
                }
                assert(b@.subrange(at as int, i0 + 1) =~= esc_bytes(out@));
                assert forall|j: int| 0 <= j < out@.len() implies char_clean(#[trigger] out@[j]) by {
                    if j < prev.len() {
                        assert(char_clean(prev[j]));
                    }
                }
                assert forall|t: Seq<char>|
                    str_payload_matches(b@, at as int, t) implies out@.len() <= t.len() && out@
                    == t.take(out@.len() as int) by {
                    string_parse_head(b@, at as int, i0, prev, t);
                    let m = prev.len() as int;
                    assert(m < t.len()) by {
                        if m == t.len() {
                            assert(b@[i0] == 34);
                        }
                    }
                    let c0 = t[m];
                    assert(!(c0 == '"' || c0 == '\\')) by {
                        if c0 == '"' || c0 == '\\' {
                            assert(b@[i0] == 92);
                        }
                    }
                    assert(b@[i0] == c0 as u8);
                    assert(ch == c0) by {
                        lemma_ascii_char_injective(ch, c0);
                    }
                    assert(t.take(m + 1) =~= t.take(m).push(t[m]));
                    assert(out@ =~= t.take(out@.len() as int));
                }
            }
            i = i + 1;
        } else {
            proof {
                assert forall|t: Seq<char>| !str_payload_matches(b@, at as int, t) by {
                    if str_payload_matches(b@, at as int, t) {
                        string_parse_head(b@, at as int, i as int, out@, t);
                        let m = out@.len() as int;
                        if m < t.len() {
                            let c0 = t[m];
                            if c0 == '"' || c0 == '\\' {
                                assert(b@[i as int] == 92);
                            } else {
                                assert(b@[i as int] == c0 as u8);
                            }
                        }
                    }
                }
            }
            return None;
        }
    }
}

// ---------------------------------------------------------------------------
// Whole messages
// ---------------------------------------------------------------------------

proof fn split2(b: Seq<u8>, p: Seq<u8>, rest: Seq<u8>)
    requires
        p.len() <= b.len(),
        b.subrange(0, p.len() as int) == p,
        b.skip(p.len() as int) == rest,
    ensures
        b == p + rest,
{
    assert forall|j: int| 0 <= j < b.len() implies b[j] == (p + rest)[j] by {
        if j < p.len() {
            assert(b.subrange(0, p.len() as int)[j] == b[j]);
        } else {
            assert(b.skip(p.len() as int)[j - p.len()] == b[j]);
        }
    }
    assert(b =~= p + rest);
}

proof fn split2_inv(b: Seq<u8>, p: Seq<u8>, rest: Seq<u8>)
    requires
        b == p + rest,
    ensures
        b.len() == p.len() + rest.len(),
        b.subrange(0, p.len() as int) == p,
        b.skip(p.len() as int) == rest,
{
    assert(b.subrange(0, p.len() as int) =~= p);
    assert(b.skip(p.len() as int) =~= rest);
}

/// Encodes a client message as the payload of one frame, exactly when it is
/// representable on the wire.
pub fn encode_client(m: &ClientMessage) -> (r: Option<Vec<u8>>)
    ensures
        match r {
            Some(b) => client_wire_ok(m@) && b@ == spec_encode_client(m@),
            None => !client_wire_ok(m@),
        },
{
    match m {
        ClientMessage::Authenticate(s) => {
            let mut out = lit_pre_authenticate();
            let ok = push_escaped(&mut out, s.as_str());
            if !ok {
                return None;
            }
            out.push(34);
            out.push(125);
            proof {
                assert(out@ =~= spec_encode_client(m@));
            }
            Some(out)
        },
        ClientMessage::Hello(p) => {
            let mut out = lit_pre_hello();
            push_decimal(&mut out, *p);
            out.push(125);
            proof {
                assert(out@ =~= spec_encode_client(m@));
            }
            Some(out)
        },
        ClientMessage::Accept(id) => {
            if !id.is_wf() {
                return None;
            }
            let mut out = lit_pre_accept();
            push_uuid(&mut out, id);
            out.push(34);
            out.push(125);
            proof {
                assert(out@ =~= spec_encode_client(m@));
            }
            Some(out)
        },
    }
}

/// Encodes a server message as the payload of one frame, exactly when it is
/// representable on the wire.
pub fn encode_server(m: &ServerMessage) -> (r: Option<Vec<u8>>)
    ensures
        match r {
            Some(b) => server_wire_ok(m@) && b@ == spec_encode_server(m@),
            None => !server_wire_ok(m@),
        },
{
    match m {
        ServerMessage::Challenge(id) => {
            if !id.is_wf() {
                return None;
            }
            let mut out = lit_pre_challenge();
            push_uuid(&mut out, id);
            out.push(34);
            out.push(125);
            proof {
                assert(out@ =~= spec_encode_server(m@));
            }
            Some(out)
        },
        ServerMessage::Hello(p) => {
            let mut out = lit_pre_hello();
            push_decimal(&mut out, *p);
            out.push(125);
            proof {
                assert(out@ =~= spec_encode_server(m@));
            }
            Some(out)
        },
        ServerMessage::Heartbeat => {
            let out = lit_heartbeat();
            Some(out)
        },
        ServerMessage::Connection(id) => {
            if !id.is_wf() {
                return None;
            }
            let mut out = lit_pre_connection();
            push_uuid(&mut out, id);
            out.push(34);
            out.push(125);
            proof {
                assert(out@ =~= spec_encode_server(m@));
            }
            Some(out)
        },
        ServerMessage::Error(s) => {
            let mut out = lit_pre_error();
            let ok = push_escaped(&mut out, s.as_str());
            if !ok {
                return None;
            }
            out.push(34);
            out.push(125);
            proof {
                assert(out@ =~= spec_encode_server(m@));
            }
            Some(out)
        },
    }
}

/// Under the hypothesis that `b` is a `Hello` frame around some decimal, the
/// digit run and its closing brace look as the parser expects; so when they
/// do not, no `Hello` message encodes to `b`.
proof fn no_hello_match(b: Seq<u8>)
    requires
        b.len() >= 9,
        b.subrange(0, 9) == obj_open(name_hello()),
        ({
            let e = run_end(b, 9);
            let d = b.subrange(9, e);
            !(canonical_dec(d) && dec_val(d) <= 65535) || !(e < b.len() && b[e] == 125 && e + 1
                == b.len())
        }),
    ensures
        forall|n: u16| spec_encode_client(ClientMessageV::Hello(n)) != b,
        forall|n: u16| spec_encode_server(ServerMessageV::Hello(n)) != b,
{
    assert forall|n: u16| spec_encode_client(ClientMessageV::Hello(n)) != b && spec_encode_server(
        ServerMessageV::Hello(n),
    ) != b by {
        let enc = obj_open(name_hello()) + dec_bytes(n as int) + seq![125u8];
        assert(spec_encode_client(ClientMessageV::Hello(n)) == enc);
        assert(spec_encode_server(ServerMessageV::Hello(n)) == enc);
        if enc == b {
            lemma_dec_bytes_props(n as int);
            let dn = dec_bytes(n as int);
            let e0 = 9 + dn.len() as int;
            assert(b.len() == e0 + 1);
            assert forall|j: int| 0 <= j < dn.len() implies b.subrange(9, e0)[j] == dn[j] by {
                assert(b[9 + j] == enc[9 + j]);
                assert(enc[9 + j] == dn[j]);
            }
            assert(b.subrange(9, e0) =~= dn);
            assert(b[e0] == enc[e0]);
            assert(b[e0] == 125);
            assert(!is_digit(125u8));
            lemma_run_end_is(b, 9, e0);
            assert(run_end(b, 9) == e0);
            assert(canonical_dec(dn) && dec_val(dn) == n);
            assert(false);
        }
    }
}

/// Decodes one frame payload into the unique client message it encodes,
/// when there is one.
pub fn decode_client(b: &Vec<u8>) -> (r: Option<ClientMessage>)
    ensures
        match r {
            Some(m) => client_wire_ok(m@) && spec_decode_client(b@) == Some(m@),
            None => spec_decode_client(b@) is None,
        },
{
    let pre_auth = lit_pre_authenticate();
    let pre_hello = lit_pre_hello();
    let pre_accept = lit_pre_accept();
    if expect_lit(b, 0, &pre_auth) {
        match parse_string_payload(b, pre_auth.len()) {
            Some(s) => {
                proof {
                    let v = ClientMessageV::Authenticate(s@);
                    split2(b@, quoted_open(name_authenticate()), esc_bytes(s@) + quoted_close());
                    assert(b@ =~= spec_encode_client(v));
                    lemma_client_round_trip(v);
                }
                Some(ClientMessage::Authenticate(s))
            },
            None => {
                proof {
                    assert forall|v: ClientMessageV| client_wire_ok(v) implies spec_encode_client(
                        v,
                    ) != b@ by {
                        lemma_client_variant_bytes(v);
                        if spec_encode_client(v) == b@ {
                            match v {
                                ClientMessageV::Authenticate(t) => {
                                    assert(b@ =~= quoted_open(name_authenticate()) + (esc_bytes(t)
                                        + quoted_close()));
                                    split2_inv(
                                        b@,
                                        quoted_open(name_authenticate()),
                                        esc_bytes(t) + quoted_close(),
                                    );
                                    assert(str_payload_matches(b@, 17, t));
                                },
                                ClientMessageV::Hello(_) => {
                                    assert(b@[2] == b@.subrange(0, 17)[2]);
                                    assert(b@[2] == 65);
                                },
                                ClientMessageV::Accept(_) => {
                                    assert(b@[3] == b@.subrange(0, 17)[3]);
                                    assert(b@[3] == 117);
                                },
                            }
                        }
                    }
                    lemma_spec_decode_client_none(b@);
                }
                None
            },
        }
    } else if expect_lit(b, 0, &pre_hello) {
        let parsed = parse_u16_digits(b, pre_hello.len());
        let mut good: bool = false;
        let mut n: u16 = 0;
        match parsed {
            Some(pair) => {
                let e = pair.1;
                if e < b.len() && b[e] == 125 && e + 1 == b.len() {
                    good = true;
                    n = pair.0;
                }
            },
            None => {},
        }
        if good {
            proof {
                lemma_run_end_bounds(b@, 9);
                let e = run_end(b@, 9);
                let d = b@.subrange(9, e);
                lemma_dec_unique(d);
                assert(dec_bytes(n as int) == d);
                let v = ClientMessageV::Hello(n);
                assert forall|j: int| 0 <= j < b@.len() implies b@[j] == spec_encode_client(v)[j]
                    by {
                    if j < 9 {
                        assert(b@.subrange(0, 9)[j] == b@[j]);
                    } else if j < e {
                        assert(d[j - 9] == b@[j]);
                    }
                }
                assert(b@ =~= spec_encode_client(v));
                lemma_client_round_trip(v);
            }
            Some(ClientMessage::Hello(n))
        } else {
            proof {
                no_hello_match(b@);
                assert forall|v: ClientMessageV| client_wire_ok(v) implies spec_encode_client(v)
                    != b@ by {
                    lemma_client_variant_bytes(v);
                    if spec_encode_client(v) == b@ {
                        match v {
                            ClientMessageV::Authenticate(_) => {
                                assert(b@[2] == b@.subrange(0, 9)[2]);
                                assert(b@[2] == 72);
                            },
                            ClientMessageV::Hello(_) => {},
                            ClientMessageV::Accept(_) => {
                                assert(b@[2] == b@.subrange(0, 9)[2]);
                                assert(b@[2] == 72);
                            },
                        }
                    }
                }
                lemma_spec_decode_client_none(b@);
            }
            None
        }
    } else if expect_lit(b, 0, &pre_accept) {
        let plen = pre_accept.len();
        match parse_uuid(b, plen) {
            Some(id) => {
                if b.len() == plen + 38 && b[plen + 36] == 34 && b[plen + 37] == 125 {
                    proof {
                        let v = ClientMessageV::Accept(id@);
                        assert forall|j: int| 0 <= j < b@.len() implies b@[j] == spec_encode_client(
                            v,
                        )[j] by {
                            if j < 11 {
                                assert(b@.subrange(0, 11)[j] == b@[j]);
                            } else if j < 47 {
                                assert(b@.subrange(11, 47)[j - 11] == b@[j]);
                            }
                        }
                        assert(b@ =~= spec_encode_client(v));
                        lemma_client_round_trip(v);
                    }
                    Some(ClientMessage::Accept(id))
                } else {
                    proof {
                        accept_tail_none(b@, id@);
                        lemma_spec_decode_client_none(b@);
                    }
                    None
                }
            },
            None => {
                proof {
                    assert forall|v: ClientMessageV| client_wire_ok(v) implies spec_encode_client(
                        v,
                    ) != b@ by {
                        lemma_client_variant_bytes(v);
                        if spec_encode_client(v) == b@ {
                            match v {
                                ClientMessageV::Authenticate(_) => {
                                    assert(b@[3] == b@.subrange(0, 11)[3]);
                                    assert(b@[3] == 99);
                                },
                                ClientMessageV::Hello(_) => {
                                    assert(b@[2] == b@.subrange(0, 11)[2]);
                                    assert(b@[2] == 65);
                                },
                                ClientMessageV::Accept(u) => {
                                    assert(b@ =~= quoted_open(name_accept()) + (uuid_bytes(u)
                                        + quoted_close()));
                                    split2_inv(
                                        b@,
                                        quoted_open(name_accept()),
                                        uuid_bytes(u) + quoted_close(),
                                    );
                                    assert(b@.subrange(11, 47) =~= uuid_bytes(u)) by {
                                        assert forall|j: int| 0 <= j < 36 implies b@.subrange(
                                            11,
                                            47,
                                        )[j] == uuid_bytes(u)[j] by {
                                            assert(b@.skip(11)[j] == b@[11 + j]);
                                            assert(b@.subrange(11, 47)[j] == b@[11 + j]);
                                            assert((uuid_bytes(u) + quoted_close())[j]
                                                == uuid_bytes(u)[j]);
                                        }
                                    }
                                },
                            }
                        }
                    }
                    lemma_spec_decode_client_none(b@);
                }
                None
            },
        }
    } else {
        proof {
            assert forall|v: ClientMessageV| client_wire_ok(v) implies spec_encode_client(v) != b@
                by {
                lemma_client_variant_bytes(v);
                if spec_encode_client(v) == b@ {
                    match v {
                        ClientMessageV::Authenticate(t) => {
                            assert(b@ =~= quoted_open(name_authenticate()) + (esc_bytes(t)
                                + quoted_close()));
                            split2_inv(
                                b@,
                                quoted_open(name_authenticate()),
                                esc_bytes(t) + quoted_close(),
                            );
                        },
                        ClientMessageV::Hello(n) => {
                            assert(b@ =~= obj_open(name_hello()) + (dec_bytes(n as int)
                                + seq![125u8]));
                            split2_inv(
                                b@,
                                obj_open(name_hello()),
                                dec_bytes(n as int) + seq![125u8],
                            );
                        },
                        ClientMessageV::Accept(u) => {
                            assert(b@ =~= quoted_open(name_accept()) + (uuid_bytes(u)
                                + quoted_close()));
                            split2_inv(
                                b@,
                                quoted_open(name_accept()),
                                uuid_bytes(u) + quoted_close(),
                            );
                        },
                    }
                }
            }
            lemma_spec_decode_client_none(b@);
        }
        None
    }
}

/// When an identifier was read but the closing quote and brace do not end
/// the frame right after it, no `Accept` message encodes to `b`.
proof fn accept_tail_none(b: Seq<u8>, idv: Seq<u8>)
    requires
        idv.len() == 16,
        11 + 36 <= b.len(),
        b.subrange(0, 11) == quoted_open(name_accept()),
        b.subrange(11, 47) == uuid_bytes(idv),
        !(b.len() == 49 && b[47] == 34 && b[48] == 125),
    ensures
        forall|v: ClientMessageV| client_wire_ok(v) ==> spec_encode_client(v) != b,
{
    assert forall|v: ClientMessageV| client_wire_ok(v) implies spec_encode_client(v) != b by {
        lemma_client_variant_bytes(v);
        if spec_encode_client(v) == b {
            match v {
                ClientMessageV::Authenticate(_) => {
                    assert(b[3] == b.subrange(0, 11)[3]);
                    assert(b[3] == 99);
                },
                ClientMessageV::Hello(_) => {
                    assert(b[2] == b.subrange(0, 11)[2]);
                    assert(b[2] == 65);
                },
                ClientMessageV::Accept(u) => {
                    assert(b =~= quoted_open(name_accept()) + (uuid_bytes(u) + quoted_close()));
                    split2_inv(b, quoted_open(name_accept()), uuid_bytes(u) + quoted_close());
                    assert(b.len() == 49);
                    assert(b[47] == b.skip(11)[36]);
                    assert(b[48] == b.skip(11)[37]);
                    assert(b.skip(11)[36] == quoted_close()[0]);
                    assert(b.skip(11)[37] == quoted_close()[1]);
                },
            }
        }
    }
}

/// When an identifier was read after `{"Challenge":"` but the frame does not
/// end with `"}` right after it, no `Challenge` message encodes to `b`.
proof fn challenge_tail_none(b: Seq<u8>, idv: Seq<u8>)
    requires
        idv.len() == 16,
        14 + 36 <= b.len(),
        b.subrange(0, 14) == quoted_open(name_challenge()),
        b.subrange(14, 50) == uuid_bytes(idv),
        !(b.len() == 52 && b[50] == 34 && b[51] == 125),
    ensures
        forall|v: ServerMessageV| server_wire_ok(v) ==> spec_encode_server(v) != b,
{
    assert forall|v: ServerMessageV| server_wire_ok(v) implies spec_encode_server(v) != b by {
        lemma_server_variant_bytes(v);
        if spec_encode_server(v) == b {
            match v {
                ServerMessageV::Challenge(u) => {
                    assert(b =~= quoted_open(name_challenge()) + (uuid_bytes(u) + quoted_close()));
                    split2_inv(b, quoted_open(name_challenge()), uuid_bytes(u) + quoted_close());
                    assert(b.len() == 52);
                    assert(b[50] == b.skip(14)[36]);
                    assert(b[51] == b.skip(14)[37]);
                    assert(b.skip(14)[36] == quoted_close()[0]);
                    assert(b.skip(14)[37] == quoted_close()[1]);
                },
                ServerMessageV::Hello(_) => {
                    assert(b[2] == b.subrange(0, 14)[2]);
                    assert(b[2] == 67);
                },
                ServerMessageV::Heartbeat => {
                    assert(b[0] == b.subrange(0, 14)[0]);
                    assert(b[0] == 123);
                },
                ServerMessageV::Connection(_) => {
                    assert(b[3] == b.subrange(0, 14)[3]);
                    assert(b[3] == 104);
                },
                ServerMessageV::Error(_) => {
                    assert(b[2] == b.subrange(0, 14)[2]);
                    assert(b[2] == 67);
                },
            }
        }
    }
}

/// The same for `{"Connection":"`.
proof fn connection_tail_none(b: Seq<u8>, idv: Seq<u8>)
    requires
        idv.len() == 16,
        15 + 36 <= b.len(),
        b.subrange(0, 15) == quoted_open(name_connection()),
        b.subrange(15, 51) == uuid_bytes(idv),
        !(b.len() == 53 && b[51] == 34 && b[52] == 125),
    ensures
        forall|v: ServerMessageV| server_wire_ok(v) ==> spec_encode_server(v) != b,
{
    assert forall|v: ServerMessageV| server_wire_ok(v) implies spec_encode_server(v) != b by {
        lemma_server_variant_bytes(v);
        if spec_encode_server(v) == b {
            match v {
                ServerMessageV::Connection(u) => {
                    assert(b =~= quoted_open(name_connection()) + (uuid_bytes(u)
                        + quoted_close()));
                    split2_inv(b, quoted_open(name_connection()), uuid_bytes(u) + quoted_close());
                    assert(b.len() == 53);
                    assert(b[51] == b.skip(15)[36]);
                    assert(b[52] == b.skip(15)[37]);
                    assert(b.skip(15)[36] == quoted_close()[0]);
                    assert(b.skip(15)[37] == quoted_close()[1]);
                },
                ServerMessageV::Hello(_) => {
                    assert(b[2] == b.subrange(0, 15)[2]);
                    assert(b[2] == 67);
                },
                ServerMessageV::Heartbeat => {
                    assert(b[0] == b.subrange(0, 15)[0]);
                    assert(b[0] == 123);
                },
                ServerMessageV::Challenge(_) => {
                    assert(b[3] == b.subrange(0, 15)[3]);
                    assert(b[3] == 111);
                },
                ServerMessageV::Error(_) => {
                    assert(b[2] == b.subrange(0, 15)[2]);
                    assert(b[2] == 67);
                },
            }
        }
    }
}

/// Decodes one frame payload into the unique server message it encodes,
/// when there is one.
pub fn decode_server(b: &Vec<u8>) -> (r: Option<ServerMessage>)
    ensures
        match r {
            Some(m) => server_wire_ok(m@) && spec_decode_server(b@) == Some(m@),
            None => spec_decode_server(b@) is None,
        },
{
    let hb = lit_heartbeat();
    let pre_challenge = lit_pre_challenge();
    let pre_hello = lit_pre_hello();
    let pre_connection = lit_pre_connection();
    let pre_error = lit_pre_error();
    if expect_lit(b, 0, &hb) && b.len() == hb.len() {
        proof {
            assert(b@ =~= spec_encode_server(ServerMessageV::Heartbeat));
            lemma_server_round_trip(ServerMessageV::Heartbeat);
        }
        Some(ServerMessage::Heartbeat)
    } else if expect_lit(b, 0, &pre_challenge) {
        let plen = pre_challenge.len();
        match parse_uuid(b, plen) {
            Some(id) => {
                if b.len() == plen + 38 && b[plen + 36] == 34 && b[plen + 37] == 125 {
                    proof {
                        let v = ServerMessageV::Challenge(id@);
                        assert forall|j: int| 0 <= j < b@.len() implies b@[j] == spec_encode_server(
                            v,
                        )[j] by {
                            if j < 14 {
                                assert(b@.subrange(0, 14)[j] == b@[j]);
                            } else if j < 50 {
                                assert(b@.subrange(14, 50)[j - 14] == b@[j]);
                            }
                        }
                        assert(b@ =~= spec_encode_server(v));
                        lemma_server_round_trip(v);
                    }
                    Some(ServerMessage::Challenge(id))
                } else {
                    proof {
                        challenge_tail_none(b@, id@);
                        lemma_spec_decode_server_none(b@);
                    }
                    None
                }
            },
            None => {
                proof {
                    assert forall|v: ServerMessageV| server_wire_ok(v) implies spec_encode_server(
                        v,
                    ) != b@ by {
                        lemma_server_variant_bytes(v);
                        if spec_encode_server(v) == b@ {
                            match v {
                                ServerMessageV::Challenge(u) => {
                                    assert(b@ =~= quoted_open(name_challenge()) + (uuid_bytes(u)
                                        + quoted_close()));
                                    split2_inv(
                                        b@,
                                        quoted_open(name_challenge()),
                                        uuid_bytes(u) + quoted_close(),
                                    );
                                    assert(b@.subrange(14, 50) =~= uuid_bytes(u)) by {
                                        assert forall|j: int| 0 <= j < 36 implies b@.subrange(
                                            14,
                                            50,
                                        )[j] == uuid_bytes(u)[j] by {
                                            assert(b@.skip(14)[j] == b@[14 + j]);
                                            assert(b@.subrange(14, 50)[j] == b@[14 + j]);
                                            assert((uuid_bytes(u) + quoted_close())[j]
                                                == uuid_bytes(u)[j]);
                                        }
                                    }
                                },
                                ServerMessageV::Hello(_) => {
                                    assert(b@[2] == b@.subrange(0, 14)[2]);
                                    assert(b@[2] == 67);
                                },
                                ServerMessageV::Heartbeat => {
                                    assert(b@[0] == b@.subrange(0, 14)[0]);
                                    assert(b@[0] == 123);
                                },
                                ServerMessageV::Connection(_) => {
                                    assert(b@[3] == b@.subrange(0, 14)[3]);
                                    assert(b@[3] == 104);
                                },
                                ServerMessageV::Error(_) => {
                                    assert(b@[2] == b@.subrange(0, 14)[2]);
                                    assert(b@[2] == 67);
                                },
                            }
                        }
                    }
                    lemma_spec_decode_server_none(b@);
                }
                None
            },
        }
    } else if expect_lit(b, 0, &pre_hello) {
        let parsed = parse_u16_digits(b, pre_hello.len());
        let mut good: bool = false;
        let mut n: u16 = 0;
        match parsed {
            Some(pair) => {
                let e = pair.1;
                if e < b.len() && b[e] == 125 && e + 1 == b.len() {
                    good = true;
                    n = pair.0;
                }
            },
            None => {},
        }
        if good {
            proof {
                lemma_run_end_bounds(b@, 9);
                let e = run_end(b@, 9);
                let d = b@.subrange(9, e);
                lemma_dec_unique(d);
                assert(dec_bytes(n as int) == d);
                let v = ServerMessageV::Hello(n);
                assert forall|j: int| 0 <= j < b@.len() implies b@[j] == spec_encode_server(v)[j]
                    by {
                    if j < 9 {
                        assert(b@.subrange(0, 9)[j] == b@[j]);
                    } else if j < e {
                        assert(d[j - 9] == b@[j]);
                    }
                }
                assert(b@ =~= spec_encode_server(v));
                lemma_server_round_trip(v);
            }
            Some(ServerMessage::Hello(n))
        } else {
            proof {
                no_hello_match(b@);
                assert forall|v: ServerMessageV| server_wire_ok(v) implies spec_encode_server(v)
                    != b@ by {
                    lemma_server_variant_bytes(v);
                    if spec_encode_server(v) == b@ {
                        match v {
                            ServerMessageV::Hello(_) => {},
                            ServerMessageV::Heartbeat => {
                                assert(b@[0] == b@.subrange(0, 9)[0]);
                                assert(b@[0] == 123);
                            },
                            _ => {
                                assert(b@[2] == b@.subrange(0, 9)[2]);
                                assert(b@[2] == 72);
                            },
                        }
                    }
                }
                lemma_spec_decode_server_none(b@);
            }
            None
        }
    } else if expect_lit(b, 0, &pre_connection) {
        let plen = pre_connection.len();
        match parse_uuid(b, plen) {
            Some(id) => {
                if b.len() == plen + 38 && b[plen + 36] == 34 && b[plen + 37] == 125 {
                    proof {
                        let v = ServerMessageV::Connection(id@);
                        assert forall|j: int| 0 <= j < b@.len() implies b@[j] == spec_encode_server(
                            v,
                        )[j] by {
                            if j < 15 {
                                assert(b@.subrange(0, 15)[j] == b@[j]);
                            } else if j < 51 {
                                assert(b@.subrange(15, 51)[j - 15] == b@[j]);
                            }
                        }
                        assert(b@ =~= spec_encode_server(v));
                        lemma_server_round_trip(v);
                    }
                    Some(ServerMessage::Connection(id))
                } else {
                    proof {
                        connection_tail_none(b@, id@);
                        lemma_spec_decode_server_none(b@);
                    }
                    None
                }
            },
            None => {
                proof {
                    assert forall|v: ServerMessageV| server_wire_ok(v) implies spec_encode_server(
                        v,
                    ) != b@ by {
                        lemma_server_variant_bytes(v);
                        if spec_encode_server(v) == b@ {
                            match v {
                                ServerMessageV::Connection(u) => {
                                    assert(b@ =~= quoted_open(name_connection()) + (uuid_bytes(u)
                                        + quoted_close()));
                                    split2_inv(
                                        b@,
                                        quoted_open(name_connection()),
                                        uuid_bytes(u) + quoted_close(),
                                    );
                                    assert(b@.subrange(15, 51) =~= uuid_bytes(u)) by {
                                        assert forall|j: int| 0 <= j < 36 implies b@.subrange(
                                            15,
                                            51,
                                        )[j] == uuid_bytes(u)[j] by {
                                            assert(b@.skip(15)[j] == b@[15 + j]);
                                            assert(b@.subrange(15, 51)[j] == b@[15 + j]);
                                            assert((uuid_bytes(u) + quoted_close())[j]
                                                == uuid_bytes(u)[j]);
                                        }
                                    }
                                },
                                ServerMessageV::Hello(_) => {
                                    assert(b@[2] == b@.subrange(0, 15)[2]);
                                    assert(b@[2] == 67);
                                },
                                ServerMessageV::Heartbeat => {
                                    assert(b@[0] == b@.subrange(0, 15)[0]);
                                    assert(b@[0] == 123);
                                },
                                ServerMessageV::Challenge(_) => {
                                    assert(b@[3] == b@.subrange(0, 15)[3]);
                                    assert(b@[3] == 111);
                                },
                                ServerMessageV::Error(_) => {
                                    assert(b@[2] == b@.subrange(0, 15)[2]);
                                    assert(b@[2] == 67);
                                },
                            }
                        }
                    }
                    lemma_spec_decode_server_none(b@);
                }
                None
            },
        }
    } else if expect_lit(b, 0, &pre_error) {
        match parse_string_payload(b, pre_error.len()) {
            Some(s) => {
                proof {
                    let v = ServerMessageV::Error(s@);
                    split2(b@, quoted_open(name_error()), esc_bytes(s@) + quoted_close());
                    assert(b@ =~= spec_encode_server(v));
                    lemma_server_round_trip(v);
                }
                Some(ServerMessage::Error(s))
            },
            None => {
                proof {
                    assert forall|v: ServerMessageV| server_wire_ok(v) implies spec_encode_server(
                        v,
                    ) != b@ by {
                        lemma_server_variant_bytes(v);
                        if spec_encode_server(v) == b@ {
                            match v {
                                ServerMessageV::Error(t) => {
                                    assert(b@ =~= quoted_open(name_error()) + (esc_bytes(t)
                                        + quoted_close()));
                                    split2_inv(
                                        b@,
                                        quoted_open(name_error()),
                                        esc_bytes(t) + quoted_close(),
                                    );
                                    assert(str_payload_matches(b@, 10, t));
                                },
                                ServerMessageV::Hello(_) => {
                                    assert(b@[2] == b@.subrange(0, 10)[2]);
                                    assert(b@[2] == 69);
                                },
                                ServerMessageV::Heartbeat => {
                                    assert(b@[0] == b@.subrange(0, 10)[0]);
                                    assert(b@[0] == 123);
                                },
                                _ => {
                                    assert(b@[2] == b@.subrange(0, 10)[2]);
                                    assert(b@[2] == 69);
                                },
                            }
                        }
                    }
                    lemma_spec_decode_server_none(b@);
                }
                None
            },
        }
    } else {
        proof {
            assert forall|v: ServerMessageV| server_wire_ok(v) implies spec_encode_server(v) != b@
                by {
                lemma_server_variant_bytes(v);
                if spec_encode_server(v) == b@ {
                    match v {
                        ServerMessageV::Challenge(u) => {
                            assert(b@ =~= quoted_open(name_challenge()) + (uuid_bytes(u)
                                + quoted_close()));
                            split2_inv(
                                b@,
                                quoted_open(name_challenge()),
                                uuid_bytes(u) + quoted_close(),
                            );
                        },
                        ServerMessageV::Hello(n) => {
                            assert(b@ =~= obj_open(name_hello()) + (dec_bytes(n as int)
                                + seq![125u8]));
                            split2_inv(
                                b@,
                                obj_open(name_hello()),
                                dec_bytes(n as int) + seq![125u8],
                            );
                        },
                        ServerMessageV::Heartbeat => {
                            assert(b@.subrange(0, 11) =~= b@);
                        },
                        ServerMessageV::Connection(u) => {
                            assert(b@ =~= quoted_open(name_connection()) + (uuid_bytes(u)
                                + quoted_close()));
                            split2_inv(
                                b@,
                                quoted_open(name_connection()),
                                uuid_bytes(u) + quoted_close(),
                            );
                        },
                        ServerMessageV::Error(t) => {
                            assert(b@ =~= quoted_open(name_error()) + (esc_bytes(t)
                                + quoted_close()));
                            split2_inv(
                                b@,
                                quoted_open(name_error()),
                                esc_bytes(t) + quoted_close(),
                            );
                        },
                    }
                }
            }
            lemma_spec_decode_server_none(b@);
        }
        None
    }
}

} // verus!
