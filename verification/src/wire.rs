//! Byte-level specification of the wire grammar: NUL-delimited frames of
//! compact JSON text with externally tagged variants, e.g. `{"Hello":1234}`.
//! The functions here define what the codec must produce and accept; the
//! executable encoder and decoder live in `codec` and are verified against
//! these definitions.

use vstd::prelude::*;

use crate::msg::{char_clean, client_wire_ok, server_wire_ok, str_clean, ClientMessageV,
    ServerMessageV};

verus! {

// ---------------------------------------------------------------------------
// Decimal numbers
// ---------------------------------------------------------------------------

/// An ASCII decimal digit.
pub open spec fn is_digit(b: u8) -> bool {
    48 <= b <= 57
}

/// The canonical decimal digits of `n`, most significant first.
pub open spec fn dec_bytes(n: int) -> Seq<u8>
    recommends
        n >= 0,
    decreases n,
{
    if n < 10 {
        seq![(48 + n) as u8]
    } else {
        dec_bytes(n / 10) + seq![(48 + n % 10) as u8]
    }
}

/// The value of a digit string, most significant first.
pub open spec fn dec_val(s: Seq<u8>) -> int
    decreases s.len(),
{
    if s.len() == 0 {
        0
    } else {
        dec_val(s.drop_last()) * 10 + (s.last() - 48)
    }
}

pub open spec fn all_digits(s: Seq<u8>) -> bool {
    forall|i: int| 0 <= i < s.len() ==> is_digit(#[trigger] s[i])
}

/// A digit string as the canonical encoder writes it: non-empty and without
/// a leading zero (except for the single digit `0`).
pub open spec fn canonical_dec(s: Seq<u8>) -> bool {
    &&& all_digits(s)
    &&& s.len() >= 1
    &&& (s.len() > 1 ==> s[0] != 48)
}

pub proof fn lemma_dec_bytes_props(n: int)
    requires
        n >= 0,
    ensures
        canonical_dec(dec_bytes(n)),
        dec_val(dec_bytes(n)) == n,
        n > 0 ==> dec_bytes(n)[0] != 48,
    decreases n,
{
    if n < 10 {
        let s = dec_bytes(n);
        assert(s =~= seq![(48 + n) as u8]);
        assert(s.drop_last() =~= Seq::<u8>::empty());
        assert(dec_val(Seq::<u8>::empty()) == 0);
        assert(dec_val(s) == dec_val(s.drop_last()) * 10 + (s.last() - 48));
    } else {
        lemma_dec_bytes_props(n / 10);
        let s = dec_bytes(n);
        let s0 = dec_bytes(n / 10);
        assert(s =~= s0 + seq![(48 + n % 10) as u8]);
        assert(s.drop_last() =~= s0);
        assert(dec_val(s) == dec_val(s0) * 10 + (n % 10));
        assert(n / 10 * 10 + n % 10 == n) by (nonlinear_arith);
        assert(s[0] == s0[0]);
        assert(n / 10 > 0);
    }
}

pub proof fn lemma_dec_val_nonneg(s: Seq<u8>)
    requires
        all_digits(s),
    ensures
        dec_val(s) >= 0,
    decreases s.len(),
{
    if s.len() > 0 {
        assert(all_digits(s.drop_last()));
        lemma_dec_val_nonneg(s.drop_last());
        assert(dec_val(s.drop_last()) * 10 >= 0);
    }
}

/// Canonical digit strings are exactly the images of `dec_bytes`.
pub proof fn lemma_dec_unique(s: Seq<u8>)
    requires
        canonical_dec(s),
    ensures
        dec_val(s) >= 0,
        dec_bytes(dec_val(s)) == s,
    decreases s.len(),
{
    lemma_dec_val_nonneg(s);
    if s.len() == 1 {
        assert(s.drop_last() =~= Seq::<u8>::empty());
        assert(dec_val(Seq::<u8>::empty()) == 0);
        assert(dec_val(s) == dec_val(s.drop_last()) * 10 + (s.last() - 48));
        assert(s.last() == s[0]);
        assert(dec_val(s) == s[0] - 48);
        assert(dec_bytes(dec_val(s)) =~= s);
    } else {
        let s0 = s.drop_last();
        let d = s.last();
        assert(all_digits(s0));
        assert(s0[0] == s[0]);
        assert(canonical_dec(s0));
        lemma_dec_unique(s0);
        let v0 = dec_val(s0);
        if v0 == 0 {
            assert(dec_bytes(0) =~= seq![48u8]);
            assert(s0[0] == 48);
            assert(false);
        }
        let v = dec_val(s);
        assert(v == v0 * 10 + (d - 48));
        assert(v >= 10 && v / 10 == v0 && v % 10 == d - 48) by (nonlinear_arith)
            requires
                v == v0 * 10 + (d - 48),
                v0 >= 1,
                48 <= d <= 57,
        ;
        assert(dec_bytes(v) =~= dec_bytes(v0) + seq![(48 + v % 10) as u8]);
        assert(dec_bytes(v) =~= s);
    }
}

/// The value of a digit string dominates the value of each of its prefixes.
pub proof fn lemma_dec_val_prefix(s: Seq<u8>, i: int)
    requires
        all_digits(s),
        0 <= i <= s.len(),
    ensures
        dec_val(s.take(i)) <= dec_val(s),
    decreases s.len(),
{
    if i < s.len() {
        let s0 = s.drop_last();
        assert(all_digits(s0));
        assert(s.take(i) =~= s0.take(i));
        lemma_dec_val_prefix(s0, i);
        lemma_dec_val_nonneg(s0);
        assert(dec_val(s0) * 10 >= dec_val(s0));
        assert(dec_val(s) >= dec_val(s0));
    } else {
        assert(s.take(i) =~= s);
    }
}

// ---------------------------------------------------------------------------
// Scanning
// ---------------------------------------------------------------------------

/// The end of the run of decimal digits starting at `at`.
pub open spec fn run_end(s: Seq<u8>, at: int) -> int
    recommends
        0 <= at <= s.len(),
    decreases s.len() - at,
{
    if at < s.len() && is_digit(s[at]) {
        run_end(s, at + 1)
    } else {
        at
    }
}

pub proof fn lemma_run_end_bounds(s: Seq<u8>, at: int)
    requires
        0 <= at <= s.len(),
    ensures
        at <= run_end(s, at) <= s.len(),
        all_digits(s.subrange(at, run_end(s, at))),
        run_end(s, at) == s.len() || !is_digit(s[run_end(s, at)]),
    decreases s.len() - at,
{
    if at < s.len() && is_digit(s[at]) {
        lemma_run_end_bounds(s, at + 1);
        let e = run_end(s, at);
        assert forall|i: int| 0 <= i < e - at implies is_digit(#[trigger] s.subrange(at, e)[i]) by {
            if i > 0 {
                assert(is_digit(s.subrange(at + 1, e)[i - 1]));
            }
        }
    }
}

pub proof fn lemma_run_end_is(s: Seq<u8>, at: int, e: int)
    requires
        0 <= at <= e <= s.len(),
        all_digits(s.subrange(at, e)),
        e == s.len() || !is_digit(s[e]),
    ensures
        run_end(s, at) == e,
    decreases e - at,
{
    if at < e {
        assert(is_digit(s[at])) by {
            assert(s.subrange(at, e)[0] == s[at]);
        }
        assert(all_digits(s.subrange(at + 1, e))) by {
            assert forall|i: int| 0 <= i < e - at - 1 implies is_digit(
                #[trigger] s.subrange(at + 1, e)[i],
            ) by {
                assert(s.subrange(at, e)[i + 1] == s.subrange(at + 1, e)[i]);
            }
        }
        lemma_run_end_is(s, at + 1, e);
    }
}

/// Position of the first NUL byte at or after `at`, or the length if none.
pub open spec fn scan_nul(s: Seq<u8>, at: int) -> int
    recommends
        0 <= at <= s.len(),
    decreases s.len() - at,
{
    if at < s.len() {
        if s[at] == 0 {
            at
        } else {
            scan_nul(s, at + 1)
        }
    } else {
        at
    }
}

pub proof fn lemma_scan_nul_bounds(s: Seq<u8>, at: int)
    requires
        0 <= at <= s.len(),
    ensures
        at <= scan_nul(s, at) <= s.len(),
        forall|i: int| at <= i < scan_nul(s, at) ==> s[i] != 0,
        scan_nul(s, at) < s.len() ==> s[scan_nul(s, at)] == 0,
    decreases s.len() - at,
{
    if at < s.len() && s[at] != 0 {
        lemma_scan_nul_bounds(s, at + 1);
    }
}

// ---------------------------------------------------------------------------
// JSON string escaping
// ---------------------------------------------------------------------------

/// How one character is written inside a JSON string: quote and backslash
/// get a backslash escape, every other clean character is itself.
pub open spec fn esc_char(c: char) -> Seq<u8> {
    if c == '"' || c == '\\' {
        seq![92u8, c as u8]
    } else {
        seq![c as u8]
    }
}

pub open spec fn esc_bytes(s: Seq<char>) -> Seq<u8>
    decreases s.len(),
{
    if s.len() == 0 {
        Seq::empty()
    } else {
        esc_char(s[0]) + esc_bytes(s.drop_first())
    }
}

pub proof fn lemma_esc_bytes_push(s: Seq<char>, c: char)
    ensures
        esc_bytes(s.push(c)) == esc_bytes(s) + esc_char(c),
    decreases s.len(),
{
    if s.len() == 0 {
        assert(s.push(c)[0] == c);
        assert(s.push(c).drop_first() =~= Seq::<char>::empty());
        assert(esc_bytes(Seq::<char>::empty()) =~= Seq::<u8>::empty());
        assert(esc_bytes(s.push(c)) =~= esc_char(c) + esc_bytes(Seq::<char>::empty()));
        assert(esc_bytes(s.push(c)) =~= esc_char(c));
        assert(esc_bytes(s) + esc_char(c) =~= esc_char(c));
    } else {
        assert(s.push(c).drop_first() =~= s.drop_first().push(c));
        lemma_esc_bytes_push(s.drop_first(), c);
        assert(esc_bytes(s.push(c)) =~= esc_char(s[0]) + (esc_bytes(s.drop_first()) + esc_char(c)));
        assert(esc_char(s[0]) + (esc_bytes(s.drop_first()) + esc_char(c)) =~= (esc_char(s[0])
            + esc_bytes(s.drop_first())) + esc_char(c));
    }
}

/// Bytes produced by escaping a clean string: a backslash, or a clean
/// non-quote character.
pub proof fn lemma_esc_bytes_range(s: Seq<char>)
    requires
        str_clean(s),
    ensures
        forall|i: int|
            0 <= i < esc_bytes(s).len() ==> 0x20 <= #[trigger] esc_bytes(s)[i] < 0x7f,
    decreases s.len(),
{
    if s.len() > 0 {
        assert(str_clean(s.drop_first())) by {
            assert(forall|i: int|
                0 <= i < s.drop_first().len() ==> #[trigger] s.drop_first()[i] == s[i + 1]);
        }
        lemma_esc_bytes_range(s.drop_first());
        let c = s[0];
        assert(char_clean(c));
        assert(0x20 <= (c as u8) && (c as u8) < 0x7f);
        assert(0x20 <= 92 < 0x7f);
        let rest = esc_bytes(s.drop_first());
        assert(esc_bytes(s) == esc_char(c) + rest);
        let k = esc_char(c).len();
        assert forall|i: int| 0 <= i < esc_bytes(s).len() implies 0x20 <= #[trigger] esc_bytes(
            s,
        )[i] < 0x7f by {
            if i < k {
                assert(esc_bytes(s)[i] == esc_char(c)[i]);
            } else {
                assert(esc_bytes(s)[i] == rest[i - k]);
                assert(0x20 <= rest[i - k] < 0x7f);
            }
        }
    }
}

pub proof fn lemma_esc_bytes_injective(s1: Seq<char>, s2: Seq<char>)
    requires
        str_clean(s1),
        str_clean(s2),
        esc_bytes(s1) == esc_bytes(s2),
    ensures
        s1 == s2,
    decreases s1.len(),
{
    if s1.len() == 0 {
        if s2.len() > 0 {
            assert(esc_bytes(s2).len() > 0);
        }
        assert(s1 =~= s2);
    } else {
        assert(esc_bytes(s1).len() > 0);
        if s2.len() == 0 {
            assert(false);
        }
        let c1 = s1[0];
        let c2 = s2[0];
        // The first byte tells whether the first character was escaped,
        // and in either case pins the character itself.
        assert(char_clean(c1) && char_clean(c2));
        assert(c1 == c2) by {
            if c1 == '"' || c1 == '\\' {
                assert(esc_bytes(s1)[0] == 92);
                if !(c2 == '"' || c2 == '\\') {
                    assert(esc_bytes(s2)[0] == c2 as u8);
                    assert(c2 as u8 != 92) by {
                        if c2 as u8 == 92 {
                            assert(c2 == '\\');
                        }
                    }
                    assert(false);
                }
                assert(esc_bytes(s1)[1] == c1 as u8);
                assert(esc_bytes(s2)[1] == c2 as u8);
                lemma_ascii_char_injective(c1, c2);
            } else {
                assert(esc_bytes(s1)[0] == c1 as u8);
                assert(c1 as u8 != 92) by {
                    if c1 as u8 == 92 {
                        assert(c1 == '\\');
                    }
                }
                if c2 == '"' || c2 == '\\' {
                    assert(esc_bytes(s2)[0] == 92);
                    assert(false);
                }
                assert(esc_bytes(s2)[0] == c2 as u8);
                lemma_ascii_char_injective(c1, c2);
            }
        }
        assert(esc_char(c1) == esc_char(c2));
        assert(esc_bytes(s1.drop_first()) =~= esc_bytes(s2.drop_first())) by {
            let k = esc_char(c1).len();
            assert(esc_bytes(s1) =~= esc_char(c1) + esc_bytes(s1.drop_first()));
            assert(esc_bytes(s2) =~= esc_char(c2) + esc_bytes(s2.drop_first()));
            assert(forall|i: int|
                0 <= i < esc_bytes(s1.drop_first()).len() ==> #[trigger] esc_bytes(
                    s1.drop_first(),
                )[i] == esc_bytes(s1)[i + k]);
            assert(forall|i: int|
                0 <= i < esc_bytes(s2.drop_first()).len() ==> #[trigger] esc_bytes(
                    s2.drop_first(),
                )[i] == esc_bytes(s2)[i + k]);
        }
        assert(str_clean(s1.drop_first()) && str_clean(s2.drop_first())) by {
            assert(forall|i: int|
                0 <= i < s1.drop_first().len() ==> #[trigger] s1.drop_first()[i] == s1[i + 1]);
            assert(forall|i: int|
                0 <= i < s2.drop_first().len() ==> #[trigger] s2.drop_first()[i] == s2[i + 1]);
        }
        lemma_esc_bytes_injective(s1.drop_first(), s2.drop_first());
        assert(s1.len() == s2.len());
        assert forall|i: int| 0 <= i < s1.len() implies s1[i] == s2[i] by {
            if i > 0 {
                assert(s1.drop_first()[i - 1] == s2.drop_first()[i - 1]);
            }
        }
        assert(s1 =~= s2);
    }
}

/// Distinct clean characters map to distinct bytes.
pub proof fn lemma_ascii_char_injective(c1: char, c2: char)
    requires
        char_clean(c1),
        char_clean(c2),
        c1 as u8 == c2 as u8,
    ensures
        c1 == c2,
{
}

// ---------------------------------------------------------------------------
// Identifiers on the wire: 8-4-4-4-12 lowercase hex
// ---------------------------------------------------------------------------

/// Positions of the four hyphens in the 36-character form.
pub open spec fn uuid_hyphen(k: int) -> bool {
    k == 8 || k == 13 || k == 18 || k == 23
}

/// For a character position `k`, the index of the nibble written there
/// (equivalently, the number of non-hyphen positions before `k`).
pub open spec fn nib_count(k: int) -> int {
    if k <= 8 {
        k
    } else if k <= 13 {
        k - 1
    } else if k <= 18 {
        k - 2
    } else if k <= 23 {
        k - 3
    } else {
        k - 4
    }
}

/// Nibble `j` of a byte string, high nibble first.
pub open spec fn nibble_of(bytes: Seq<u8>, j: int) -> u8
    recommends
        0 <= j < 2 * bytes.len(),
{
    if j % 2 == 0 {
        bytes[j / 2] / 16
    } else {
        bytes[j / 2] % 16
    }
}

/// Lowercase hex digit for a nibble.
pub open spec fn hex_digit_byte(n: u8) -> u8
    recommends
        n < 16,
{
    if n < 10 {
        (48 + n) as u8
    } else {
        (87 + n) as u8
    }
}

/// The 36-byte hyphenated lowercase-hex form of a 16-byte identifier.
pub open spec fn uuid_bytes(bytes: Seq<u8>) -> Seq<u8>
    recommends
        bytes.len() == 16,
{
    Seq::new(36, |k: int|
        if uuid_hyphen(k) {
            45u8
        } else {
            hex_digit_byte(nibble_of(bytes, nib_count(k)))
        })
}

pub proof fn lemma_nibble_recompose(hi: u8, lo: u8)
    requires
        hi < 16,
        lo < 16,
    ensures
        (hi * 16 + lo) / 16 == hi,
        (hi * 16 + lo) % 16 == lo,
{
    assert((hi * 16 + lo) / 16 == hi && (hi * 16 + lo) % 16 == lo) by (nonlinear_arith)
        requires
            hi < 16,
            lo < 16,
    ;
}

pub proof fn lemma_hex_digit_byte_injective(n1: u8, n2: u8)
    requires
        n1 < 16,
        n2 < 16,
        hex_digit_byte(n1) == hex_digit_byte(n2),
    ensures
        n1 == n2,
{
}

pub proof fn lemma_uuid_bytes_injective(u1: Seq<u8>, u2: Seq<u8>)
    requires
        u1.len() == 16,
        u2.len() == 16,
        uuid_bytes(u1) == uuid_bytes(u2),
    ensures
        u1 == u2,
{
    assert forall|i: int| 0 <= i < 16 implies u1[i] == u2[i] by {
        let khi = nib_pos(2 * i);
        let klo = nib_pos(2 * i + 1);
        assert(0 <= khi < 36 && 0 <= klo < 36);
        assert(!uuid_hyphen(khi) && !uuid_hyphen(klo));
        assert(nib_count(khi) == 2 * i && nib_count(klo) == 2 * i + 1);
        assert(uuid_bytes(u1)[khi] == hex_digit_byte(nibble_of(u1, 2 * i)));
        assert(uuid_bytes(u2)[khi] == hex_digit_byte(nibble_of(u2, 2 * i)));
        assert(uuid_bytes(u1)[klo] == hex_digit_byte(nibble_of(u1, 2 * i + 1)));
        assert(uuid_bytes(u2)[klo] == hex_digit_byte(nibble_of(u2, 2 * i + 1)));
        assert(uuid_bytes(u1)[khi] == uuid_bytes(u2)[khi]);
        assert(uuid_bytes(u1)[klo] == uuid_bytes(u2)[klo]);
        assert(u1[i] / 16 < 16 && u2[i] / 16 < 16) by (nonlinear_arith)
            requires
                u1[i] < 256,
                u2[i] < 256,
        ;
        lemma_hex_digit_byte_injective(nibble_of(u1, 2 * i), nibble_of(u2, 2 * i));
        lemma_hex_digit_byte_injective(nibble_of(u1, 2 * i + 1), nibble_of(u2, 2 * i + 1));
        assert(u1[i] / 16 == u2[i] / 16 && u1[i] % 16 == u2[i] % 16);
        assert(u1[i] == u1[i] / 16 * 16 + u1[i] % 16);
        assert(u2[i] == u2[i] / 16 * 16 + u2[i] % 16);
    }
    assert(u1 =~= u2);
}

/// The character position where nibble `j` is written.
pub open spec fn nib_pos(j: int) -> int {
    if j < 8 {
        j
    } else if j < 12 {
        j + 1
    } else if j < 16 {
        j + 2
    } else if j < 20 {
        j + 3
    } else {
        j + 4
    }
}

// ---------------------------------------------------------------------------
// Message encodings
// ---------------------------------------------------------------------------

pub open spec fn obj_open(name: Seq<u8>) -> Seq<u8> {
    seq![123u8, 34u8] + name + seq![34u8, 58u8]
}

pub open spec fn name_authenticate() -> Seq<u8> {
    seq![
        'A' as u8,
        'u' as u8,
        't' as u8,
        'h' as u8,
        'e' as u8,
        'n' as u8,
        't' as u8,
        'i' as u8,
        'c' as u8,
        'a' as u8,
        't' as u8,
        'e' as u8,
    ]
}

pub open spec fn name_hello() -> Seq<u8> {
    seq!['H' as u8, 'e' as u8, 'l' as u8, 'l' as u8, 'o' as u8]
}

pub open spec fn name_accept() -> Seq<u8> {
    seq!['A' as u8, 'c' as u8, 'c' as u8, 'e' as u8, 'p' as u8, 't' as u8]
}

pub open spec fn name_challenge() -> Seq<u8> {
    seq!['C' as u8, 'h' as u8, 'a' as u8, 'l' as u8, 'l' as u8, 'e' as u8, 'n' as u8, 'g' as u8, 'e' as u8]
}

pub open spec fn name_heartbeat() -> Seq<u8> {
    seq![
        'H' as u8,
        'e' as u8,
        'a' as u8,
        'r' as u8,
        't' as u8,
        'b' as u8,
        'e' as u8,
        'a' as u8,
        't' as u8,
    ]
}

pub open spec fn name_connection() -> Seq<u8> {
    seq![
        'C' as u8,
        'o' as u8,
        'n' as u8,
        'n' as u8,
        'e' as u8,
        'c' as u8,
        't' as u8,
        'i' as u8,
        'o' as u8,
        'n' as u8,
    ]
}

pub open spec fn name_error() -> Seq<u8> {
    seq!['E' as u8, 'r' as u8, 'r' as u8, 'o' as u8, 'r' as u8]
}

/// `{"Name":"` for string-valued and identifier-valued variants.
pub open spec fn quoted_open(name: Seq<u8>) -> Seq<u8> {
    obj_open(name) + seq![34u8]
}

/// `"}` closing a quoted payload.
pub open spec fn quoted_close() -> Seq<u8> {
    seq![34u8, 125u8]
}

pub open spec fn spec_encode_client(v: ClientMessageV) -> Seq<u8> {
    match v {
        ClientMessageV::Authenticate(s) => quoted_open(name_authenticate()) + esc_bytes(s)
            + quoted_close(),
        ClientMessageV::Hello(n) => obj_open(name_hello()) + dec_bytes(n as int) + seq![125u8],
        ClientMessageV::Accept(u) => quoted_open(name_accept()) + uuid_bytes(u) + quoted_close(),
    }
}

pub open spec fn spec_encode_server(v: ServerMessageV) -> Seq<u8> {
    match v {
        ServerMessageV::Challenge(u) => quoted_open(name_challenge()) + uuid_bytes(u)
            + quoted_close(),
        ServerMessageV::Hello(n) => obj_open(name_hello()) + dec_bytes(n as int) + seq![125u8],
        ServerMessageV::Heartbeat => seq![34u8] + name_heartbeat() + seq![34u8],
        ServerMessageV::Connection(u) => quoted_open(name_connection()) + uuid_bytes(u)
            + quoted_close(),
        ServerMessageV::Error(s) => quoted_open(name_error()) + esc_bytes(s) + quoted_close(),
    }
}

/// What the decoder yields: the unique message a frame encodes, if any.
pub closed spec fn spec_decode_client(b: Seq<u8>) -> Option<ClientMessageV> {
    if exists|v: ClientMessageV| client_wire_ok(v) && spec_encode_client(v) == b {
        Some(choose|v: ClientMessageV| client_wire_ok(v) && spec_encode_client(v) == b)
    } else {
        None
    }
}

pub closed spec fn spec_decode_server(b: Seq<u8>) -> Option<ServerMessageV> {
    if exists|v: ServerMessageV| server_wire_ok(v) && spec_encode_server(v) == b {
        Some(choose|v: ServerMessageV| server_wire_ok(v) && spec_encode_server(v) == b)
    } else {
        None
    }
}



pub proof fn lemma_spec_decode_client_none(b: Seq<u8>)
    requires
        forall|v: ClientMessageV| client_wire_ok(v) ==> spec_encode_client(v) != b,
    ensures
        spec_decode_client(b) is None,
{
}

pub proof fn lemma_spec_decode_server_none(b: Seq<u8>)
    requires
        forall|v: ServerMessageV| server_wire_ok(v) ==> spec_encode_server(v) != b,
    ensures
        spec_decode_server(b) is None,
{
}

// ---------------------------------------------------------------------------
// Injectivity and the round trip
// ---------------------------------------------------------------------------

/// The first bytes of an encoding pin the variant.
pub proof fn lemma_client_variant_bytes(v: ClientMessageV)
    ensures
        spec_encode_client(v).len() >= 11,
        spec_encode_client(v)[0] == 123,
        match v {
            ClientMessageV::Authenticate(_) => spec_encode_client(v)[2] == 65
                && spec_encode_client(v)[3] == 117,
            ClientMessageV::Hello(_) => spec_encode_client(v)[2] == 72,
            ClientMessageV::Accept(_) => spec_encode_client(v)[2] == 65 && spec_encode_client(
                v,
            )[3] == 99,
        },
{
    match v {
        ClientMessageV::Authenticate(s) => {
            assert(spec_encode_client(v)[2] == quoted_open(name_authenticate())[2]);
            assert(spec_encode_client(v)[3] == quoted_open(name_authenticate())[3]);
        },
        ClientMessageV::Hello(n) => {
            lemma_dec_bytes_props(n as int);
            assert(spec_encode_client(v)[2] == obj_open(name_hello())[2]);
        },
        ClientMessageV::Accept(u) => {
            assert(spec_encode_client(v)[2] == quoted_open(name_accept())[2]);
            assert(spec_encode_client(v)[3] == quoted_open(name_accept())[3]);
        },
    }
}

pub proof fn lemma_server_variant_bytes(v: ServerMessageV)
    ensures
        spec_encode_server(v).len() >= 11,
        match v {
            ServerMessageV::Challenge(_) => spec_encode_server(v)[0] == 123 && spec_encode_server(
                v,
            )[2] == 67 && spec_encode_server(v)[3] == 104,
            ServerMessageV::Hello(_) => spec_encode_server(v)[0] == 123 && spec_encode_server(
                v,
            )[2] == 72,
            ServerMessageV::Heartbeat => spec_encode_server(v)[0] == 34,
            ServerMessageV::Connection(_) => spec_encode_server(v)[0] == 123 && spec_encode_server(
                v,
            )[2] == 67 && spec_encode_server(v)[3] == 111,
            ServerMessageV::Error(_) => spec_encode_server(v)[0] == 123 && spec_encode_server(
                v,
            )[2] == 69,
        },
{
    match v {
        ServerMessageV::Challenge(u) => {
            assert(spec_encode_server(v)[0] == quoted_open(name_challenge())[0]);
            assert(spec_encode_server(v)[2] == quoted_open(name_challenge())[2]);
            assert(spec_encode_server(v)[3] == quoted_open(name_challenge())[3]);
        },
        ServerMessageV::Hello(n) => {
            lemma_dec_bytes_props(n as int);
            assert(spec_encode_server(v)[0] == obj_open(name_hello())[0]);
            assert(spec_encode_server(v)[2] == obj_open(name_hello())[2]);
        },
        ServerMessageV::Heartbeat => {
        },
        ServerMessageV::Connection(u) => {
            assert(spec_encode_server(v)[0] == quoted_open(name_connection())[0]);
            assert(spec_encode_server(v)[2] == quoted_open(name_connection())[2]);
            assert(spec_encode_server(v)[3] == quoted_open(name_connection())[3]);
        },
        ServerMessageV::Error(s) => {
            assert(spec_encode_server(v)[0] == quoted_open(name_error())[0]);
            assert(spec_encode_server(v)[2] == quoted_open(name_error())[2]);
        },
    }
}

/// Two middle parts agree when the whole strings agree and the frames around
/// them do.
proof fn lemma_strip_affixes(p: Seq<u8>, m1: Seq<u8>, m2: Seq<u8>, e: Seq<u8>)
    requires
        p + m1 + e == p + m2 + e,
    ensures
        m1 == m2,
{
    let w1 = p + m1 + e;
    let w2 = p + m2 + e;
    assert(w1.len() == w2.len());
    assert(m1.len() == m2.len());
    assert forall|i: int| 0 <= i < m1.len() implies m1[i] == m2[i] by {
        assert(w1[p.len() + i] == m1[i]);
        assert(w2[p.len() + i] == m2[i]);
    }
    assert(m1 =~= m2);
}

pub proof fn lemma_encode_client_injective(v1: ClientMessageV, v2: ClientMessageV)
    requires
        client_wire_ok(v1),
        client_wire_ok(v2),
        spec_encode_client(v1) == spec_encode_client(v2),
    ensures
        v1 == v2,
{
    lemma_client_variant_bytes(v1);
    lemma_client_variant_bytes(v2);
    match (v1, v2) {
        (ClientMessageV::Authenticate(s1), ClientMessageV::Authenticate(s2)) => {
            lemma_strip_affixes(
                quoted_open(name_authenticate()),
                esc_bytes(s1),
                esc_bytes(s2),
                quoted_close(),
            );
            lemma_esc_bytes_injective(s1, s2);
        },
        (ClientMessageV::Hello(n1), ClientMessageV::Hello(n2)) => {
            lemma_strip_affixes(
                obj_open(name_hello()),
                dec_bytes(n1 as int),
                dec_bytes(n2 as int),
                seq![125u8],
            );
            lemma_dec_bytes_props(n1 as int);
            lemma_dec_bytes_props(n2 as int);
        },
        (ClientMessageV::Accept(u1), ClientMessageV::Accept(u2)) => {
            lemma_strip_affixes(
                quoted_open(name_accept()),
                uuid_bytes(u1),
                uuid_bytes(u2),
                quoted_close(),
            );
            lemma_uuid_bytes_injective(u1, u2);
        },
        _ => {
            assert(false);
        },
    }
}

pub proof fn lemma_encode_server_injective(v1: ServerMessageV, v2: ServerMessageV)
    requires
        server_wire_ok(v1),
        server_wire_ok(v2),
        spec_encode_server(v1) == spec_encode_server(v2),
    ensures
        v1 == v2,
{
    lemma_server_variant_bytes(v1);
    lemma_server_variant_bytes(v2);
    match (v1, v2) {
        (ServerMessageV::Challenge(u1), ServerMessageV::Challenge(u2)) => {
            lemma_strip_affixes(
                quoted_open(name_challenge()),
                uuid_bytes(u1),
                uuid_bytes(u2),
                quoted_close(),
            );
            lemma_uuid_bytes_injective(u1, u2);
        },
        (ServerMessageV::Hello(n1), ServerMessageV::Hello(n2)) => {
            lemma_strip_affixes(
                obj_open(name_hello()),
                dec_bytes(n1 as int),
                dec_bytes(n2 as int),
                seq![125u8],
            );
            lemma_dec_bytes_props(n1 as int);
            lemma_dec_bytes_props(n2 as int);
        },
        (ServerMessageV::Heartbeat, ServerMessageV::Heartbeat) => {
        },
        (ServerMessageV::Connection(u1), ServerMessageV::Connection(u2)) => {
            lemma_strip_affixes(
                quoted_open(name_connection()),
                uuid_bytes(u1),
                uuid_bytes(u2),
                quoted_close(),
            );
            lemma_uuid_bytes_injective(u1, u2);
        },
        (ServerMessageV::Error(s1), ServerMessageV::Error(s2)) => {
            lemma_strip_affixes(
                quoted_open(name_error()),
                esc_bytes(s1),
                esc_bytes(s2),
                quoted_close(),
            );
            lemma_esc_bytes_injective(s1, s2);
        },
        _ => {
            assert(false);
        },
    }
}

/// Decoding inverts encoding: every representable client message is
/// recovered exactly from its own frame.
pub proof fn lemma_client_round_trip(v: ClientMessageV)
    requires
        client_wire_ok(v),
    ensures
        spec_decode_client(spec_encode_client(v)) == Some(v),
{
    let b = spec_encode_client(v);
    assert(exists|w: ClientMessageV| client_wire_ok(w) && spec_encode_client(w) == b);
    let w = choose|w: ClientMessageV| client_wire_ok(w) && spec_encode_client(w) == b;
    lemma_encode_client_injective(w, v);
}

/// Decoding inverts encoding: every representable server message is
/// recovered exactly from its own frame.
pub proof fn lemma_server_round_trip(v: ServerMessageV)
    requires
        server_wire_ok(v),
    ensures
        spec_decode_server(spec_encode_server(v)) == Some(v),
{
    let b = spec_encode_server(v);
    assert(exists|w: ServerMessageV| server_wire_ok(w) && spec_encode_server(w) == b);
    let w = choose|w: ServerMessageV| server_wire_ok(w) && spec_encode_server(w) == b;
    lemma_encode_server_injective(w, v);
}

pub proof fn lemma_run_end_ge(s: Seq<u8>, at: int, k: int)
    requires
        0 <= at <= k <= s.len(),
        forall|j: int| at <= j < k ==> is_digit(#[trigger] s[j]),
    ensures
        run_end(s, at) >= k,
    decreases k - at,
{
    if at < k {
        assert(is_digit(s[at]));
        lemma_run_end_ge(s, at + 1, k);
    } else {
        lemma_run_end_bounds(s, at);
    }
}

pub proof fn lemma_esc_bytes_concat(a: Seq<char>, b: Seq<char>)
    ensures
        esc_bytes(a + b) == esc_bytes(a) + esc_bytes(b),
    decreases a.len(),
{
    if a.len() == 0 {
        assert(a + b =~= b);
        assert(esc_bytes(a) =~= Seq::<u8>::empty());
        assert(esc_bytes(a) + esc_bytes(b) =~= esc_bytes(b));
    } else {
        assert((a + b)[0] == a[0]);
        assert((a + b).len() > 0);
        assert((a + b).drop_first() =~= a.drop_first() + b);
        lemma_esc_bytes_concat(a.drop_first(), b);
        assert(esc_bytes(a + b) =~= esc_char(a[0]) + (esc_bytes(a.drop_first()) + esc_bytes(b)));
        assert(esc_char(a[0]) + (esc_bytes(a.drop_first()) + esc_bytes(b)) =~= (esc_char(a[0])
            + esc_bytes(a.drop_first())) + esc_bytes(b));
        assert(esc_char(a[0]) + esc_bytes(a.drop_first()) =~= esc_bytes(a));
    }
}

pub proof fn lemma_nibble_bound(x: u8)
    ensures
        x / 16 < 16,
        x % 16 < 16,
{
    assert(x / 16 < 16) by (nonlinear_arith)
        requires
            x < 256,
    ;
}

/// A digit buffer written back to front.
pub open spec fn rev_digits(t: Seq<u8>) -> Seq<u8>
    decreases t.len(),
{
    if t.len() == 0 {
        Seq::empty()
    } else {
        seq![t.last()] + rev_digits(t.drop_last())
    }
}

pub proof fn lemma_nib_count_step(k: int)
    requires
        0 <= k < 36,
    ensures
        uuid_hyphen(k) ==> nib_count(k + 1) == nib_count(k),
        !uuid_hyphen(k) ==> nib_count(k + 1) == nib_count(k) + 1,
        0 <= nib_count(k),
        !uuid_hyphen(k) ==> nib_count(k) < 32,
{
}

pub proof fn lemma_scan_nul_ge(s: Seq<u8>, k: int)
    requires
        0 <= k <= s.len(),
        forall|j: int| 0 <= j < k ==> #[trigger] s[j] != 0,
    ensures
        scan_nul(s, 0) >= k,
{
    lemma_scan_nul_ge_from(s, 0, k);
}

proof fn lemma_scan_nul_ge_from(s: Seq<u8>, at: int, k: int)
    requires
        0 <= at <= k <= s.len(),
        forall|j: int| at <= j < k ==> #[trigger] s[j] != 0,
    ensures
        scan_nul(s, at) >= k,
    decreases k - at,
{
    if at < k {
        assert(s[at] != 0);
        lemma_scan_nul_ge_from(s, at + 1, k);
    } else {
        lemma_scan_nul_bounds(s, at);
    }
}

pub proof fn lemma_scan_nul_is(s: Seq<u8>, e: int)
    requires
        0 <= e <= s.len(),
        forall|j: int| 0 <= j < e ==> #[trigger] s[j] != 0,
        e == s.len() || s[e] == 0,
    ensures
        scan_nul(s, 0) == e,
{
    lemma_scan_nul_is_from(s, 0, e);
}

proof fn lemma_scan_nul_is_from(s: Seq<u8>, at: int, e: int)
    requires
        0 <= at <= e <= s.len(),
        forall|j: int| at <= j < e ==> #[trigger] s[j] != 0,
        e == s.len() || s[e] == 0,
    ensures
        scan_nul(s, at) == e,
    decreases e - at,
{
    if at < e {
        assert(s[at] != 0);
        lemma_scan_nul_is_from(s, at + 1, e);
    }
}

// ---------------------------------------------------------------------------
// Frame sizes and contents
// ---------------------------------------------------------------------------

pub proof fn lemma_esc_bytes_len(s: Seq<char>)
    ensures
        s.len() <= esc_bytes(s).len() <= 2 * s.len(),
    decreases s.len(),
{
    if s.len() > 0 {
        lemma_esc_bytes_len(s.drop_first());
    }
}

pub proof fn lemma_dec_bytes_len(n: int)
    requires
        0 <= n,
    ensures
        n < 10 ==> dec_bytes(n).len() == 1,
        n < 100 ==> dec_bytes(n).len() <= 2,
        n < 1000 ==> dec_bytes(n).len() <= 3,
        n < 10000 ==> dec_bytes(n).len() <= 4,
        n < 100000 ==> dec_bytes(n).len() <= 5,
        dec_bytes(n).len() >= 1,
    decreases n,
{
    if n >= 10 {
        lemma_dec_bytes_len(n / 10);
    }
}

pub proof fn lemma_uuid_bytes_range(u: Seq<u8>)
    requires
        u.len() == 16,
    ensures
        uuid_bytes(u).len() == 36,
        forall|k: int| 0 <= k < 36 ==> 45 <= #[trigger] uuid_bytes(u)[k] <= 102,
{
    assert forall|k: int| 0 <= k < 36 implies 45 <= #[trigger] uuid_bytes(u)[k] <= 102 by {
        if !uuid_hyphen(k) {
            let j = nib_count(k);
            assert(0 <= j < 32);
            lemma_nibble_bound(u[j / 2]);
            assert(nibble_of(u, j) < 16);
        }
    }
}

/// A frame around an identifier or a short string stays within the frame
/// cap, so the peer's reader will accept every message this side sends.
pub proof fn lemma_client_encode_cap(v: ClientMessageV)
    requires
        client_wire_ok(v),
        v matches ClientMessageV::Authenticate(s) ==> s.len() <= 118,
    ensures
        spec_encode_client(v).len() <= 256,
{
    match v {
        ClientMessageV::Authenticate(s) => {
            lemma_esc_bytes_len(s);
        },
        ClientMessageV::Hello(n) => {
            lemma_dec_bytes_len(n as int);
        },
        ClientMessageV::Accept(u) => {
        },
    }
}

pub proof fn lemma_server_encode_cap(v: ServerMessageV)
    requires
        server_wire_ok(v),
        v matches ServerMessageV::Error(s) ==> s.len() <= 118,
    ensures
        spec_encode_server(v).len() <= 256,
{
    match v {
        ServerMessageV::Error(s) => {
            lemma_esc_bytes_len(s);
        },
        ServerMessageV::Hello(n) => {
            lemma_dec_bytes_len(n as int);
        },
        _ => {
        },
    }
}

/// No encoded message contains a NUL byte, so each message fits one frame.
pub proof fn lemma_client_encode_no_nul(v: ClientMessageV)
    requires
        client_wire_ok(v),
    ensures
        forall|i: int|
            0 <= i < spec_encode_client(v).len() ==> #[trigger] spec_encode_client(v)[i] != 0,
{
    let e = spec_encode_client(v);
    match v {
        ClientMessageV::Authenticate(s) => {
            lemma_esc_bytes_range(s);
            let p = quoted_open(name_authenticate());
            assert forall|i: int| 0 <= i < e.len() implies #[trigger] e[i] != 0 by {
                if i < p.len() {
                    assert(e[i] == p[i]);
                } else if i < p.len() + esc_bytes(s).len() {
                    assert(e[i] == esc_bytes(s)[i - p.len()]);
                } else {
                    assert(e[i] == quoted_close()[i - p.len() - esc_bytes(s).len()]);
                }
            }
        },
        ClientMessageV::Hello(n) => {
            lemma_dec_bytes_props(n as int);
            let p = obj_open(name_hello());
            let d = dec_bytes(n as int);
            assert forall|i: int| 0 <= i < e.len() implies #[trigger] e[i] != 0 by {
                if i < p.len() {
                    assert(e[i] == p[i]);
                } else if i < p.len() + d.len() {
                    assert(e[i] == d[i - p.len()]);
                    assert(is_digit(d[i - p.len()]));
                } else {
                    assert(e[i] == 125);
                }
            }
        },
        ClientMessageV::Accept(u) => {
            lemma_uuid_bytes_range(u);
            let p = quoted_open(name_accept());
            assert forall|i: int| 0 <= i < e.len() implies #[trigger] e[i] != 0 by {
                if i < p.len() {
                    assert(e[i] == p[i]);
                } else if i < p.len() + 36 {
                    assert(e[i] == uuid_bytes(u)[i - p.len()]);
                } else {
                    assert(e[i] == quoted_close()[i - p.len() - 36]);
                }
            }
        },
    }
}

pub proof fn lemma_server_encode_no_nul(v: ServerMessageV)
    requires
        server_wire_ok(v),
    ensures
        forall|i: int|
            0 <= i < spec_encode_server(v).len() ==> #[trigger] spec_encode_server(v)[i] != 0,
{
    let e = spec_encode_server(v);
    match v {
        ServerMessageV::Challenge(u) => {
            lemma_uuid_bytes_range(u);
            let p = quoted_open(name_challenge());
            assert forall|i: int| 0 <= i < e.len() implies #[trigger] e[i] != 0 by {
                if i < p.len() {
                    assert(e[i] == p[i]);
                } else if i < p.len() + 36 {
                    assert(e[i] == uuid_bytes(u)[i - p.len()]);
                } else {
                    assert(e[i] == quoted_close()[i - p.len() - 36]);
                }
            }
        },
        ServerMessageV::Hello(n) => {
            lemma_dec_bytes_props(n as int);
            let p = obj_open(name_hello());
            let d = dec_bytes(n as int);
            assert forall|i: int| 0 <= i < e.len() implies #[trigger] e[i] != 0 by {
                if i < p.len() {
                    assert(e[i] == p[i]);
                } else if i < p.len() + d.len() {
                    assert(e[i] == d[i - p.len()]);
                    assert(is_digit(d[i - p.len()]));
                } else {
                    assert(e[i] == 125);
                }
            }
        },
        ServerMessageV::Heartbeat => {
        },
        ServerMessageV::Connection(u) => {
            lemma_uuid_bytes_range(u);
            let p = quoted_open(name_connection());
            assert forall|i: int| 0 <= i < e.len() implies #[trigger] e[i] != 0 by {
                if i < p.len() {
                    assert(e[i] == p[i]);
                } else if i < p.len() + 36 {
                    assert(e[i] == uuid_bytes(u)[i - p.len()]);
                } else {
                    assert(e[i] == quoted_close()[i - p.len() - 36]);
                }
            }
        },
        ServerMessageV::Error(s) => {
            lemma_esc_bytes_range(s);
            let p = quoted_open(name_error());
            assert forall|i: int| 0 <= i < e.len() implies #[trigger] e[i] != 0 by {
                if i < p.len() {
                    assert(e[i] == p[i]);
                } else if i < p.len() + esc_bytes(s).len() {
                    assert(e[i] == esc_bytes(s)[i - p.len()]);
                } else {
                    assert(e[i] == quoted_close()[i - p.len() - esc_bytes(s).len()]);
                }
            }
        },
    }
}

/// A sent frame is recovered whole by the receiving side: the terminator
/// appended to an encoded message is the first NUL of the frame, so the
/// reader splits off exactly the message that was sent.
pub proof fn lemma_client_frame_delivery(v: ClientMessageV)
    requires
        client_wire_ok(v),
    ensures
        ({
            let e = spec_encode_client(v);
            let f = e + seq![0u8];
            scan_nul(f, 0) == e.len() && f.take(e.len() as int) == e
        }),
{
    lemma_client_encode_no_nul(v);
    let e = spec_encode_client(v);
    let f = e + seq![0u8];
    assert forall|j: int| 0 <= j < e.len() implies #[trigger] f[j] != 0 by {
        assert(f[j] == e[j]);
    }
    assert(f[e.len() as int] == 0);
    lemma_scan_nul_is(f, e.len() as int);
    assert(f.take(e.len() as int) =~= e);
}

pub proof fn lemma_server_frame_delivery(v: ServerMessageV)
    requires
        server_wire_ok(v),
    ensures
        ({
            let e = spec_encode_server(v);
            let f = e + seq![0u8];
            scan_nul(f, 0) == e.len() && f.take(e.len() as int) == e
        }),
{
    lemma_server_encode_no_nul(v);
    let e = spec_encode_server(v);
    let f = e + seq![0u8];
    assert forall|j: int| 0 <= j < e.len() implies #[trigger] f[j] != 0 by {
        assert(f[j] == e[j]);
    }
    assert(f[e.len() as int] == 0);
    lemma_scan_nul_is(f, e.len() as int);
    assert(f.take(e.len() as int) =~= e);
}

} // verus!
