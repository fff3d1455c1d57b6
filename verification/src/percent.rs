//! Byte-level percent-encoding and lenient percent-decoding, parameterized
//! by a context-specific encode set.
//!
//! `decode` replaces every well-formed `%XX` triplet by its byte and passes
//! malformed escapes through literally; it never fails. `encode` emits each
//! byte either literally or as an uppercase-hex `%XX` triplet, according to
//! the chosen encode set. Every encode set contains the C0 controls and all
//! non-ASCII bytes, so encoded output is always ASCII.

use vstd::prelude::*;

verus! {

/// The encode sets used by the URL and form serializers.
#[derive(Clone, Copy, PartialEq, Eq, Debug)]
pub enum EncodeSet {
    /// C0 controls, DEL and non-ASCII only (used for fragments and opaque hosts).
    Simple,
    /// `Simple` plus space, `"`, `#`, `<`, `>` (used for queries).
    Query,
    /// `Query` plus `` ` ``, `?`, `{`, `}` (used for path segments).
    Path,
    /// `Path` plus `/`, `:`, `;`, `=`, `@`, `[`, `\`, `]`, `^`, `|`
    /// (used for usernames and passwords).
    UserInfo,
    /// Everything except ASCII alphanumerics and `-`, `_`, `.`, `*`
    /// (used by the form-urlencoded serializer, which handles space itself).
    Form,
}

pub open spec fn spec_is_hex_digit(b: u8) -> bool {
    (0x30 <= b && b <= 0x39)  // '0'..='9'
    || (0x41 <= b && b <= 0x46)  // 'A'..='F'
    || (0x61 <= b && b <= 0x66)  // 'a'..='f'
}

/// Numeric value of an ASCII hex digit.
pub open spec fn spec_hex_value(b: u8) -> u8
    recommends
        spec_is_hex_digit(b),
{
    if 0x30 <= b && b <= 0x39 {
        (b - 0x30) as u8
    } else if 0x41 <= b && b <= 0x46 {
        (b - 0x41 + 10) as u8
    } else {
        (b - 0x61 + 10) as u8
    }
}

/// Uppercase ASCII hex digit for a value below 16.
pub open spec fn spec_hex_digit(v: u8) -> u8
    recommends
        v < 16,
{
    if v < 10 {
        (0x30 + v) as u8
    } else {
        (0x41 + v - 10) as u8
    }
}

/// Whether `b` must be percent-escaped in the given context.
pub open spec fn in_encode_set(set: EncodeSet, b: u8) -> bool {
    let simple = b < 0x20 || b > 0x7e;
    let query = simple || b == 0x20 || b == 0x22 || b == 0x23 || b == 0x3c || b == 0x3e;
    let path = query || b == 0x60 || b == 0x3f || b == 0x7b || b == 0x7d;
    let userinfo = path || b == 0x2f || b == 0x3a || b == 0x3b || b == 0x3d || b == 0x40
        || b == 0x5b || b == 0x5c || b == 0x5d || b == 0x5e || b == 0x7c;
    match set {
        EncodeSet::Simple => simple,
        EncodeSet::Query => query,
        EncodeSet::Path => path,
        EncodeSet::UserInfo => userinfo,
        EncodeSet::Form => !((0x30 <= b && b <= 0x39) || (0x61 <= b && b <= 0x7a)
            || (0x41 <= b && b <= 0x5a) || b == 0x2d || b == 0x5f || b == 0x2e || b == 0x2a),
    }
}

/// What `encode` emits for one byte.
pub open spec fn spec_encode_byte(set: EncodeSet, b: u8) -> Seq<u8> {
    if in_encode_set(set, b) {
        seq![0x25u8, spec_hex_digit(b / 16), spec_hex_digit(b % 16)]
    } else {
        seq![b]
    }
}

/// Percent-encoding of a whole byte string.
pub open spec fn spec_encode(s: Seq<u8>, set: EncodeSet) -> Seq<u8>
    decreases s.len(),
{
    if s.len() == 0 {
        Seq::empty()
    } else {
        spec_encode_byte(set, s[0]) + spec_encode(s.skip(1), set)
    }
}

/// Lenient percent-decoding: a well-formed `%XX` triplet becomes one byte,
/// anything else is copied through.
pub open spec fn spec_decode(s: Seq<u8>) -> Seq<u8>
    decreases s.len(),
{
    if s.len() == 0 {
        Seq::empty()
    } else if s[0] == 0x25 && s.len() >= 3 && spec_is_hex_digit(s[1]) && spec_is_hex_digit(s[2]) {
        seq![(spec_hex_value(s[1]) * 16 + spec_hex_value(s[2])) as u8] + spec_decode(s.skip(3))
    } else {
        seq![s[0]] + spec_decode(s.skip(1))
    }
}

pub fn is_hex_digit(b: u8) -> (r: bool)
    ensures
        r == spec_is_hex_digit(b),
{
    (0x30 <= b && b <= 0x39) || (0x41 <= b && b <= 0x46) || (0x61 <= b && b <= 0x66)
}

pub fn hex_value(b: u8) -> (r: u8)
    requires
        spec_is_hex_digit(b),
    ensures
        r == spec_hex_value(b),
        r < 16,
{
    if 0x30 <= b && b <= 0x39 {
        b - 0x30
    } else if 0x41 <= b && b <= 0x46 {
        b - 0x41 + 10
    } else {
        b - 0x61 + 10
    }
}

pub fn hex_digit(v: u8) -> (r: u8)
    requires
        v < 16,
    ensures
        r == spec_hex_digit(v),
{
    if v < 10 {
        0x30 + v
    } else {
        0x41 + v - 10
    }
}

fn byte_in_encode_set(set: EncodeSet, b: u8) -> (r: bool)
    ensures
        r == in_encode_set(set, b),
{
    let simple = b < 0x20 || b > 0x7e;
    let query = simple || b == 0x20 || b == 0x22 || b == 0x23 || b == 0x3c || b == 0x3e;
    let path = query || b == 0x60 || b == 0x3f || b == 0x7b || b == 0x7d;
    match set {
        EncodeSet::Simple => simple,
        EncodeSet::Query => query,
        EncodeSet::Path => path,
        EncodeSet::UserInfo => path || b == 0x2f || b == 0x3a || b == 0x3b || b == 0x3d
            || b == 0x40 || b == 0x5b || b == 0x5c || b == 0x5d || b == 0x5e || b == 0x7c,
        EncodeSet::Form => !((0x30 <= b && b <= 0x39) || (0x61 <= b && b <= 0x7a)
            || (0x41 <= b && b <= 0x5a) || b == 0x2d || b == 0x5f || b == 0x2e || b == 0x2a),
    }
}

/// Append the encoding of one byte to `out`.
pub fn encode_byte_to(b: u8, set: EncodeSet, out: &mut Vec<u8>)
    ensures
        final(out)@ == old(out)@ + spec_encode_byte(set, b),
{
    if byte_in_encode_set(set, b) {
        out.push(0x25);
        out.push(hex_digit(b / 16));
        out.push(hex_digit(b % 16));
    } else {
        out.push(b);
    }
    assert(out@ =~= old(out)@ + spec_encode_byte(set, b));
}

/// Percent-encode a byte string for the given context.
pub fn encode(input: &[u8], set: EncodeSet) -> (out: Vec<u8>)
    ensures
        out@ == spec_encode(input@, set),
{
    let mut out: Vec<u8> = Vec::new();
    let mut i: usize = 0;
    proof {
        assert(input@.skip(0) =~= input@);
    }
    while i < input.len()
        invariant
            i <= input.len(),
            spec_encode(input@, set) == out@ + spec_encode(input@.skip(i as int), set),
        decreases input.len() - i,
    {
        let ghost pre = out@;
        let ghost rest = input@.skip(i as int);
        encode_byte_to(input[i], set, &mut out);
        proof {
            assert(rest[0] == input@[i as int]);
            assert(rest.skip(1) =~= input@.skip(i as int + 1));
            assert(pre + spec_encode(rest, set) == out@ + spec_encode(rest.skip(1), set));
        }
        i += 1;
    }
    proof {
        assert(input@.skip(input@.len() as int) =~= Seq::<u8>::empty());
    }
    out
}

/// Leniently percent-decode a byte string; malformed escapes pass through.
pub fn decode(input: &[u8]) -> (out: Vec<u8>)
    ensures
        out@ == spec_decode(input@),
{
    let mut out: Vec<u8> = Vec::new();
    let mut i: usize = 0;
    proof {
        assert(input@.skip(0) =~= input@);
    }
    while i < input.len()
        invariant
            i <= input.len(),
            spec_decode(input@) == out@ + spec_decode(input@.skip(i as int)),
        decreases input.len() - i,
    {
        let ghost rest = input@.skip(i as int);
        if input[i] == 0x25 && input.len() - i > 2 && is_hex_digit(input[i + 1])
            && is_hex_digit(input[i + 2]) {
            let b = hex_value(input[i + 1]) * 16 + hex_value(input[i + 2]);
            out.push(b);
            proof {
                assert(rest.len() >= 3 && rest[0] == 0x25 && rest[1] == input@[i as int + 1]
                    && rest[2] == input@[i as int + 2]);
                assert(rest.skip(3) =~= input@.skip(i as int + 3));
            }
            i += 3;
        } else {
            out.push(input[i]);
            proof {
                assert(rest[0] == input@[i as int]);
                assert(!(rest[0] == 0x25 && rest.len() >= 3 && spec_is_hex_digit(rest[1])
                    && spec_is_hex_digit(rest[2])));
                assert(rest.skip(1) =~= input@.skip(i as int + 1));
            }
            i += 1;
        }
    }
    proof {
        assert(input@.skip(input@.len() as int) =~= Seq::<u8>::empty());
    }
    out
}

/// Encoded output is ASCII: every byte an encode set passes through is
/// printable ASCII, and escapes are `%` plus two hex digits.
pub proof fn lemma_encode_ascii(s: Seq<u8>, set: EncodeSet)
    ensures
        forall|i: int| 0 <= i < spec_encode(s, set).len() ==> spec_encode(s, set)[i] < 0x80,
    decreases s.len(),
{
    if s.len() > 0 {
        lemma_encode_ascii(s.skip(1), set);
        let hd = spec_encode_byte(set, s[0]);
        let tl = spec_encode(s.skip(1), set);
        assert forall|i: int| 0 <= i < hd.len() implies hd[i] < 0x80 by {
            if !in_encode_set(set, s[0]) {
                assert(s[0] <= 0x7e);
            }
        }
        assert forall|i: int| 0 <= i < spec_encode(s, set).len()
            implies spec_encode(s, set)[i] < 0x80 by {
            assert(spec_encode(s, set) == hd + tl);
            if i < hd.len() {
                assert(spec_encode(s, set)[i] == hd[i]);
            } else {
                assert(spec_encode(s, set)[i] == tl[i - hd.len()]);
            }
        }
    }
}

/// Decoding inverts encoding: for a byte string free of `%` — the one byte
/// whose escape a lenient decode would fold back — percent-decoding the
/// percent-encoding returns the input, whatever the encode set.
pub proof fn lemma_decode_inverts_encode(s: Seq<u8>, set: EncodeSet)
    requires
        forall|i: int| 0 <= i < s.len() ==> s[i] != 0x25,
    ensures
        spec_decode(spec_encode(s, set)) == s,
    decreases s.len(),
{
    if s.len() == 0 {
        assert(spec_decode(spec_encode(s, set)) =~= s);
    } else {
        assert(forall|i: int| 0 <= i < s.skip(1).len() ==> s.skip(1)[i] == s[i + 1]);
        lemma_decode_inverts_encode(s.skip(1), set);
        let b = s[0];
        let hd = spec_encode_byte(set, b);
        let tl = spec_encode(s.skip(1), set);
        assert(spec_encode(s, set) == hd + tl);
        let e = hd + tl;
        if in_encode_set(set, b) {
            let h1 = spec_hex_digit(b / 16);
            let h2 = spec_hex_digit(b % 16);
            assert(e.len() >= 3 && e[0] == 0x25 && e[1] == h1 && e[2] == h2);
            assert(spec_is_hex_digit(h1) && spec_is_hex_digit(h2));
            assert(spec_hex_value(h1) == b / 16 && spec_hex_value(h2) == b % 16);
            assert(e.skip(3) =~= tl);
            assert((spec_hex_value(e[1]) * 16 + spec_hex_value(e[2])) as u8 == b);
            assert(spec_decode(e) =~= s);
        } else {
            assert(e[0] == b && b != 0x25);
            assert(e.skip(1) =~= tl);
            assert(spec_decode(e) =~= s);
        }
    }
}

/// Encoding never introduces a `/`: escapes are `%` and hex digits, and
/// pass-through bytes come from the input.
pub proof fn lemma_encode_no_slash(s: Seq<u8>, set: EncodeSet)
    requires
        forall|i: int| 0 <= i < s.len() ==> s[i] != 0x2f,
    ensures
        forall|i: int| 0 <= i < spec_encode(s, set).len() ==> spec_encode(s, set)[i] != 0x2f,
    decreases s.len(),
{
    if s.len() > 0 {
        lemma_encode_no_slash(s.skip(1), set);
        let hd = spec_encode_byte(set, s[0]);
        let tl = spec_encode(s.skip(1), set);
        assert(forall|i: int| 0 <= i < hd.len() ==> hd[i] != 0x2f);
        assert forall|i: int| 0 <= i < spec_encode(s, set).len()
            implies spec_encode(s, set)[i] != 0x2f by {
            assert(spec_encode(s, set) == hd + tl);
            if i < hd.len() {
                assert(spec_encode(s, set)[i] == hd[i]);
            } else {
                assert(spec_encode(s, set)[i] == tl[i - hd.len()]);
            }
        }
    }
}

} // verus!
