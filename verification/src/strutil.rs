//! Conversions between byte strings and text.
//!
//! The URL components this crate produces are ASCII byte strings (every
//! encode set escapes non-ASCII bytes), so most conversions to `String` go
//! through [`ascii_to_string`], whose behaviour is fully captured by
//! [`ascii_view`]. Decoding arbitrary bytes as text with replacement
//! characters is delegated to the standard library behind [`utf8_lossy`].

use vstd::prelude::*;
use vstd::string::StrSliceExecFns;
use vstd::utf8::*;

verus! {

/// The characters of an ASCII byte string, byte for byte.
pub open spec fn ascii_view(s: Seq<u8>) -> Seq<char> {
    Seq::new(s.len(), |i: int| (s[i] as u32) as char)
}

pub open spec fn all_ascii(s: Seq<u8>) -> bool {
    forall|i: int| 0 <= i < s.len() ==> s[i] < 0x80
}

/// An ASCII byte string is valid UTF-8, decodes to its bytes read as
/// characters, and that character sequence encodes back to the same bytes.
pub proof fn lemma_ascii_utf8(s: Seq<u8>)
    requires
        all_ascii(s),
    ensures
        valid_utf8(s),
        decode_utf8(s) == ascii_view(s),
        is_ascii_chars(ascii_view(s)),
        encode_utf8(ascii_view(s)) == s,
    decreases s.len(),
{
    assert forall|i: int| 0 <= i < s.len() implies '\0' <= #[trigger] ascii_view(s)[i] <= '\u{7f}'
        && ascii_view(s)[i] as u8 == s[i] by {
        let b = s[i];
        assert(b < 0x80);
        let c = (b as u32) as char;
        assert(c as u32 == b as u32);
        assert('\0' <= c <= '\u{7f}');
        assert(c as u8 == b);
    }
    if s.len() > 0 {
        let b = s[0];
        assert(is_leading_byte_width_1(b));
        assert(valid_first_scalar(s));
        assert(decode_first_scalar(s) == (b & 0x7f) as u32);
        assert((b & 0x7f) == b) by (bit_vector)
            requires
                b < 0x80,
        ;
        assert(length_of_first_scalar(s) == 1);
        let rest = pop_first_scalar(s);
        assert(rest =~= s.skip(1));
        lemma_ascii_utf8(rest);
        assert(decode_utf8(s) =~= ascii_view(s));
    } else {
        assert(decode_utf8(s) =~= ascii_view(s));
    }
    is_ascii_chars_encode_utf8(ascii_view(s));
    assert(encode_utf8(ascii_view(s)) =~= s);
}

/// What `String::from_utf8_lossy` yields: the bytes decoded as UTF-8, with
/// each invalid sequence replaced by U+FFFD.
pub uninterp spec fn utf8_lossy(bytes: Seq<u8>) -> Seq<char>;

/// Relies on std's `String::from_utf8_lossy`: the result depends on the
/// bytes alone, and valid UTF-8 input is decoded unchanged.
#[verifier::external_body]
pub fn utf8_lossy_string(bytes: &[u8]) -> (r: String)
    ensures
        r@ == utf8_lossy(bytes@),
        valid_utf8(bytes@) ==> r@ == decode_utf8(bytes@),
{
    String::from_utf8_lossy(bytes).into_owned()
}

/// Relies on std's `str::from_utf8`: it succeeds exactly on the valid
/// UTF-8 byte strings.
#[verifier::external_body]
pub fn is_valid_utf8(bytes: &[u8]) -> (r: bool)
    ensures
        r == valid_utf8(bytes@),
{
    core::str::from_utf8(bytes).is_ok()
}

/// Turn an ASCII byte string into text, one character per byte.
pub fn ascii_to_string(bytes: &[u8]) -> (r: String)
    requires
        all_ascii(bytes@),
    ensures
        r@ == ascii_view(bytes@),
{
    proof {
        lemma_ascii_utf8(bytes@);
    }
    utf8_lossy_string(bytes)
}

/// Index of the first occurrence of `b`, or -1.
pub open spec fn find_byte(s: Seq<u8>, b: u8) -> int
    decreases s.len(),
{
    if s.len() == 0 {
        -1
    } else if s[0] == b {
        0
    } else {
        let r = find_byte(s.skip(1), b);
        if r < 0 {
            -1
        } else {
            r + 1
        }
    }
}

pub proof fn lemma_find_byte_none(s: Seq<u8>, b: u8)
    requires
        forall|k: int| 0 <= k < s.len() ==> s[k] != b,
    ensures
        find_byte(s, b) == -1,
    decreases s.len(),
{
    if s.len() > 0 {
        assert(forall|k: int| 0 <= k < s.skip(1).len() ==> s.skip(1)[k] == s[k + 1]);
        lemma_find_byte_none(s.skip(1), b);
    }
}

pub proof fn lemma_find_byte_at(s: Seq<u8>, b: u8, j: int)
    requires
        0 <= j < s.len(),
        s[j] == b,
        forall|k: int| 0 <= k < j ==> s[k] != b,
    ensures
        find_byte(s, b) == j,
    decreases s.len(),
{
    if j > 0 {
        assert(forall|k: int| 0 <= k < s.skip(1).len() ==> s.skip(1)[k] == s[k + 1]);
        lemma_find_byte_at(s.skip(1), b, j - 1);
    }
}

/// The input split on `sep`: separators vanish, empty pieces stay.
pub open spec fn split_bytes(s: Seq<u8>, sep: u8) -> Seq<Seq<u8>>
    decreases s.len(),
{
    let i = find_byte(s, sep);
    if 0 <= i < s.len() {
        seq![s.take(i)] + split_bytes(s.skip(i + 1), sep)
    } else {
        seq![s]
    }
}

/// Split a byte string on a separator.
pub fn split_on(s: &[u8], sep: u8) -> (r: Vec<Vec<u8>>)
    ensures
        r@.map_values(|p: Vec<u8>| p@) == split_bytes(s@, sep),
        forall|i: int, k: int|
            0 <= i < r@.len() && 0 <= k < r@[i]@.len() ==> #[trigger] r@[i]@[k] != sep,
{
    let n = s.len();
    let mut out: Vec<Vec<u8>> = Vec::new();
    let mut pos: usize = 0;
    proof {
        assert(s@.skip(0) =~= s@);
        assert(out@.map_values(|p: Vec<u8>| p@) =~= Seq::<Seq<u8>>::empty());
    }
    loop
        invariant
            pos <= n == s@.len(),
            split_bytes(s@, sep) == out@.map_values(|p: Vec<u8>| p@) + split_bytes(
                s@.skip(pos as int),
                sep,
            ),
            forall|i: int, k: int|
                0 <= i < out@.len() && 0 <= k < out@[i]@.len() ==> #[trigger] out@[i]@[k] != sep,
        decreases n - pos,
    {
        let ghost rest = s@.skip(pos as int);
        let ghost pre = out@.map_values(|p: Vec<u8>| p@);
        let mut j = pos;
        while j < n && s[j] != sep
            invariant
                pos <= j <= n == s@.len(),
                forall|k: int| pos <= k < j ==> s@[k] != sep,
            decreases n - j,
        {
            j += 1;
        }
        let piece = sub_bytes(s, pos, j);
        out.push(piece);
        proof {
            assert(forall|k: int| 0 <= k < rest.len() ==> rest[k] == s@[pos + k]);
            if j < n {
                lemma_find_byte_at(rest, sep, j - pos as int);
                assert(rest.take(j - pos as int) =~= s@.subrange(pos as int, j as int));
                assert(rest.skip(j - pos as int + 1) =~= s@.skip(j as int + 1));
            } else {
                lemma_find_byte_none(rest, sep);
                assert(rest =~= s@.subrange(pos as int, j as int));
            }
            assert(out@.map_values(|p: Vec<u8>| p@) =~= pre + seq![s@.subrange(pos as int, j as int)]);
        }
        if j == n {
            proof {
                assert(split_bytes(rest, sep) =~= seq![rest]);
            }
            return out;
        }
        pos = j + 1;
    }
}

/// The characters of a string, one by one.
pub fn chars_of(s: &str) -> (r: Vec<char>)
    ensures
        r@ == s@,
{
    let n = s.unicode_len();
    let mut out: Vec<char> = Vec::new();
    let mut i: usize = 0;
    while i < n
        invariant
            i <= n == s@.len(),
            out@.len() == i,
            forall|j: int| 0 <= j < i ==> out@[j] == s@[j],
        decreases n - i,
    {
        out.push(s.get_char(i));
        i += 1;
    }
    proof {
        assert(out@ =~= s@);
    }
    out
}

/// Relies on std's `FromIterator<char> for String`: collecting characters
/// builds the string of exactly those characters.
#[verifier::external_body]
pub fn string_from_chars(v: &Vec<char>) -> (r: String)
    ensures
        r@ == v@,
{
    v.iter().collect()
}

/// Compare two byte strings.
pub fn bytes_eq(a: &[u8], b: &[u8]) -> (r: bool)
    ensures
        r == (a@ == b@),
{
    if a.len() != b.len() {
        proof {
            assert(a@.len() != b@.len());
        }
        return false;
    }
    let mut i: usize = 0;
    while i < a.len()
        invariant
            i <= a.len(),
            a@.len() == b@.len(),
            forall|j: int| 0 <= j < i ==> a@[j] == b@[j],
        decreases a.len() - i,
    {
        if a[i] != b[i] {
            return false;
        }
        i += 1;
    }
    proof {
        assert(a@ =~= b@);
    }
    true
}

/// Decimal digits of `n`, most significant first, no leading zeros.
pub open spec fn dec_bytes(n: int) -> Seq<u8>
    decreases n,
{
    if n < 10 {
        seq![(0x30 + if n < 0 { 0 } else { n }) as u8]
    } else {
        dec_bytes(n / 10) + seq![(0x30 + n % 10) as u8]
    }
}

/// Lowercase hex digits of `n`, most significant first, no leading zeros.
pub open spec fn hex_bytes(n: int) -> Seq<u8>
    decreases n,
{
    let d = if n < 0 { 0 } else { n % 16 };
    let digit = if d < 10 { (0x30 + d) as u8 } else { (0x61 + d - 10) as u8 };
    if n < 16 {
        seq![digit]
    } else {
        hex_bytes(n / 16) + seq![digit]
    }
}

pub proof fn lemma_dec_bytes_ascii(n: int)
    ensures
        all_ascii(dec_bytes(n)),
    decreases n,
{
    if n >= 10 {
        lemma_dec_bytes_ascii(n / 10);
        let hd = dec_bytes(n / 10);
        assert forall|i: int| 0 <= i < dec_bytes(n).len() implies dec_bytes(n)[i] < 0x80 by {
            if i < hd.len() {
                assert(dec_bytes(n)[i] == hd[i]);
            } else {
                assert(dec_bytes(n)[i] == (0x30 + n % 10) as u8);
            }
        }
    }
}

pub proof fn lemma_hex_bytes_ascii(n: int)
    ensures
        all_ascii(hex_bytes(n)),
    decreases n,
{
    if n >= 16 {
        lemma_hex_bytes_ascii(n / 16);
        let hd = hex_bytes(n / 16);
        assert forall|i: int| 0 <= i < hex_bytes(n).len() implies hex_bytes(n)[i] < 0x80 by {
            if i < hd.len() {
                assert(hex_bytes(n)[i] == hd[i]);
            }
        }
    }
}

/// Append the decimal digits of `n`.
pub fn push_dec(n: u32, out: &mut Vec<u8>)
    ensures
        final(out)@ == old(out)@ + dec_bytes(n as int),
    decreases n,
{
    if n < 10 {
        out.push(0x30 + n as u8);
        assert(out@ =~= old(out)@ + dec_bytes(n as int));
    } else {
        push_dec(n / 10, out);
        out.push(0x30 + (n % 10) as u8);
        assert(out@ =~= old(out)@ + dec_bytes(n as int));
    }
}

/// Append the lowercase hex digits of `n`.
pub fn push_hex(n: u16, out: &mut Vec<u8>)
    ensures
        final(out)@ == old(out)@ + hex_bytes(n as int),
    decreases n,
{
    let d = (n % 16) as u8;
    let digit: u8 = if d < 10 {
        0x30 + d
    } else {
        0x61 + d - 10
    };
    if n < 16 {
        out.push(digit);
        assert(out@ =~= old(out)@ + hex_bytes(n as int));
    } else {
        push_hex(n / 16, out);
        out.push(digit);
        assert(out@ =~= old(out)@ + hex_bytes(n as int));
    }
}

/// Copy of `s[from..to]`.
pub fn sub_bytes(s: &[u8], from: usize, to: usize) -> (out: Vec<u8>)
    requires
        from <= to <= s@.len(),
    ensures
        out@ == s@.subrange(from as int, to as int),
{
    let mut out: Vec<u8> = Vec::new();
    let mut i: usize = from;
    while i < to
        invariant
            from <= i <= to <= s@.len(),
            out@ =~= s@.subrange(from as int, i as int),
        decreases to - i,
    {
        out.push(s[i]);
        proof {
            assert(out@ =~= s@.subrange(from as int, i as int + 1));
        }
        i += 1;
    }
    out
}

} // verus!
