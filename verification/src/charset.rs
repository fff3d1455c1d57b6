//! The pluggable character-encoding capability used by the form codec.
//!
//! An [`EncodingOverride`] is either the built-in UTF-8 default or a legacy
//! encoding resolved from a WHATWG label through the `encoding` crate. What
//! a legacy encoding's decode and encode return is named, not restated: both
//! are functions of the encoding's name and the input alone.

use vstd::prelude::*;
use vstd::utf8::{decode_utf8, encode_utf8, valid_utf8};
use crate::strutil::{utf8_lossy, utf8_lossy_string};
use encoding::types::EncodingRef;

verus! {

/// The WHATWG name of the encoding a label resolves to, or `None` when the
/// label names no encoding.
pub uninterp spec fn enc_lookup(label: Seq<u8>) -> Option<Seq<char>>;

/// What the named legacy encoding decodes the bytes to, with each
/// unmappable sequence replaced.
pub uninterp spec fn enc_decode(name: Seq<char>, bytes: Seq<u8>) -> Seq<char>;

/// What the named legacy encoding encodes the text to, with each
/// unmappable character escaped as a numeric character reference.
pub uninterp spec fn enc_encode(name: Seq<char>, text: Seq<char>) -> Seq<u8>;

/// Relies on `encoding::label::encoding_from_whatwg_label`: which encoding a
/// label resolves to depends on the label alone; the result's
/// `Encoding::whatwg_name` identifies it, and the label text itself is
/// handed back so the same encoding can be resolved again (a WHATWG name —
/// the replacement encoding's, for one — need not be a label itself). Also
/// relies on std's `str::from_utf8` succeeding exactly on valid UTF-8.
#[verifier::external_body]
fn lookup_whatwg_name(label: &[u8]) -> (r: Option<(String, String)>)
    ensures
        match r {
            Some(p) => enc_lookup(label@) == Some(p.0@) && valid_utf8(label@) && p.1@
                == decode_utf8(label@),
            None => enc_lookup(label@) is None,
        },
{
    let label = match core::str::from_utf8(label) {
        Ok(l) => l,
        Err(_) => return None,
    };
    let enc: EncodingRef = match encoding::label::encoding_from_whatwg_label(label) {
        Some(e) => e,
        None => return None,
    };
    match enc.whatwg_name() {
        Some(n) => Some((n.to_string(), label.to_string())),
        None => None,
    }
}

/// Relies on `encoding::types::Encoding::decode` with `DecoderTrap::Replace`:
/// it never fails, and its result depends on the encoding and the bytes alone.
#[verifier::external_body]
fn decode_with_label(name: &str, bytes: &[u8]) -> (r: String)
    ensures
        r@ == enc_decode(name@, bytes@),
{
    match encoding::label::encoding_from_whatwg_label(name) {
        Some(e) => match e.decode(bytes, encoding::DecoderTrap::Replace) {
            Ok(s) => s,
            Err(_) => String::new(),
        },
        None => String::new(),
    }
}

/// Relies on `encoding::types::Encoding::encode` with `EncoderTrap::NcrEscape`:
/// it never fails, and its result depends on the encoding and the text alone.
#[verifier::external_body]
fn encode_with_label(name: &str, text: &str) -> (r: Vec<u8>)
    ensures
        r@ == enc_encode(name@, text@),
{
    match encoding::label::encoding_from_whatwg_label(name) {
        Some(e) => match e.encode(text, encoding::EncoderTrap::NcrEscape) {
            Ok(v) => v,
            Err(_) => Vec::new(),
        },
        None => Vec::new(),
    }
}

/// The character encoding the form codec reads and writes text with:
/// the UTF-8 default, or a legacy encoding picked by its WHATWG name.
pub struct EncodingOverride {
    name: Option<String>,
}

/// What decoding bytes as text means for an encoding given by name:
/// `None` is the UTF-8 default with replacement on invalid sequences.
pub open spec fn spec_decode_text(name: Option<Seq<char>>, bytes: Seq<u8>) -> Seq<char> {
    match name {
        None => utf8_lossy(bytes),
        Some(n) => enc_decode(n, bytes),
    }
}

/// What encoding text as bytes means for an encoding given by name.
pub open spec fn spec_encode_text(name: Option<Seq<char>>, text: Seq<char>) -> Seq<u8> {
    match name {
        None => encode_utf8(text),
        Some(n) => enc_encode(n, text),
    }
}

/// The encoding after looking a label up: a label naming an encoding is
/// adopted — as the UTF-8 default when it names `utf-8`, else keyed by the
/// label's own text — and a failed lookup keeps the current one.
pub open spec fn spec_adopt(cur: Option<Seq<char>>, label: Seq<u8>) -> Option<Seq<char>> {
    match enc_lookup(label) {
        None => cur,
        Some(n) => if n == "utf-8"@ {
            None
        } else {
            Some(decode_utf8(label))
        },
    }
}

impl EncodingOverride {
    /// `None` means the UTF-8 default; `Some` names a legacy encoding.
    pub closed spec fn name_view(&self) -> Option<Seq<char>> {
        match self.name {
            None => None,
            Some(n) => Some(n@),
        }
    }

    /// The built-in UTF-8 default.
    pub fn utf8() -> (r: EncodingOverride)
        ensures
            r.name_view() is None,
    {
        EncodingOverride { name: None }
    }

    /// Resolve a WHATWG encoding label; a label naming `utf-8` yields the
    /// UTF-8 default, any other known label a legacy encoding keyed by that
    /// label.
    pub fn lookup(label: &[u8]) -> (r: Option<EncodingOverride>)
        ensures
            match enc_lookup(label@) {
                None => r is None,
                Some(n) => r matches Some(e) && e.name_view() == spec_adopt(None, label@),
            },
    {
        match lookup_whatwg_name(label) {
            None => None,
            Some((n, l)) => {
                proof {
                    lemma_utf8_label();
                    vstd::utf8::encode_utf8_decode_utf8(n@);
                    vstd::utf8::encode_utf8_decode_utf8("utf-8"@);
                }
                let b = n.as_str().as_bytes();
                let is_utf8_label = b.len() == 5 && b[0] == 0x75 && b[1] == 0x74 && b[2] == 0x66
                    && b[3] == 0x2d && b[4] == 0x38;
                if is_utf8_label {
                    proof {
                        assert(b@ =~= encode_utf8("utf-8"@));
                    }
                    Some(EncodingOverride { name: None })
                } else {
                    proof {
                        assert(b@ != encode_utf8("utf-8"@));
                        assert(n@ != "utf-8"@);
                    }
                    Some(EncodingOverride { name: Some(l) })
                }
            },
        }
    }

    pub fn is_utf8(&self) -> (r: bool)
        ensures
            r == (self.name_view() is None),
    {
        self.name.is_none()
    }

    /// Decode bytes as text: UTF-8 with replacement by default, else the
    /// legacy encoding's decoder.
    pub fn decode(&self, bytes: &[u8]) -> (r: String)
        ensures
            r@ == spec_decode_text(self.name_view(), bytes@),
    {
        match &self.name {
            None => utf8_lossy_string(bytes),
            Some(n) => decode_with_label(n.as_str(), bytes),
        }
    }

    /// Encode text as bytes: the text's own UTF-8 bytes by default, else the
    /// legacy encoding's encoder.
    pub fn encode(&self, text: &str) -> (r: Vec<u8>)
        ensures
            r@ == spec_encode_text(self.name_view(), text@),
    {
        match &self.name {
            None => vstd::string::StrSliceExecFns::as_bytes_vec(text),
            Some(n) => encode_with_label(n.as_str(), text),
        }
    }
}

/// The UTF-8 bytes of the label `utf-8`.
pub proof fn lemma_utf8_label()
    ensures
        encode_utf8("utf-8"@) =~= seq![0x75u8, 0x74u8, 0x66u8, 0x2du8, 0x38u8],
        "utf-8"@.len() == 5,
{
    reveal_strlit("utf-8");
    let s = "utf-8"@;
    assert(vstd::utf8::is_ascii_chars(s));
    vstd::utf8::is_ascii_chars_encode_utf8(s);
    assert(encode_utf8(s)[0] == 'u' as u8);
    assert(encode_utf8(s)[1] == 't' as u8);
    assert(encode_utf8(s)[2] == 'f' as u8);
    assert(encode_utf8(s)[3] == '-' as u8);
    assert(encode_utf8(s)[4] == '8' as u8);
}

} // verus!
