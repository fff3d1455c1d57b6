//! Parser and serializer for the `application/x-www-form-urlencoded` format,
//! as used by HTML forms: an ordered list of (name, value) pairs, joined by
//! `&` and `=`, with `+` standing for space and all other reserved bytes
//! percent-escaped.
//!
//! Order and duplicate names are significant and preserved. Parsing may use a
//! legacy character encoding, chosen up front or through the first
//! `_charset_` field; with a non-UTF-8 encoding active, input holding any
//! non-ASCII byte is rejected as a whole.

use vstd::prelude::*;
use crate::charset::{spec_adopt, spec_decode_text, spec_encode_text, EncodingOverride};
use crate::percent;
use crate::percent::EncodeSet;
use crate::strutil;
use crate::strutil::{all_ascii, ascii_view, find_byte, lemma_find_byte_at, lemma_find_byte_none};

verus! {

/// Every literal `+` replaced by a space (this precedes percent-decoding).
pub open spec fn plus_to_space(s: Seq<u8>) -> Seq<u8> {
    Seq::new(s.len(), |i: int| if s[i] == 0x2b { 0x20u8 } else { s[i] })
}

/// One `name=value` piece split at the first `=`; a missing `=` yields an
/// empty value.
pub open spec fn pair_of(p: Seq<u8>) -> (Seq<u8>, Seq<u8>) {
    let j = find_byte(p, 0x3d);
    if j < 0 {
        (plus_to_space(p), Seq::empty())
    } else {
        (plus_to_space(p.take(j)), plus_to_space(p.skip(j + 1)))
    }
}

/// The input split on `&`, empty pieces dropped, each piece split into a
/// plus-replaced (name, value) byte pair.
pub open spec fn raw_pairs(input: Seq<u8>) -> Seq<(Seq<u8>, Seq<u8>)>
    decreases input.len(),
{
    let i = find_byte(input, 0x26);
    if 0 <= i < input.len() {
        (if i == 0 {
            Seq::empty()
        } else {
            seq![pair_of(input.take(i))]
        }) + raw_pairs(input.skip(i + 1))
    } else {
        if input.len() == 0 {
            Seq::empty()
        } else {
            seq![pair_of(input)]
        }
    }
}

/// The bytes of the field name `_charset_`.
pub open spec fn charset_label() -> Seq<u8> {
    seq![0x5fu8, 0x63u8, 0x68u8, 0x61u8, 0x72u8, 0x73u8, 0x65u8, 0x74u8, 0x5fu8]
}

/// The encoding the pairs are decoded with when the `_charset_` flag is set:
/// the first `_charset_` field's percent-decoded value is resolved as an
/// encoding label; on success it replaces the initial encoding.
pub open spec fn active_name(
    pairs: Seq<(Seq<u8>, Seq<u8>)>,
    name0: Option<Seq<char>>,
) -> Option<Seq<char>>
    decreases pairs.len(),
{
    if pairs.len() == 0 {
        name0
    } else if pairs[0].0 == charset_label() {
        spec_adopt(name0, percent::spec_decode(pairs[0].1))
    } else {
        active_name(pairs.skip(1), name0)
    }
}

/// What parsing form-urlencoded bytes returns: `None` exactly when the
/// active encoding is not UTF-8 and the raw input holds a non-ASCII byte,
/// else each name and value percent-decoded and decoded as text.
pub open spec fn spec_parse(
    input: Seq<u8>,
    name0: Option<Seq<char>>,
    use_charset: bool,
) -> Option<Seq<(Seq<char>, Seq<char>)>> {
    let pairs = raw_pairs(input);
    let name = if use_charset {
        active_name(pairs, name0)
    } else {
        name0
    };
    if !(name is None) && !all_ascii(input) {
        None
    } else {
        Some(
            pairs.map_values(
                |p: (Seq<u8>, Seq<u8>)|
                    (
                        spec_decode_text(name, percent::spec_decode(p.0)),
                        spec_decode_text(name, percent::spec_decode(p.1)),
                    ),
            ),
        )
    }
}

/// What the serializer emits for one byte: `+` for space, else the byte
/// literally or percent-escaped per the form encode set.
pub open spec fn form_byte(b: u8) -> Seq<u8> {
    if b == 0x20 {
        seq![0x2bu8]
    } else {
        percent::spec_encode_byte(EncodeSet::Form, b)
    }
}

pub open spec fn form_bytes(s: Seq<u8>) -> Seq<u8>
    decreases s.len(),
{
    if s.len() == 0 {
        Seq::empty()
    } else {
        form_byte(s[0]) + form_bytes(s.skip(1))
    }
}

/// `name=value`, each side encoded as bytes by the active encoding and then
/// byte-serialized.
pub open spec fn pair_bytes(name: Option<Seq<char>>, p: (Seq<char>, Seq<char>)) -> Seq<u8> {
    form_bytes(spec_encode_text(name, p.0)) + seq![0x3du8] + form_bytes(spec_encode_text(name, p.1))
}

pub open spec fn spec_serialize_rest(
    pairs: Seq<(Seq<char>, Seq<char>)>,
    name: Option<Seq<char>>,
) -> Seq<u8>
    decreases pairs.len(),
{
    if pairs.len() == 0 {
        Seq::empty()
    } else {
        seq![0x26u8] + pair_bytes(name, pairs[0]) + spec_serialize_rest(pairs.skip(1), name)
    }
}

/// The serialization of a pair list: pairs joined by `&`, in order, with no
/// trailing separator.
pub open spec fn spec_serialize(
    pairs: Seq<(Seq<char>, Seq<char>)>,
    name: Option<Seq<char>>,
) -> Seq<u8> {
    if pairs.len() == 0 {
        Seq::empty()
    } else {
        pair_bytes(name, pairs[0]) + spec_serialize_rest(pairs.skip(1), name)
    }
}

pub open spec fn str_pair_views(ps: Seq<(&str, &str)>) -> Seq<(Seq<char>, Seq<char>)> {
    ps.map_values(|p: (&str, &str)| (p.0@, p.1@))
}

pub open spec fn string_pair_views(ps: Seq<(String, String)>) -> Seq<(Seq<char>, Seq<char>)> {
    ps.map_values(|p: (String, String)| (p.0@, p.1@))
}

fn find_from(s: &[u8], from: usize, b: u8) -> (r: Option<usize>)
    requires
        from <= s@.len(),
    ensures
        s@.len() <= usize::MAX,
        match r {
            Some(j) => from <= j < s@.len() && s@[j as int] == b && forall|k: int|
                from <= k < j ==> s@[k] != b,
            None => forall|k: int| from <= k < s@.len() ==> s@[k] != b,
        },
{
    let n = s.len();
    let mut i: usize = from;
    while i < n
        invariant
            n == s@.len(),
            from <= i <= s@.len(),
            forall|k: int| from <= k < i ==> s@[k] != b,
        decreases s@.len() - i,
    {
        if s[i] == b {
            return Some(i);
        }
        i += 1;
    }
    None
}

fn replace_plus(s: &[u8]) -> (out: Vec<u8>)
    ensures
        out@ == plus_to_space(s@),
{
    let mut out: Vec<u8> = Vec::new();
    let mut i: usize = 0;
    while i < s.len()
        invariant
            i <= s@.len(),
            out@.len() == i,
            forall|j: int| 0 <= j < i ==> out@[j] == plus_to_space(s@)[j],
        decreases s@.len() - i,
    {
        if s[i] == 0x2b {
            out.push(0x20);
        } else {
            out.push(s[i]);
        }
        i += 1;
    }
    proof {
        assert(out@ =~= plus_to_space(s@));
    }
    out
}

fn pair_from_piece(piece: &[u8]) -> (r: (Vec<u8>, Vec<u8>))
    ensures
        (r.0@, r.1@) == pair_of(piece@),
{
    let n = piece.len();
    match find_from(piece, 0, 0x3d) {
        Some(j) => {
            proof {
                lemma_find_byte_at(piece@, 0x3d, j as int);
                assert(j < n);
            }
            let name = strutil::sub_bytes(piece, 0, j);
            let value = strutil::sub_bytes(piece, j + 1, n);
            proof {
                assert(name@ =~= piece@.take(j as int));
                assert(value@ =~= piece@.skip(j as int + 1));
            }
            (replace_plus(name.as_slice()), replace_plus(value.as_slice()))
        },
        None => {
            proof {
                lemma_find_byte_none(piece@, 0x3d);
                assert(plus_to_space(Seq::empty()) =~= Seq::<u8>::empty());
            }
            let empty: Vec<u8> = Vec::new();
            (replace_plus(piece), empty)
        },
    }
}

/// View of a raw pair list.
pub open spec fn bytes_pair_views(ps: Seq<(Vec<u8>, Vec<u8>)>) -> Seq<(Seq<u8>, Seq<u8>)> {
    ps.map_values(|p: (Vec<u8>, Vec<u8>)| (p.0@, p.1@))
}

/// Split the input on `&` into plus-replaced (name, value) byte pairs.
fn split_pairs(input: &[u8]) -> (pairs: Vec<(Vec<u8>, Vec<u8>)>)
    ensures
        bytes_pair_views(pairs@) == raw_pairs(input@),
{
    let mut pairs: Vec<(Vec<u8>, Vec<u8>)> = Vec::new();
    let mut pos: usize = 0;
    proof {
        assert(input@.skip(0) =~= input@);
        assert(bytes_pair_views(pairs@) =~= Seq::<(Seq<u8>, Seq<u8>)>::empty());
    }
    loop
        invariant
            pos <= input@.len(),
            raw_pairs(input@) == bytes_pair_views(pairs@) + raw_pairs(input@.skip(pos as int)),
        decreases input@.len() - pos,
    {
        let ghost rest = input@.skip(pos as int);
        let ghost pre = bytes_pair_views(pairs@);
        match find_from(input, pos, 0x26) {
            Some(j) => {
                proof {
                    assert(forall|k: int| 0 <= k < rest.len() ==> rest[k] == input@[pos + k]);
                    lemma_find_byte_at(rest, 0x26, j - pos as int);
                }
                if j > pos {
                    let piece = strutil::sub_bytes(input, pos, j);
                    proof {
                        assert(piece@ =~= rest.take(j - pos as int));
                    }
                    let p = pair_from_piece(piece.as_slice());
                    pairs.push(p);
                    proof {
                        assert(bytes_pair_views(pairs@) =~= pre + seq![pair_of(rest.take(j - pos as int))]);
                    }
                }
                proof {
                    assert(rest.skip(j - pos as int + 1) =~= input@.skip(j as int + 1));
                    if j == pos {
                        assert(bytes_pair_views(pairs@) =~= pre + Seq::<(Seq<u8>, Seq<u8>)>::empty());
                    }
                }
                pos = j + 1;
            },
            None => {
                proof {
                    assert(forall|k: int| 0 <= k < rest.len() ==> rest[k] == input@[pos + k]);
                    lemma_find_byte_none(rest, 0x26);
                }
                if pos < input.len() {
                    let piece = strutil::sub_bytes(input, pos, input.len());
                    proof {
                        assert(piece@ =~= rest);
                    }
                    let p = pair_from_piece(piece.as_slice());
                    pairs.push(p);
                    proof {
                        assert(bytes_pair_views(pairs@) =~= pre + seq![pair_of(rest)]);
                    }
                } else {
                    proof {
                        assert(raw_pairs(rest) =~= Seq::<(Seq<u8>, Seq<u8>)>::empty());
                        assert(bytes_pair_views(pairs@) + raw_pairs(rest) =~= bytes_pair_views(pairs@));
                    }
                }
                return pairs;
            },
        }
    }
}

fn slice_all_ascii(s: &[u8]) -> (r: bool)
    ensures
        r == all_ascii(s@),
{
    let mut i: usize = 0;
    while i < s.len()
        invariant
            i <= s@.len(),
            forall|k: int| 0 <= k < i ==> s@[k] < 0x80,
        decreases s@.len() - i,
    {
        if s[i] >= 0x80 {
            return false;
        }
        i += 1;
    }
    true
}

fn charset_name(name: &[u8]) -> (r: bool)
    ensures
        r == (name@ == charset_label()),
{
    let r = name.len() == 9 && name[0] == 0x5f && name[1] == 0x63 && name[2] == 0x68
        && name[3] == 0x61 && name[4] == 0x72 && name[5] == 0x73 && name[6] == 0x65
        && name[7] == 0x74 && name[8] == 0x5f;
    proof {
        if r {
            assert(name@ =~= charset_label());
        }
    }
    r
}

fn parse_internal(input: &[u8], encoding_override: EncodingOverride, use_charset: bool) -> (r:
    Option<Vec<(String, String)>>)
    ensures
        match spec_parse(input@, encoding_override.name_view(), use_charset) {
            None => r is None,
            Some(ps) => r matches Some(v) && v@.len() == ps.len() && forall|i: int|
                0 <= i < ps.len() ==> (#[trigger] v@[i].0@, v@[i].1@) == ps[i],
        },
{
    let ghost name0 = encoding_override.name_view();
    let pairs = split_pairs(input);
    let ghost raw = raw_pairs(input@);

    // Resolve the active encoding through the first `_charset_` field.
    let mut enc = encoding_override;
    let mut flag = use_charset;
    let mut k: usize = 0;
    proof {
        assert(bytes_pair_views(pairs@).skip(0) =~= bytes_pair_views(pairs@));
    }
    while k < pairs.len()
        invariant
            k <= pairs@.len(),
            bytes_pair_views(pairs@) == raw,
            flag ==> use_charset,
            flag ==> enc.name_view() == name0 && active_name(raw, name0) == active_name(
                raw.skip(k as int),
                name0,
            ),
            !flag ==> enc.name_view() == (if use_charset {
                active_name(raw, name0)
            } else {
                name0
            }),
        decreases pairs@.len() - k,
    {
        let ghost rest = raw.skip(k as int);
        proof {
            assert(bytes_pair_views(pairs@)[k as int] == (pairs@[k as int].0@, pairs@[k as int].1@));
            assert(rest[0] == raw[k as int]);
            assert(rest.skip(1) =~= raw.skip(k as int + 1));
        }
        if flag && charset_name(pairs[k].0.as_slice()) {
            let decoded = percent::decode(pairs[k].1.as_slice());
            proof {
                assert(decoded@ == percent::spec_decode(rest[0].1));
                assert(active_name(rest, name0) == spec_adopt(name0, decoded@));
            }
            match EncodingOverride::lookup(decoded.as_slice()) {
                Some(e) => {
                    enc = e;
                },
                None => {},
            }
            flag = false;
            proof {
                assert(enc.name_view() == active_name(rest, name0));
            }
        }
        k += 1;
    }
    let ghost name = if use_charset {
        active_name(raw, name0)
    } else {
        name0
    };
    proof {
        if flag {
            assert(raw.skip(raw.len() as int) =~= Seq::<(Seq<u8>, Seq<u8>)>::empty());
        }
        assert(enc.name_view() == name);
    }

    if !(enc.is_utf8() || slice_all_ascii(input)) {
        return None;
    }

    let mut out: Vec<(String, String)> = Vec::new();
    let mut i: usize = 0;
    while i < pairs.len()
        invariant
            i <= pairs@.len(),
            bytes_pair_views(pairs@) == raw,
            enc.name_view() == name,
            out@.len() == i,
            forall|j: int| 0 <= j < i ==> (#[trigger] out@[j].0@, out@[j].1@) == (
                spec_decode_text(name, percent::spec_decode(raw[j].0)),
                spec_decode_text(name, percent::spec_decode(raw[j].1)),
            ),
        decreases pairs@.len() - i,
    {
        let dn = percent::decode(pairs[i].0.as_slice());
        let dv = percent::decode(pairs[i].1.as_slice());
        let name_text = enc.decode(dn.as_slice());
        let value_text = enc.decode(dv.as_slice());
        out.push((name_text, value_text));
        i += 1;
    }
    proof {
        let ps = spec_parse(input@, name0, use_charset)->Some_0;
        assert forall|j: int| 0 <= j < ps.len() implies (#[trigger] out@[j].0@, out@[j].1@)
            == ps[j] by {
            assert(ps[j] == (
                spec_decode_text(name, percent::spec_decode(raw[j].0)),
                spec_decode_text(name, percent::spec_decode(raw[j].1)),
            ));
        }
    }
    Some(out)
}

/// Convert a byte string in the `application/x-www-form-urlencoded` format
/// into a vector of (name, value) pairs, decoding text as UTF-8.
pub fn parse(input: &[u8]) -> (r: Vec<(String, String)>)
    ensures
        spec_parse(input@, None, false) matches Some(ps) && r@.len() == ps.len() && forall|i: int|
            0 <= i < ps.len() ==> (#[trigger] r@[i].0@, r@[i].1@) == ps[i],
{
    match parse_internal(input, EncodingOverride::utf8(), false) {
        Some(v) => v,
        None => {
            proof {
                assert(false);
            }
            Vec::new()
        },
    }
}

/// Convert a byte string in the `application/x-www-form-urlencoded` format
/// into a vector of (name, value) pairs.
///
/// `encoding_override` is the character encoding each name and value is
/// decoded as after percent-decoding (`None`: UTF-8). With `use_charset` set,
/// the first `_charset_` field picks the encoding instead. The parse fails
/// exactly when the active encoding is not UTF-8 and the input holds a
/// non-ASCII byte.
pub fn parse_with_encoding(
    input: &[u8],
    encoding_override: Option<EncodingOverride>,
    use_charset: bool,
) -> (r: Option<Vec<(String, String)>>)
    ensures
        ({
            let name0 = match encoding_override {
                None => None,
                Some(e) => e.name_view(),
            };
            match spec_parse(input@, name0, use_charset) {
                None => r is None,
                Some(ps) => r matches Some(v) && v@.len() == ps.len() && forall|i: int|
                    0 <= i < ps.len() ==> (#[trigger] v@[i].0@, v@[i].1@) == ps[i],
            }
        }),
{
    let enc = match encoding_override {
        None => EncodingOverride::utf8(),
        Some(e) => e,
    };
    parse_internal(input, enc, use_charset)
}

/// Every byte the form serializer emits is ASCII.
proof fn lemma_form_bytes_ascii(s: Seq<u8>)
    ensures
        all_ascii(form_bytes(s)),
    decreases s.len(),
{
    if s.len() > 0 {
        lemma_form_bytes_ascii(s.skip(1));
        let hd = form_byte(s[0]);
        assert(all_ascii(hd)) by {
            if s[0] != 0x20 && !percent::in_encode_set(EncodeSet::Form, s[0]) {
                assert(s[0] < 0x80);
            }
        }
        assert forall|i: int| 0 <= i < form_bytes(s).len() implies form_bytes(s)[i] < 0x80 by {
            assert(form_bytes(s) == hd + form_bytes(s.skip(1)));
            if i < hd.len() {
                assert(form_bytes(s)[i] == hd[i]);
            } else {
                assert(form_bytes(s)[i] == form_bytes(s.skip(1))[i - hd.len()]);
            }
        }
    }
}

proof fn lemma_serialize_rest_ascii(pairs: Seq<(Seq<char>, Seq<char>)>, name: Option<Seq<char>>)
    ensures
        all_ascii(spec_serialize_rest(pairs, name)),
    decreases pairs.len(),
{
    if pairs.len() > 0 {
        lemma_serialize_rest_ascii(pairs.skip(1), name);
        lemma_form_bytes_ascii(spec_encode_text(name, pairs[0].0));
        lemma_form_bytes_ascii(spec_encode_text(name, pairs[0].1));
    }
}

fn form_bytes_to(bytes: &[u8], out: &mut Vec<u8>)
    ensures
        final(out)@ == old(out)@ + form_bytes(bytes@),
{
    let mut i: usize = 0;
    proof {
        assert(bytes@.skip(0) =~= bytes@);
        assert(old(out)@ + form_bytes(Seq::empty()) =~= old(out)@);
    }
    while i < bytes.len()
        invariant
            i <= bytes@.len(),
            old(out)@ + form_bytes(bytes@) == out@ + form_bytes(bytes@.skip(i as int)),
        decreases bytes@.len() - i,
    {
        let ghost rest = bytes@.skip(i as int);
        let ghost pre = out@;
        let b = bytes[i];
        if b == 0x20 {
            out.push(0x2b);
        } else {
            percent::encode_byte_to(b, EncodeSet::Form, out);
        }
        proof {
            assert(rest[0] == bytes@[i as int]);
            assert(rest.skip(1) =~= bytes@.skip(i as int + 1));
            assert(out@ =~= pre + form_byte(bytes@[i as int]));
            assert(pre + form_bytes(rest) =~= out@ + form_bytes(rest.skip(1)));
        }
        i += 1;
    }
    proof {
        assert(bytes@.skip(bytes@.len() as int) =~= Seq::<u8>::empty());
        assert(out@ + form_bytes(Seq::empty()) =~= out@);
    }
}

fn emit_pair(enc: &EncodingOverride, name: &str, value: &str, out: &mut Vec<u8>)
    ensures
        final(out)@ == old(out)@ + pair_bytes(enc.name_view(), (name@, value@)),
{
    let nb = enc.encode(name);
    form_bytes_to(nb.as_slice(), out);
    out.push(0x3d);
    let vb = enc.encode(value);
    form_bytes_to(vb.as_slice(), out);
    proof {
        assert(out@ =~= old(out)@ + pair_bytes(enc.name_view(), (name@, value@)));
    }
}

fn serialize_internal(pairs: &[(&str, &str)], enc: EncodingOverride) -> (r: String)
    ensures
        r@ == ascii_view(spec_serialize(str_pair_views(pairs@), enc.name_view())),
{
    let ghost views = str_pair_views(pairs@);
    let ghost name = enc.name_view();
    let mut out: Vec<u8> = Vec::new();
    if pairs.len() == 0 {
        proof {
            lemma_ascii_empty();
        }
        return strutil::ascii_to_string(out.as_slice());
    }
    let (n0, v0) = pairs[0];
    emit_pair(&enc, n0, v0, &mut out);
    proof {
        assert(views[0] == (n0@, v0@));
        assert(out@ =~= pair_bytes(name, views[0]));
    }
    let mut i: usize = 1;
    while i < pairs.len()
        invariant
            1 <= i <= pairs@.len(),
            views == str_pair_views(pairs@),
            name == enc.name_view(),
            spec_serialize(views, name) == out@ + spec_serialize_rest(views.skip(i as int), name),
        decreases pairs@.len() - i,
    {
        let ghost rest = views.skip(i as int);
        let ghost pre = out@;
        out.push(0x26);
        let (n, v) = pairs[i];
        emit_pair(&enc, n, v, &mut out);
        proof {
            assert(rest[0] == views[i as int]);
            assert(views[i as int] == (n@, v@));
            assert(rest.skip(1) =~= views.skip(i as int + 1));
            assert(out@ =~= pre + seq![0x26u8] + pair_bytes(name, rest[0]));
            assert(pre + spec_serialize_rest(rest, name) =~= out@ + spec_serialize_rest(
                rest.skip(1),
                name,
            ));
        }
        i += 1;
    }
    proof {
        assert(views.skip(views.len() as int) =~= Seq::<(Seq<char>, Seq<char>)>::empty());
        assert(out@ + spec_serialize_rest(Seq::empty(), name) =~= out@);
        lemma_form_bytes_ascii(spec_encode_text(name, views[0].0));
        lemma_form_bytes_ascii(spec_encode_text(name, views[0].1));
        lemma_serialize_rest_ascii(views.skip(1), name);
        assert(all_ascii(out@));
    }
    strutil::ascii_to_string(out.as_slice())
}

proof fn lemma_ascii_empty()
    ensures
        all_ascii(Seq::<u8>::empty()),
        ascii_view(Seq::<u8>::empty()) =~= Seq::<char>::empty(),
{
}

/// Convert a slice of (name, value) pairs into a string in the
/// `application/x-www-form-urlencoded` format, with text taken as UTF-8.
pub fn serialize(pairs: &[(&str, &str)]) -> (r: String)
    ensures
        r@ == ascii_view(spec_serialize(str_pair_views(pairs@), None)),
{
    serialize_internal(pairs, EncodingOverride::utf8())
}

/// Convert a slice of owned (name, value) pairs into a string in the
/// `application/x-www-form-urlencoded` format.
pub fn serialize_owned(pairs: &[(String, String)]) -> (r: String)
    ensures
        r@ == ascii_view(spec_serialize(string_pair_views(pairs@), None)),
{
    let mut refs: Vec<(&str, &str)> = Vec::new();
    let mut i: usize = 0;
    while i < pairs.len()
        invariant
            i <= pairs@.len(),
            refs@.len() == i,
            forall|j: int| 0 <= j < i ==> (#[trigger] refs@[j].0@, refs@[j].1@) == (
                pairs@[j].0@,
                pairs@[j].1@,
            ),
        decreases pairs@.len() - i,
    {
        let p = &pairs[i];
        refs.push((p.0.as_str(), p.1.as_str()));
        i += 1;
    }
    let r = serialize_internal(refs.as_slice(), EncodingOverride::utf8());
    proof {
        assert(str_pair_views(refs@) =~= string_pair_views(pairs@));
    }
    r
}

/// Convert a slice of (name, value) pairs into a string in the
/// `application/x-www-form-urlencoded` format, encoding text with the given
/// encoding (`None`: UTF-8).
pub fn serialize_with_encoding(pairs: &[(&str, &str)], encoding_override: Option<
    EncodingOverride,
>) -> (r: String)
    ensures
        ({
            let name0 = match encoding_override {
                None => None,
                Some(e) => e.name_view(),
            };
            r@ == ascii_view(spec_serialize(str_pair_views(pairs@), name0))
        }),
{
    let enc = match encoding_override {
        None => EncodingOverride::utf8(),
        Some(e) => e,
    };
    serialize_internal(pairs, enc)
}

} // verus!
