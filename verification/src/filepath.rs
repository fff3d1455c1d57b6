//! Conversion between file URLs and native file paths, in their POSIX and
//! Windows drive-letter shapes.
//!
//! `from_file_path` accepts only an absolute path and builds a `file` URL
//! with an empty domain host and percent-encoded segments. `to_file_path`
//! percent-decodes each stored segment to raw bytes exactly as stored — a
//! segment whose decoding is not valid text is passed through unchanged on
//! the POSIX side — and fails on any segment holding a NUL byte.

use vstd::prelude::*;
use vstd::string::{StrSliceExecFns, StringExecFns};
use vstd::utf8::{encode_utf8, valid_utf8};
use crate::host::Host;
use crate::percent;
use crate::percent::EncodeSet;
use crate::strutil;
use crate::strutil::{ascii_view, split_bytes};
use crate::urlparse::{
    default_port_of, seg_views, url_wf, wf_seg, RelativeSchemeData, SchemeData, Url,
};

verus! {

/// A native file path: its platform flavor and its raw bytes.
#[derive(Clone, Debug, PartialEq, Eq)]
pub struct FilePath {
    /// Windows drive-letter shape rather than POSIX.
    pub windows: bool,
    /// The path text's bytes, kept raw so that non-text bytes survive.
    pub bytes: Vec<u8>,
}

impl FilePath {
    /// A POSIX path.
    pub fn posix(s: &str) -> (r: FilePath)
        ensures
            !r.windows,
            r.bytes@ == encode_utf8(s@),
    {
        FilePath { windows: false, bytes: s.as_bytes_vec() }
    }

    /// A Windows path.
    pub fn windows(s: &str) -> (r: FilePath)
        ensures
            r.windows,
            r.bytes@ == encode_utf8(s@),
    {
        FilePath { windows: true, bytes: s.as_bytes_vec() }
    }
}

pub open spec fn is_ascii_alpha(b: u8) -> bool {
    (0x41 <= b <= 0x5a) || (0x61 <= b <= 0x7a)
}

/// `\` separators turned into `/`.
pub open spec fn norm_sep(s: Seq<u8>) -> Seq<u8> {
    Seq::new(s.len(), |i: int| if s[i] == 0x5c { 0x2fu8 } else { s[i] })
}

pub open spec fn seg_encoded(s: Seq<u8>) -> Seq<char> {
    ascii_view(percent::spec_encode(s, EncodeSet::Path))
}

/// The path segments an absolute native path yields, percent-encoded, or
/// `None` for a path that is not absolute (for Windows: that has no drive).
pub open spec fn spec_path_segments(p: &FilePath) -> Option<Seq<Seq<char>>> {
    let b = p.bytes@;
    if !p.windows {
        if b.len() >= 1 && b[0] == 0x2f {
            Some(split_bytes(b.skip(1), 0x2f).map_values(|s: Seq<u8>| seg_encoded(s)))
        } else {
            None
        }
    } else {
        if b.len() >= 3 && is_ascii_alpha(b[0]) && b[1] == 0x3a && (b[2] == 0x5c || b[2] == 0x2f) {
            Some(
                seq![ascii_view(seq![b[0], 0x3au8])] + split_bytes(
                    norm_sep(b.skip(3)),
                    0x2f,
                ).map_values(|s: Seq<u8>| seg_encoded(s)),
            )
        } else {
            None
        }
    }
}

/// A stored segment percent-decoded back to raw bytes.
pub open spec fn seg_decoded(s: Seq<char>) -> Seq<u8> {
    percent::spec_decode(encode_utf8(s))
}

pub open spec fn has_nul(s: Seq<u8>) -> bool {
    exists|i: int| 0 <= i < s.len() && s[i] == 0
}

/// Segments joined with a leading separator each (the POSIX shape).
pub open spec fn slash_join(segs: Seq<Seq<u8>>) -> Seq<u8>
    decreases segs.len(),
{
    if segs.len() == 0 {
        Seq::empty()
    } else {
        seq![0x2fu8] + segs[0] + slash_join(segs.skip(1))
    }
}

/// Segments joined with `\` between them (the Windows shape).
pub open spec fn backslash_join(segs: Seq<Seq<u8>>) -> Seq<u8>
    decreases segs.len(),
{
    if segs.len() == 0 {
        Seq::empty()
    } else if segs.len() == 1 {
        segs[0]
    } else {
        segs[0] + seq![0x5cu8] + backslash_join(segs.skip(1))
    }
}

/// What `to_file_path` returns: the decoded segment bytes joined in the
/// flavor's shape, or `None` for a non-file URL, a non-empty or non-domain
/// host, a segment with a NUL byte, a Windows path without a drive segment,
/// or Windows bytes that are not valid text.
pub open spec fn spec_to_file_path(u: &Url, windows: bool) -> Option<Seq<u8>> {
    if u.scheme@ != "file"@ {
        None
    } else {
        match u.scheme_data {
            SchemeData::NonRelative(_) => None,
            SchemeData::Relative(r) => {
                let host_ok = match r.host {
                    Host::Domain(d) => d@.len() == 0,
                    _ => false,
                };
                if !host_ok {
                    None
                } else {
                    let dsegs = r.path@.map_values(|s: String| seg_decoded(s@));
                    if exists|i: int| 0 <= i < dsegs.len() && has_nul(#[trigger] dsegs[i]) {
                        None
                    } else if windows {
                        if dsegs.len() >= 1 && dsegs[0].len() == 2 && is_ascii_alpha(dsegs[0][0])
                            && dsegs[0][1] == 0x3a {
                            let all = backslash_join(dsegs);
                            if valid_utf8(all) {
                                Some(all)
                            } else {
                                None
                            }
                        } else {
                            None
                        }
                    } else {
                        Some(slash_join(dsegs))
                    }
                }
            },
        }
    }
}

/// The scheme `file` is a well-formed scheme with no default port.
pub proof fn lemma_file_scheme()
    ensures
        crate::urlparse::wf_scheme("file"@),
        default_port_of("file"@) is None,
        crate::urlparse::is_special_scheme("file"@),
{
    reveal_strlit("file");
    reveal_strlit("http");
    reveal_strlit("https");
    reveal_strlit("ws");
    reveal_strlit("wss");
    reveal_strlit("ftp");
    assert("file"@.len() == 4);
    assert("file"@[0] == 'f' && "file"@[1] == 'i' && "file"@[2] == 'l' && "file"@[3] == 'e');
    assert("file"@ != "http"@) by {
        assert("file"@[0] != "http"@[0]);
    }
    assert("file"@ != "https"@) by {
        assert("file"@.len() != "https"@.len());
    }
    assert("file"@ != "ws"@) by {
        assert("file"@.len() != "ws"@.len());
    }
    assert("file"@ != "wss"@) by {
        assert("file"@[0] != "wss"@[0]);
    }
    assert("file"@ != "ftp"@) by {
        assert("file"@[1] != "ftp"@[1]);
    }
}

/// Turn an absolute native path into percent-encoded segments.
fn path_segments(p: &FilePath) -> (r: Result<Vec<String>, ()>)
    ensures
        match r {
            Ok(segs) => spec_path_segments(p) == Some(seg_views(segs@)) && forall|i: int|
                0 <= i < segs@.len() ==> wf_seg(#[trigger] segs@[i]@),
            Err(_) => spec_path_segments(p) is None,
        },
{
    let b = p.bytes.as_slice();
    let n = b.len();
    if !p.windows {
        if n == 0 || b[0] != 0x2f {
            return Err(());
        }
        let rest = strutil::sub_bytes(b, 1, n);
        proof {
            assert(rest@ =~= b@.skip(1));
        }
        let pieces = strutil::split_on(rest.as_slice(), 0x2f);
        let mut segs: Vec<String> = Vec::new();
        let mut i: usize = 0;
        let ghost pviews = pieces@.map_values(|p: Vec<u8>| p@);
        while i < pieces.len()
            invariant
                i <= pieces@.len(),
                segs@.len() == i,
                pviews == pieces@.map_values(|p: Vec<u8>| p@),
                forall|j: int, k: int|
                    0 <= j < pieces@.len() && 0 <= k < pieces@[j]@.len() ==> #[trigger] pieces@[j]@[k]
                        != 0x2f,
                forall|j: int| 0 <= j < i ==> #[trigger] segs@[j]@ == seg_encoded(pviews[j]),
                forall|j: int| 0 <= j < i ==> wf_seg(#[trigger] segs@[j]@),
            decreases pieces@.len() - i,
        {
            let s = crate::urlparse::encode_segment(pieces[i].as_slice());
            segs.push(s);
            i += 1;
        }
        proof {
            assert(seg_views(segs@) =~= pviews.map_values(|s: Seq<u8>| seg_encoded(s)));
        }
        Ok(segs)
    } else {
        if !(n >= 3 && ((0x41 <= b[0] && b[0] <= 0x5a) || (0x61 <= b[0] && b[0] <= 0x7a)) && b[1]
            == 0x3a && (b[2] == 0x5c || b[2] == 0x2f)) {
            return Err(());
        }
        // The drive segment, normalized to `X:`.
        let mut d: Vec<u8> = Vec::new();
        d.push(b[0]);
        d.push(0x3a);
        let drive = strutil::ascii_to_string(d.as_slice());
        proof {
            assert(d@ =~= seq![b@[0], 0x3au8]);
            assert forall|k: int| 0 <= k < drive@.len() implies {
                let u = #[trigger] drive@[k] as u32;
                u < 0x80 && u != 0x2f
            } by {
                assert(drive@[k] == (d@[k] as u32) as char);
                assert(((d@[k] as u32) as char) as u32 == d@[k] as u32);
            }
        }
        let mut segs: Vec<String> = Vec::new();
        segs.push(drive);
        // Later separators of either kind split the remaining segments.
        let rest = strutil::sub_bytes(b, 3, n);
        let mut norm: Vec<u8> = Vec::new();
        let mut i: usize = 0;
        while i < rest.len()
            invariant
                i <= rest@.len(),
                norm@.len() == i,
                forall|j: int| 0 <= j < i ==> norm@[j] == norm_sep(rest@)[j],
            decreases rest@.len() - i,
        {
            let c = rest[i];
            if c == 0x5c {
                norm.push(0x2f);
            } else {
                norm.push(c);
            }
            i += 1;
        }
        proof {
            assert(norm@ =~= norm_sep(rest@));
            assert(rest@ =~= b@.skip(3));
        }
        let pieces = strutil::split_on(norm.as_slice(), 0x2f);
        let ghost pviews = pieces@.map_values(|p: Vec<u8>| p@);
        let mut i: usize = 0;
        while i < pieces.len()
            invariant
                i <= pieces@.len(),
                segs@.len() == i + 1,
                pviews == pieces@.map_values(|p: Vec<u8>| p@),
                forall|j: int, k: int|
                    0 <= j < pieces@.len() && 0 <= k < pieces@[j]@.len() ==> #[trigger] pieces@[j]@[k]
                        != 0x2f,
                forall|j: int| 1 <= j < i + 1 ==> #[trigger] segs@[j]@ == seg_encoded(pviews[j - 1]),
                forall|j: int| 0 <= j < i + 1 ==> wf_seg(#[trigger] segs@[j]@),
                segs@[0]@ == ascii_view(seq![b@[0], 0x3au8]),
            decreases pieces@.len() - i,
        {
            let s = crate::urlparse::encode_segment(pieces[i].as_slice());
            segs.push(s);
            i += 1;
        }
        proof {
            assert(seg_views(segs@) =~= seq![ascii_view(seq![b@[0], 0x3au8])] + pviews.map_values(
                |s: Seq<u8>| seg_encoded(s),
            ));
        }
        Ok(segs)
    }
}

/// The `file` URL shared by both path constructors.
fn file_url(segs: Vec<String>) -> (r: Url)
    requires
        segs@.len() >= 1,
        forall|i: int| 0 <= i < segs@.len() ==> wf_seg(#[trigger] segs@[i]@),
    ensures
        url_wf(&r),
        r.scheme@ == "file"@,
        r.query is None,
        r.fragment is None,
        match r.scheme_data {
            SchemeData::Relative(rsd) => {
                &&& rsd.username@ == Seq::<char>::empty()
                &&& rsd.password is None
                &&& rsd.host matches Host::Domain(d) && d@.len() == 0
                &&& rsd.port is None
                &&& rsd.default_port is None
                &&& seg_views(rsd.path@) == seg_views(segs@)
            },
            SchemeData::NonRelative(_) => false,
        },
{
    proof {
        lemma_file_scheme();
    }
    Url {
        scheme: String::from_str("file"),
        scheme_data: SchemeData::Relative(
            RelativeSchemeData {
                username: String::new(),
                password: None,
                host: Host::Domain(String::new()),
                port: None,
                default_port: None,
                path: segs,
            },
        ),
        query: None,
        fragment: None,
    }
}

impl Url {
    /// Turn an absolute native file path into a `file` URL; a relative path
    /// fails.
    pub fn from_file_path(path: &FilePath) -> (r: Result<Url, ()>)
        ensures
            match r {
                Ok(u) => {
                    &&& url_wf(&u)
                    &&& u.scheme@ == "file"@
                    &&& u.query is None && u.fragment is None
                    &&& match u.scheme_data {
                        SchemeData::Relative(rsd) => {
                            &&& rsd.host matches Host::Domain(d) && d@.len() == 0
                            &&& rsd.port is None && rsd.default_port is None
                            &&& rsd.username@ == Seq::<char>::empty() && rsd.password is None
                            &&& Some(seg_views(rsd.path@)) == spec_path_segments(path)
                        },
                        SchemeData::NonRelative(_) => false,
                    }
                },
                Err(_) => spec_path_segments(path) is None,
            },
    {
        match path_segments(path) {
            Ok(segs) => {
                proof {
                    assert(seg_views(segs@).len() >= 1);
                }
                Ok(file_url(segs))
            },
            Err(_) => Err(()),
        }
    }

    /// As `from_file_path`, with an empty segment appended so the URL
    /// serializes with a trailing separator.
    pub fn from_directory_path(path: &FilePath) -> (r: Result<Url, ()>)
        ensures
            match r {
                Ok(u) => {
                    &&& url_wf(&u)
                    &&& u.scheme@ == "file"@
                    &&& u.query is None && u.fragment is None
                    &&& match u.scheme_data {
                        SchemeData::Relative(rsd) => {
                            &&& rsd.host matches Host::Domain(d) && d@.len() == 0
                            &&& rsd.port is None && rsd.default_port is None
                            &&& rsd.username@ == Seq::<char>::empty() && rsd.password is None
                            &&& spec_path_segments(path) matches Some(segs) && seg_views(rsd.path@)
                                == segs + seq![Seq::<char>::empty()]
                        },
                        SchemeData::NonRelative(_) => false,
                    }
                },
                Err(_) => spec_path_segments(path) is None,
            },
    {
        match path_segments(path) {
            Ok(mut segs) => {
                segs.push(String::new());
                proof {
                    assert(seg_views(segs@) =~= seg_views(segs@.take(segs@.len() - 1)) + seq![
                        Seq::<char>::empty(),
                    ]);
                }
                Ok(file_url(segs))
            },
            Err(_) => Err(()),
        }
    }

    /// Turn a `file` URL back into a native path of the asked-for flavor.
    /// Segments come back as their raw percent-decoded bytes; a decoded NUL
    /// byte fails, and the Windows flavor also demands a drive segment and
    /// valid text.
    #[verifier::loop_isolation(false)]
    pub fn to_file_path(&self, windows: bool) -> (r: Result<FilePath, ()>)
        ensures
            match r {
                Ok(p) => spec_to_file_path(self, windows) == Some(p.bytes@) && p.windows == windows,
                Err(_) => spec_to_file_path(self, windows) is None,
            },
    {
        if !self.scheme.eq(&String::from_str("file")) {
            return Err(());
        }
        let rsd = match &self.scheme_data {
            SchemeData::Relative(rsd) => rsd,
            SchemeData::NonRelative(_) => {
                return Err(());
            },
        };
        match &rsd.host {
            Host::Domain(d) => if !d.as_str().is_empty() {
                return Err(());
            },
            _ => {
                return Err(());
            },
        }
        // Decode every segment, rejecting NUL bytes.
        let ghost dviews = rsd.path@.map_values(|s: String| seg_decoded(s@));
        let mut dsegs: Vec<Vec<u8>> = Vec::new();
        let mut i: usize = 0;
        while i < rsd.path.len()
            invariant
                i <= rsd.path@.len(),
                dsegs@.len() == i,
                dviews == rsd.path@.map_values(|s: String| seg_decoded(s@)),
                forall|j: int| 0 <= j < i ==> #[trigger] dsegs@[j]@ == dviews[j],
                forall|j: int| 0 <= j < i ==> !has_nul(#[trigger] dsegs@[j]@),
            decreases rsd.path@.len() - i,
        {
            let decoded = percent::decode(rsd.path[i].as_str().as_bytes());
            proof {
                assert(dviews[i as int] == seg_decoded(rsd.path@[i as int]@));
                assert(decoded@ == dviews[i as int]);
            }
            let mut k: usize = 0;
            while k < decoded.len()
                invariant
                    k <= decoded@.len(),
                    forall|m: int| 0 <= m < k ==> decoded@[m] != 0,
                decreases decoded@.len() - k,
            {
                if decoded[k] == 0 {
                    proof {
                        assert(has_nul(dviews[i as int]));
                    }
                    return Err(());
                }
                k += 1;
            }
            dsegs.push(decoded);
            i += 1;
        }
        proof {
            assert(!(exists|j: int| 0 <= j < dviews.len() && has_nul(#[trigger] dviews[j]))) by {
                assert(forall|j: int| 0 <= j < dviews.len() ==> #[trigger] dviews[j]
                    == dsegs@[j]@);
            }
        }
        if windows {
            if dsegs.len() == 0 {
                proof {
                    assert(dviews.len() == 0);
                }
                return Err(());
            }
            let d0 = dsegs[0].as_slice();
            if !(d0.len() == 2 && ((0x41 <= d0[0] && d0[0] <= 0x5a) || (0x61 <= d0[0] && d0[0]
                <= 0x7a)) && d0[1] == 0x3a) {
                return Err(());
            }
            let mut out: Vec<u8> = Vec::new();
            out.extend_from_slice(dsegs[0].as_slice());
            let mut i: usize = 1;
            proof {
                assert(dviews.skip(0) =~= dviews);
                assert(backslash_join(dviews) == out@ + (if dviews.len() == 1 {
                    Seq::<u8>::empty()
                } else {
                    seq![0x5cu8] + backslash_join(dviews.skip(1))
                }));
            }
            while i < dsegs.len()
                invariant
                    1 <= i <= dsegs@.len(),
                    dsegs@.len() == dviews.len(),
                    forall|j: int| 0 <= j < dviews.len() ==> #[trigger] dsegs@[j]@ == dviews[j],
                    backslash_join(dviews) == out@ + (if i == dviews.len() {
                        Seq::<u8>::empty()
                    } else {
                        seq![0x5cu8] + backslash_join(dviews.skip(i as int))
                    }),
                decreases dsegs@.len() - i,
            {
                let ghost pre = out@;
                let ghost restv = dviews.skip(i as int);
                out.push(0x5c);
                out.extend_from_slice(dsegs[i].as_slice());
                proof {
                    assert(restv[0] == dviews[i as int]);
                    assert(restv.skip(1) =~= dviews.skip(i as int + 1));
                    assert(out@ =~= pre + seq![0x5cu8] + restv[0]);
                    if i + 1 < dviews.len() {
                        assert(backslash_join(restv) =~= restv[0] + seq![0x5cu8] + backslash_join(
                            restv.skip(1),
                        ));
                    } else {
                        assert(backslash_join(restv) =~= restv[0]);
                    }
                }
                i += 1;
            }
            proof {
                assert(backslash_join(dviews) == out@);
            }
            if !strutil::is_valid_utf8(out.as_slice()) {
                return Err(());
            }
            Ok(FilePath { windows: true, bytes: out })
        } else {
            let mut out: Vec<u8> = Vec::new();
            let mut i: usize = 0;
            proof {
                assert(dviews.skip(0) =~= dviews);
            }
            while i < dsegs.len()
                invariant
                    i <= dsegs@.len(),
                    dsegs@.len() == dviews.len(),
                    forall|j: int| 0 <= j < dviews.len() ==> #[trigger] dsegs@[j]@ == dviews[j],
                    slash_join(dviews) == out@ + slash_join(dviews.skip(i as int)),
                decreases dsegs@.len() - i,
            {
                let ghost pre = out@;
                let ghost restv = dviews.skip(i as int);
                out.push(0x2f);
                out.extend_from_slice(dsegs[i].as_slice());
                proof {
                    assert(restv[0] == dviews[i as int]);
                    assert(restv.skip(1) =~= dviews.skip(i as int + 1));
                    assert(out@ =~= pre + seq![0x2fu8] + restv[0]);
                    assert(pre + slash_join(restv) =~= out@ + slash_join(restv.skip(1)));
                }
                i += 1;
            }
            proof {
                assert(dviews.skip(dviews.len() as int) =~= Seq::<Seq<u8>>::empty());
                assert(out@ + slash_join(Seq::empty()) =~= out@);
            }
            Ok(FilePath { windows: false, bytes: out })
        }
    }
}

} // verus!
