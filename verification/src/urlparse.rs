//! The URL value type, its WHATWG-style serialization, and the parsing
//! state machine, including relative-reference resolution against a base.
//!
//! A parsed [`Url`] is well formed ([`url_wf`]): its scheme is lowercase
//! ASCII, every stored component is ASCII (the parser percent-encodes
//! everything else), path segments hold no separators, and an explicit port
//! differs from the scheme's default. `to_string` is specified exactly by
//! [`spec_url_str`].

use vstd::prelude::*;
use vstd::string::{StrSliceExecFns, StringExecFns};
use crate::error::ParseError;
use crate::host::{host_wf, spec_host_str, Host};
use crate::percent;
use crate::percent::EncodeSet;
use crate::strutil;
use crate::strutil::{all_ascii, ascii_view, dec_bytes};

verus! {

/// The authority-bearing half of a URL.
#[derive(Clone, Debug, PartialEq, Eq)]
pub struct RelativeSchemeData {
    pub username: String,
    pub password: Option<String>,
    pub host: Host,
    pub port: Option<u16>,
    pub default_port: Option<u16>,
    pub path: Vec<String>,
}

/// A URL's data after the scheme: hierarchical or opaque.
#[derive(Clone, Debug, PartialEq, Eq)]
pub enum SchemeData {
    Relative(RelativeSchemeData),
    NonRelative(String),
}

/// A parsed URL.
#[derive(Clone, Debug, PartialEq, Eq)]
pub struct Url {
    pub scheme: String,
    pub scheme_data: SchemeData,
    pub query: Option<String>,
    pub fragment: Option<String>,
}

pub open spec fn ascii_chars(s: Seq<char>) -> bool {
    forall|i: int| 0 <= i < s.len() ==> (#[trigger] s[i] as u32) < 0x80
}

/// A scheme: nonempty, starting with a lowercase letter, continuing with
/// lowercase letters, digits, `+`, `-` or `.`.
pub open spec fn wf_scheme(s: Seq<char>) -> bool {
    &&& s.len() > 0
    &&& 0x61 <= (s[0] as u32) <= 0x7a
    &&& forall|i: int| 0 <= i < s.len() ==> {
        let u = #[trigger] s[i] as u32;
        (0x61 <= u <= 0x7a) || (0x30 <= u <= 0x39) || u == 0x2b || u == 0x2d || u == 0x2e
    }
}

/// A stored path segment: ASCII with no `/`.
pub open spec fn wf_seg(s: Seq<char>) -> bool {
    forall|i: int| 0 <= i < s.len() ==> {
        let u = #[trigger] s[i] as u32;
        u < 0x80 && u != 0x2f
    }
}

/// The default port of the special schemes that have one.
pub open spec fn default_port_of(s: Seq<char>) -> Option<u16> {
    if s == "http"@ {
        Some(80u16)
    } else if s == "https"@ {
        Some(443u16)
    } else if s == "ws"@ {
        Some(80u16)
    } else if s == "wss"@ {
        Some(443u16)
    } else if s == "ftp"@ {
        Some(21u16)
    } else {
        None
    }
}

/// The special schemes: those with a mandatory authority.
pub open spec fn is_special_scheme(s: Seq<char>) -> bool {
    default_port_of(s) is Some || s == "file"@
}

pub open spec fn rsd_wf(r: &RelativeSchemeData, scheme: Seq<char>) -> bool {
    &&& ascii_chars(r.username@)
    &&& match r.password {
        Some(p) => ascii_chars(p@),
        None => true,
    }
    &&& host_wf(&r.host)
    &&& r.default_port == default_port_of(scheme)
    &&& match r.port {
        Some(p) => r.default_port != Some(p),
        None => true,
    }
    &&& r.path@.len() >= 1
    &&& forall|i: int| 0 <= i < r.path@.len() ==> wf_seg(#[trigger] r.path@[i]@)
}

/// Every URL this crate produces satisfies this.
pub open spec fn url_wf(u: &Url) -> bool {
    &&& wf_scheme(u.scheme@)
    &&& match u.scheme_data {
        SchemeData::Relative(r) => rsd_wf(&r, u.scheme@),
        SchemeData::NonRelative(d) => ascii_chars(d@),
    }
    &&& match u.query {
        Some(q) => ascii_chars(q@),
        None => true,
    }
    &&& match u.fragment {
        Some(f) => ascii_chars(f@),
        None => true,
    }
}

pub open spec fn seg_views(p: Seq<String>) -> Seq<Seq<char>> {
    p.map_values(|s: String| s@)
}

/// `/`-prefixed segments, concatenated.
pub open spec fn path_str(segs: Seq<Seq<char>>) -> Seq<char>
    decreases segs.len(),
{
    if segs.len() == 0 {
        Seq::empty()
    } else {
        seq!['/'] + segs[0] + path_str(segs.skip(1))
    }
}

/// `username[:password]@`, or nothing when both are absent.
pub open spec fn userinfo_str(r: &RelativeSchemeData) -> Seq<char> {
    if r.username@.len() == 0 && r.password is None {
        Seq::empty()
    } else {
        r.username@ + (match r.password {
            Some(p) => seq![':'] + p@,
            None => Seq::empty(),
        }) + seq!['@']
    }
}

pub open spec fn port_str(p: Option<u16>) -> Seq<char> {
    match p {
        None => Seq::empty(),
        Some(p) => seq![':'] + ascii_view(dec_bytes(p as int)),
    }
}

/// The exact WHATWG-style serialization of a URL.
pub open spec fn spec_url_str(u: &Url) -> Seq<char> {
    u.scheme@ + seq![':'] + (match u.scheme_data {
        SchemeData::NonRelative(d) => d@,
        SchemeData::Relative(r) => seq!['/', '/'] + userinfo_str(&r) + spec_host_str(&r.host)
            + port_str(r.port) + path_str(seg_views(r.path@)),
    }) + (match u.query {
        None => Seq::<char>::empty(),
        Some(q) => seq!['?'] + q@,
    }) + (match u.fragment {
        None => Seq::<char>::empty(),
        Some(f) => seq!['#'] + f@,
    })
}

impl Url {
    /// Serialize the URL.
    pub fn to_string(&self) -> (r: String)
        requires
            url_wf(self),
        ensures
            r@ == spec_url_str(self),
    {
        proof {
            reveal_strlit(":");
            reveal_strlit("//");
            reveal_strlit("@");
            reveal_strlit("/");
            reveal_strlit("?");
            reveal_strlit("#");
        }
        let mut out = String::new();
        out.append(self.scheme.as_str());
        out.append(":");
        proof {
            assert(out@ =~= self.scheme@ + seq![':']);
        }
        let ghost head = self.scheme@ + seq![':'];
        match &self.scheme_data {
            SchemeData::NonRelative(d) => {
                out.append(d.as_str());
                proof {
                    assert(out@ =~= head + d@);
                }
            },
            SchemeData::Relative(r) => {
                out.append("//");
                if !r.username.as_str().is_empty() || r.password.is_some() {
                    out.append(r.username.as_str());
                    match &r.password {
                        Some(p) => {
                            out.append(":");
                            out.append(p.as_str());
                        },
                        None => {},
                    }
                    out.append("@");
                }
                proof {
                    assert(out@ =~= head + seq!['/', '/'] + userinfo_str(r));
                }
                let ghost to_host = head + seq!['/', '/'] + userinfo_str(r);
                let h = r.host.serialize();
                out.append(h.as_str());
                match r.port {
                    Some(p) => {
                        out.append(":");
                        let mut digits: Vec<u8> = Vec::new();
                        strutil::push_dec(p as u32, &mut digits);
                        proof {
                            strutil::lemma_dec_bytes_ascii(p as int);
                        }
                        let ds = strutil::ascii_to_string(digits.as_slice());
                        out.append(ds.as_str());
                    },
                    None => {},
                }
                proof {
                    assert(out@ =~= to_host + spec_host_str(&r.host) + port_str(r.port));
                }
                let ghost to_path = to_host + spec_host_str(&r.host) + port_str(r.port);
                let ghost views = seg_views(r.path@);
                let mut i: usize = 0;
                proof {
                    assert(views.skip(0) =~= views);
                }
                while i < r.path.len()
                    invariant
                        i <= r.path@.len(),
                        views == seg_views(r.path@),
                        "/"@ == seq!['/'],
                        out@ + path_str(views.skip(i as int)) == to_path + path_str(views),
                    decreases r.path@.len() - i,
                {
                    let ghost restv = views.skip(i as int);
                    let ghost pre = out@;
                    out.append("/");
                    out.append(r.path[i].as_str());
                    proof {
                        assert(restv[0] == views[i as int]);
                        assert(views[i as int] == r.path@[i as int]@);
                        assert(restv.skip(1) =~= views.skip(i as int + 1));
                        assert(out@ =~= pre + seq!['/'] + restv[0]);
                        assert(pre + path_str(restv) =~= out@ + path_str(restv.skip(1)));
                    }
                    i += 1;
                }
                proof {
                    assert(views.skip(views.len() as int) =~= Seq::<Seq<char>>::empty());
                    assert(out@ + path_str(Seq::empty()) =~= out@);
                }
            },
        }
        let ghost to_query = head + (match &self.scheme_data {
            SchemeData::NonRelative(d) => d@,
            SchemeData::Relative(r) => seq!['/', '/'] + userinfo_str(r) + spec_host_str(&r.host)
                + port_str(r.port) + path_str(seg_views(r.path@)),
        });
        proof {
            assert(out@ =~= to_query);
        }
        match &self.query {
            Some(q) => {
                out.append("?");
                out.append(q.as_str());
            },
            None => {},
        }
        match &self.fragment {
            Some(f) => {
                out.append("#");
                out.append(f.as_str());
            },
            None => {},
        }
        proof {
            assert(out@ =~= spec_url_str(self));
        }
        out
    }

    /// The URL's scheme.
    pub fn scheme(&self) -> (r: &str)
        ensures
            r@ == self.scheme@,
    {
        self.scheme.as_str()
    }

    /// The host, for a hierarchical URL.
    pub fn host(&self) -> (r: Option<&Host>)
        ensures
            match self.scheme_data {
                SchemeData::Relative(rsd) => r matches Some(h) && *h == rsd.host,
                SchemeData::NonRelative(_) => r is None,
            },
    {
        match &self.scheme_data {
            SchemeData::Relative(rsd) => Some(&rsd.host),
            SchemeData::NonRelative(_) => None,
        }
    }

    /// The explicit port, for a hierarchical URL.
    pub fn port(&self) -> (r: Option<u16>)
        ensures
            match self.scheme_data {
                SchemeData::Relative(rsd) => r == rsd.port,
                SchemeData::NonRelative(_) => r is None,
            },
    {
        match &self.scheme_data {
            SchemeData::Relative(rsd) => rsd.port,
            SchemeData::NonRelative(_) => None,
        }
    }

    /// The path segments, for a hierarchical URL.
    pub fn path(&self) -> (r: Option<&Vec<String>>)
        ensures
            match self.scheme_data {
                SchemeData::Relative(rsd) => r matches Some(p) && *p == rsd.path,
                SchemeData::NonRelative(_) => r is None,
            },
    {
        match &self.scheme_data {
            SchemeData::Relative(rsd) => Some(&rsd.path),
            SchemeData::NonRelative(_) => None,
        }
    }

    /// The path segments of a hierarchical URL, for in-place change. The
    /// caller owns keeping the segments well formed.
    pub fn path_mut(&mut self) -> (r: Option<&mut Vec<String>>)
        ensures
            match old(self).scheme_data {
                SchemeData::Relative(_) => r is Some,
                SchemeData::NonRelative(_) => r is None && *final(self) == *old(self),
            },
            match (old(self).scheme_data, final(self).scheme_data) {
                (SchemeData::Relative(o), SchemeData::Relative(n)) => {
                    &&& final(self).scheme == old(self).scheme
                    &&& final(self).query == old(self).query
                    &&& final(self).fragment == old(self).fragment
                    &&& n.username == o.username
                    &&& n.password == o.password
                    &&& n.host == o.host
                    &&& n.port == o.port
                    &&& n.default_port == o.default_port
                },
                (SchemeData::NonRelative(_), SchemeData::NonRelative(_)) => true,
                _ => false,
            },
    {
        match &mut self.scheme_data {
            SchemeData::Relative(rsd) => Some(&mut rsd.path),
            SchemeData::NonRelative(_) => None,
        }
    }

    /// The query string, without its `?`.
    pub fn query(&self) -> (r: Option<&String>)
        ensures
            match self.query {
                Some(q) => r matches Some(x) && *x == q,
                None => r is None,
            },
    {
        self.query.as_ref()
    }

    /// The fragment, without its `#`.
    pub fn fragment(&self) -> (r: Option<&String>)
        ensures
            match self.fragment {
                Some(f) => r matches Some(x) && *x == f,
                None => r is None,
            },
    {
        self.fragment.as_ref()
    }

    /// Set the host from host text, which is parsed and validated first as
    /// the scheme demands: the URL either takes the new host whole, or is
    /// left unchanged, failing as host parsing fails.
    pub fn set_host(&mut self, host: &str) -> (r: Result<(), ParseError>)
        ensures
            ({
                let hb = vstd::utf8::encode_utf8(host@);
                let special = is_special_scheme(old(self).scheme@);
                let bracket = hb.len() >= 1 && hb[0] == 0x5b;
                match old(self).scheme_data {
                    SchemeData::NonRelative(_) => r is Err && *final(self) == *old(self),
                    SchemeData::Relative(o) => match r {
                        Err(e) => {
                            &&& *final(self) == *old(self)
                            &&& (special && !bracket ==> crate::host::special_host_post(
                                hb,
                                Err(e),
                            ))
                            &&& (!special && !bracket ==> crate::host::opaque_host_post(
                                hb,
                                Err(e),
                            ))
                        },
                        Ok(_) => match final(self).scheme_data {
                            SchemeData::Relative(n) => {
                                &&& final(self).scheme == old(self).scheme
                                &&& final(self).query == old(self).query
                                &&& final(self).fragment == old(self).fragment
                                &&& crate::host::host_wf(&n.host)
                                &&& (special && !bracket ==> crate::host::special_host_post(
                                    hb,
                                    Ok(n.host),
                                ))
                                &&& (!special && !bracket ==> crate::host::opaque_host_post(
                                    hb,
                                    Ok(n.host),
                                ))
                                &&& (bracket ==> n.host is Ipv6)
                                &&& n.username == o.username
                                &&& n.password == o.password
                                &&& n.port == o.port
                                &&& n.default_port == o.default_port
                                &&& n.path == o.path
                            },
                            SchemeData::NonRelative(_) => false,
                        },
                    },
                }
            }),
    {
        let special = is_special_exec(&self.scheme);
        match &mut self.scheme_data {
            SchemeData::Relative(rsd) => {
                match crate::host::parse_host(host.as_bytes(), special) {
                    Ok(h) => {
                        rsd.host = h;
                        Ok(())
                    },
                    Err(e) => Err(e),
                }
            },
            SchemeData::NonRelative(_) => Err(ParseError::MalformedAuthority),
        }
    }

    /// Set the port. Fails, changing nothing, on a non-hierarchical URL; an
    /// explicit port equal to the scheme's default is stored as no port.
    pub fn set_port(&mut self, port: Option<u16>) -> (r: Result<(), ()>)
        ensures
            match old(self).scheme_data {
                SchemeData::NonRelative(_) => r is Err && *final(self) == *old(self),
                SchemeData::Relative(o) => r is Ok && match final(self).scheme_data {
                    SchemeData::Relative(n) => {
                        &&& final(self).scheme == old(self).scheme
                        &&& final(self).query == old(self).query
                        &&& final(self).fragment == old(self).fragment
                        &&& n.username == o.username
                        &&& n.password == o.password
                        &&& n.host == o.host
                        &&& n.path == o.path
                        &&& n.default_port == o.default_port
                        &&& n.port == (if port == o.default_port {
                            None
                        } else {
                            port
                        })
                    },
                    SchemeData::NonRelative(_) => false,
                },
            },
    {
        match &mut self.scheme_data {
            SchemeData::Relative(rsd) => {
                let normalized = match (port, rsd.default_port) {
                    (Some(p), Some(d)) => if p == d {
                        None
                    } else {
                        Some(p)
                    },
                    (p, _) => p,
                };
                rsd.port = normalized;
                Ok(())
            },
            SchemeData::NonRelative(_) => Err(()),
        }
    }
}

pub proof fn lemma_ascii_chars_view(b: Seq<u8>)
    requires
        all_ascii(b),
    ensures
        ascii_chars(ascii_view(b)),
{
    assert forall|i: int| 0 <= i < ascii_view(b).len() implies (
        #[trigger] ascii_view(b)[i] as u32) < 0x80 by {
        assert(((b[i] as u32) as char) as u32 == b[i] as u32);
    }
}

/// Percent-encode a component and store it as text.
fn encode_component(bytes: &[u8], set: EncodeSet) -> (r: String)
    ensures
        r@ == ascii_view(percent::spec_encode(bytes@, set)),
        ascii_chars(r@),
{
    let encoded = percent::encode(bytes, set);
    proof {
        percent::lemma_encode_ascii(bytes@, set);
        lemma_ascii_chars_view(encoded@);
    }
    strutil::ascii_to_string(encoded.as_slice())
}

/// Percent-encode a path segment; the input holds no `/`, so neither does
/// the result.
pub(crate) fn encode_segment(bytes: &[u8]) -> (r: String)
    requires
        forall|i: int| 0 <= i < bytes@.len() ==> bytes@[i] != 0x2f,
    ensures
        r@ == ascii_view(percent::spec_encode(bytes@, EncodeSet::Path)),
        wf_seg(r@),
{
    let r = encode_component(bytes, EncodeSet::Path);
    proof {
        percent::lemma_encode_no_slash(bytes@, EncodeSet::Path);
        let out = percent::spec_encode(bytes@, EncodeSet::Path);
        assert forall|i: int| 0 <= i < r@.len() implies {
            let u = #[trigger] r@[i] as u32;
            u < 0x80 && u != 0x2f
        } by {
            assert(r@[i] == (out[i] as u32) as char);
            assert(((out[i] as u32) as char) as u32 == out[i] as u32);
        }
    }
    r
}

/// The input with leading C0 controls and spaces gone.
pub open spec fn trim_left(s: Seq<u8>) -> Seq<u8>
    decreases s.len(),
{
    if s.len() > 0 && s[0] <= 0x20 {
        trim_left(s.skip(1))
    } else {
        s
    }
}

/// The input with trailing C0 controls and spaces gone.
pub open spec fn trim_right(s: Seq<u8>) -> Seq<u8>
    decreases s.len(),
{
    if s.len() > 0 && s[s.len() - 1] <= 0x20 {
        trim_right(s.take(s.len() - 1))
    } else {
        s
    }
}

/// The input with every tab, line feed and carriage return gone.
pub open spec fn strip_ctl(s: Seq<u8>) -> Seq<u8>
    decreases s.len(),
{
    if s.len() == 0 {
        Seq::empty()
    } else {
        (if s[0] == 0x09 || s[0] == 0x0a || s[0] == 0x0d {
            Seq::empty()
        } else {
            seq![s[0]]
        }) + strip_ctl(s.skip(1))
    }
}

/// What the parser works on: the input trimmed of leading and trailing C0
/// controls and spaces, with tab, line feed and carriage return removed.
pub open spec fn spec_clean(s: Seq<u8>) -> Seq<u8> {
    strip_ctl(trim_right(trim_left(s)))
}

/// Drop tab, line feed and carriage return, and trim leading and trailing
/// C0 controls and spaces.
fn clean_input(s: &[u8]) -> (out: Vec<u8>)
    ensures
        out@ == spec_clean(s@),
{
    let n = s.len();
    let mut start: usize = 0;
    proof {
        assert(s@.skip(0) =~= s@);
    }
    while start < n && s[start] <= 0x20
        invariant
            start <= n == s@.len(),
            trim_left(s@) == trim_left(s@.skip(start as int)),
        decreases n - start,
    {
        proof {
            assert(s@.skip(start as int)[0] == s@[start as int]);
            assert(s@.skip(start as int).skip(1) =~= s@.skip(start as int + 1));
        }
        start += 1;
    }
    proof {
        assert(trim_left(s@) =~= s@.skip(start as int));
    }
    let mut end: usize = n;
    proof {
        assert(s@.subrange(start as int, n as int) =~= s@.skip(start as int));
    }
    while end > start && s[end - 1] <= 0x20
        invariant
            start <= end <= n == s@.len(),
            trim_right(s@.skip(start as int)) == trim_right(
                s@.subrange(start as int, end as int),
            ),
        decreases end,
    {
        let ghost cur = s@.subrange(start as int, end as int);
        proof {
            assert(cur[cur.len() - 1] == s@[end - 1]);
            assert(cur.take(cur.len() - 1) =~= s@.subrange(start as int, end as int - 1));
        }
        end -= 1;
    }
    proof {
        assert(trim_right(s@.skip(start as int)) =~= s@.subrange(start as int, end as int));
    }
    let mut out: Vec<u8> = Vec::new();
    let mut i = start;
    let ghost trimmed = s@.subrange(start as int, end as int);
    proof {
        assert(trimmed.skip(0) =~= trimmed);
    }
    while i < end
        invariant
            start <= i <= end <= s@.len(),
            trimmed == s@.subrange(start as int, end as int),
            strip_ctl(trimmed) == out@ + strip_ctl(s@.subrange(i as int, end as int)),
        decreases end - i,
    {
        let ghost rest = s@.subrange(i as int, end as int);
        let ghost pre = out@;
        let b = s[i];
        if b != 0x09 && b != 0x0a && b != 0x0d {
            out.push(b);
        }
        proof {
            assert(rest[0] == s@[i as int]);
            assert(rest.skip(1) =~= s@.subrange(i as int + 1, end as int));
            assert(pre + strip_ctl(rest) =~= out@ + strip_ctl(rest.skip(1)));
        }
        i += 1;
    }
    proof {
        assert(strip_ctl(s@.subrange(end as int, end as int)) =~= Seq::<u8>::empty());
        assert(out@ + Seq::<u8>::empty() =~= out@);
    }
    out
}

pub open spec fn scheme_byte_ok(b: u8) -> bool {
    (0x41 <= b <= 0x5a) || (0x61 <= b <= 0x7a) || (0x30 <= b <= 0x39) || b == 0x2b || b == 0x2d
        || b == 0x2e
}

/// Scan for the `:` ending a scheme, from `i` on.
pub open spec fn scheme_scan(s: Seq<u8>, i: int) -> int
    decreases s.len() - i when 0 <= i <= s.len()
{
    if i < 0 || i >= s.len() {
        -1
    } else if s[i] == 0x3a {
        i
    } else if scheme_byte_ok(s[i]) {
        scheme_scan(s, i + 1)
    } else {
        -1
    }
}

/// Position of the `:` ending a well-formed scheme, or -1 where the input
/// starts with no scheme.
pub open spec fn spec_scheme_end(s: Seq<u8>) -> int {
    if s.len() > 0 && ((0x41 <= s[0] <= 0x5a) || (0x61 <= s[0] <= 0x7a)) {
        scheme_scan(s, 1)
    } else {
        -1
    }
}

/// Position of the `:` ending a well-formed scheme, if the input starts
/// with one.
fn find_scheme_end(s: &[u8]) -> (r: Option<usize>)
    ensures
        match r {
            Some(e) => e == spec_scheme_end(s@) && 1 <= e < s@.len() && s@[e as int] == 0x3a && ((
            0x41 <= s@[0] <= 0x5a) || (0x61 <= s@[0] <= 0x7a)) && forall|i: int|
                0 <= i < e ==> scheme_byte_ok(#[trigger] s@[i]),
            None => spec_scheme_end(s@) < 0,
        },
{
    let n = s.len();
    if n == 0 {
        return None;
    }
    let b0 = s[0];
    if !((0x41 <= b0 && b0 <= 0x5a) || (0x61 <= b0 && b0 <= 0x7a)) {
        return None;
    }
    let mut i: usize = 1;
    while i < n
        invariant
            1 <= i <= n == s@.len(),
            b0 == s@[0] && ((0x41 <= b0 <= 0x5a) || (0x61 <= b0 <= 0x7a)),
            scheme_scan(s@, 1) == scheme_scan(s@, i as int),
            forall|k: int| 0 <= k < i ==> scheme_byte_ok(#[trigger] s@[k]),
        decreases n - i,
    {
        let b = s[i];
        if b == 0x3a {
            proof {
                assert(s@[0] == b0);
                assert(s@[i as int] == 0x3a);
                assert(scheme_scan(s@, i as int) == i);
            }
            return Some(i);
        }
        if !((0x41 <= b && b <= 0x5a) || (0x61 <= b && b <= 0x7a) || (0x30 <= b && b <= 0x39)
            || b == 0x2b || b == 0x2d || b == 0x2e) {
            proof {
                assert(scheme_scan(s@, i as int) == -1);
            }
            return None;
        }
        i += 1;
    }
    proof {
        assert(scheme_scan(s@, n as int) == -1);
    }
    None
}

/// Lowercase checked scheme bytes into a well-formed scheme string.
fn make_scheme(bytes: &[u8]) -> (r: String)
    requires
        bytes@.len() >= 1,
        (0x41 <= bytes@[0] <= 0x5a) || (0x61 <= bytes@[0] <= 0x7a),
        forall|i: int| 0 <= i < bytes@.len() ==> scheme_byte_ok(#[trigger] bytes@[i]),
    ensures
        wf_scheme(r@),
        r@ == ascii_view(crate::host::lower_bytes(bytes@)),
{
    let mut lower: Vec<u8> = Vec::new();
    let mut i: usize = 0;
    while i < bytes.len()
        invariant
            i <= bytes@.len(),
            lower@.len() == i,
            (0x41 <= bytes@[0] <= 0x5a) || (0x61 <= bytes@[0] <= 0x7a),
            forall|k: int| 0 <= k < bytes@.len() ==> scheme_byte_ok(#[trigger] bytes@[k]),
            forall|k: int| 0 <= k < i ==> {
                let b = #[trigger] lower@[k];
                ((0x61 <= b <= 0x7a) || (0x30 <= b <= 0x39) || b == 0x2b || b == 0x2d || b == 0x2e)
                    && b < 0x80 && b == crate::host::lower_bytes(bytes@)[k]
            },
            i >= 1 ==> 0x61 <= lower@[0] <= 0x7a,
        decreases bytes@.len() - i,
    {
        let b = bytes[i];
        if 0x41 <= b && b <= 0x5a {
            lower.push(b + 0x20);
        } else {
            lower.push(b);
        }
        i += 1;
    }
    let r = strutil::ascii_to_string(lower.as_slice());
    proof {
        assert forall|k: int| 0 <= k < r@.len() implies {
            let u = #[trigger] r@[k] as u32;
            (0x61 <= u <= 0x7a) || (0x30 <= u <= 0x39) || u == 0x2b || u == 0x2d || u == 0x2e
        } by {
            assert(r@[k] == (lower@[k] as u32) as char);
            assert(((lower@[k] as u32) as char) as u32 == lower@[k] as u32);
        }
        assert(r@[0] as u32 == lower@[0] as u32) by {
            assert(((lower@[0] as u32) as char) as u32 == lower@[0] as u32);
        }
        assert(lower@ =~= crate::host::lower_bytes(bytes@));
    }
    r
}

fn default_port_exec(s: &String) -> (r: Option<u16>)
    ensures
        r == default_port_of(s@),
{
    if s.eq(&String::from_str("http")) {
        Some(80)
    } else if s.eq(&String::from_str("https")) {
        Some(443)
    } else if s.eq(&String::from_str("ws")) {
        Some(80)
    } else if s.eq(&String::from_str("wss")) {
        Some(443)
    } else if s.eq(&String::from_str("ftp")) {
        Some(21)
    } else {
        None
    }
}

fn is_file_exec(s: &String) -> (r: bool)
    ensures
        r == (s@ == "file"@),
{
    s.eq(&String::from_str("file"))
}

fn is_special_exec(s: &String) -> (r: bool)
    ensures
        r == is_special_scheme(s@),
{
    default_port_exec(s).is_some() || is_file_exec(s)
}

pub open spec fn all_digits(s: Seq<u8>) -> bool {
    forall|i: int| 0 <= i < s.len() ==> 0x30 <= #[trigger] s[i] <= 0x39
}

/// The number a digit string names.
pub open spec fn dec_value(s: Seq<u8>) -> int
    decreases s.len(),
{
    if s.len() == 0 {
        0
    } else {
        dec_value(s.take(s.len() - 1)) * 10 + (s[s.len() - 1] - 0x30)
    }
}

proof fn lemma_dec_value_nonneg(s: Seq<u8>)
    requires
        all_digits(s),
    ensures
        dec_value(s) >= 0,
    decreases s.len(),
{
    if s.len() > 0 {
        assert(forall|i: int| 0 <= i < s.len() - 1 ==> s.take(s.len() - 1)[i] == s[i]);
        lemma_dec_value_nonneg(s.take(s.len() - 1));
    }
}

proof fn lemma_dec_value_monotonic(s: Seq<u8>, i: int)
    requires
        all_digits(s),
        0 <= i <= s.len(),
    ensures
        dec_value(s) >= dec_value(s.take(i)),
    decreases s.len() - i,
{
    if i < s.len() {
        lemma_dec_value_monotonic(s, i + 1);
        assert(s.take(i + 1).take(i) =~= s.take(i));
        assert(s.take(i + 1)[i] == s[i]);
        assert(forall|k: int| 0 <= k < i ==> s.take(i)[k] == s[k]);
        lemma_dec_value_nonneg(s.take(i));
    } else {
        assert(s.take(i) =~= s);
    }
}

/// Read a port: an empty string means none; exactly the digit strings whose
/// value stays below 65536 succeed.
fn parse_port_bytes(s: &[u8]) -> (r: Result<Option<u16>, ParseError>)
    ensures
        match r {
            Ok(None) => s@.len() == 0,
            Ok(Some(p)) => s@.len() > 0 && all_digits(s@) && p as int == dec_value(s@),
            Err(e) => e == ParseError::InvalidPort && s@.len() > 0 && (!all_digits(s@)
                || dec_value(s@) > 65535),
        },
{
    if s.len() == 0 {
        return Ok(None);
    }
    let mut acc: u32 = 0;
    let mut i: usize = 0;
    proof {
        assert(s@.take(0) =~= Seq::<u8>::empty());
    }
    while i < s.len()
        invariant
            i <= s@.len(),
            s@.len() > 0,
            acc <= 65535,
            acc as int == dec_value(s@.take(i as int)),
            forall|k: int| 0 <= k < i ==> 0x30 <= #[trigger] s@[k] <= 0x39,
        decreases s@.len() - i,
    {
        let b = s[i];
        if !(0x30 <= b && b <= 0x39) {
            proof {
                assert(!all_digits(s@));
            }
            return Err(ParseError::InvalidPort);
        }
        acc = acc * 10 + (b - 0x30) as u32;
        proof {
            assert(s@.take(i as int + 1).take(i as int) =~= s@.take(i as int));
            assert(s@.take(i as int + 1)[i as int] == s@[i as int]);
        }
        if acc > 65535 {
            proof {
                if all_digits(s@) {
                    lemma_dec_value_monotonic(s@, i as int + 1);
                }
            }
            return Err(ParseError::InvalidPort);
        }
        i += 1;
    }
    proof {
        assert(s@.take(s@.len() as int) =~= s@);
    }
    Ok(Some(acc as u16))
}

/// Parse `[userinfo@]host[:port]` up to the end of the authority, which the
/// result's last field points one past.
fn parse_authority(b: &[u8], start: usize, special: bool, is_file: bool, default_port: Option<
    u16,
>) -> (r: Result<(String, Option<String>, Host, Option<u16>, usize), ParseError>)
    requires
        start <= b@.len(),
    ensures
        match r {
            Ok(t) => {
                &&& ascii_chars(t.0@)
                &&& match t.1 {
                    Some(p) => ascii_chars(p@),
                    None => true,
                }
                &&& host_wf(&t.2)
                &&& match t.3 {
                    Some(p) => default_port != Some(p),
                    None => true,
                }
                &&& start <= t.4 <= b@.len()
            },
            Err(_) => true,
        },
{
    let n = b.len();
    let mut e = start;
    while e < n && !(b[e] == 0x2f || b[e] == 0x3f || b[e] == 0x23 || (special && b[e] == 0x5c))
        invariant
            start <= e <= n == b@.len(),
        decreases n - e,
    {
        e += 1;
    }
    // The last `@` splits userinfo from host.
    let mut at: Option<usize> = None;
    let mut i = start;
    while i < e
        invariant
            start <= i <= e <= b@.len(),
            match at {
                Some(j) => start <= j < i,
                None => true,
            },
        decreases e - i,
    {
        if b[i] == 0x40 {
            at = Some(i);
        }
        i += 1;
    }
    let (username, password, host_start): (String, Option<String>, usize) = match at {
        Some(j) => {
            let mut colon: Option<usize> = None;
            let mut k = start;
            while k < j
                invariant
                    start <= k <= j,
                    j < b@.len(),
                    match colon {
                        Some(c) => start <= c < k,
                        None => true,
                    },
                decreases j - k,
            {
                if b[k] == 0x3a && colon.is_none() {
                    colon = Some(k);
                }
                k += 1;
            }
            match colon {
                Some(c) => {
                    let u = strutil::sub_bytes(b, start, c);
                    let p = strutil::sub_bytes(b, c + 1, j);
                    (
                        encode_component(u.as_slice(), EncodeSet::UserInfo),
                        Some(encode_component(p.as_slice(), EncodeSet::UserInfo)),
                        j + 1,
                    )
                },
                None => {
                    let u = strutil::sub_bytes(b, start, j);
                    (encode_component(u.as_slice(), EncodeSet::UserInfo), None, j + 1)
                },
            }
        },
        None => (String::new(), None, start),
    };
    if host_start == e {
        if special && !is_file {
            return Err(ParseError::MalformedAuthority);
        }
        let host = if special {
            Host::Domain(String::new())
        } else {
            Host::OpaqueHost(String::new())
        };
        return Ok((username, password, host, None, e));
    }
    // The port colon comes after a bracketed IPv6 host's closing bracket.
    let search_from: usize = if b[host_start] == 0x5b {
        let mut k = host_start;
        let mut rb: Option<usize> = None;
        while k < e
            invariant
                host_start <= k <= e <= b@.len(),
                match rb {
                    Some(j) => host_start <= j < e,
                    None => true,
                },
            decreases e - k,
        {
            if b[k] == 0x5d {
                rb = Some(k);
                break ;
            }
            k += 1;
        }
        match rb {
            Some(j) => j + 1,
            None => {
                return Err(ParseError::InvalidIpv6Address);
            },
        }
    } else {
        host_start
    };
    let mut colon: Option<usize> = None;
    let mut k = search_from;
    while k < e
        invariant
            search_from <= k <= e <= b@.len(),
            match colon {
                Some(c) => search_from <= c < e,
                None => true,
            },
        decreases e - k,
    {
        if b[k] == 0x3a {
            colon = Some(k);
            break ;
        }
        k += 1;
    }
    let host_end = match colon {
        Some(c) => c,
        None => e,
    };
    proof {
        assert(host_start <= host_end <= e);
    }
    if host_end == host_start && special && !is_file {
        return Err(ParseError::MalformedAuthority);
    }
    let hostb = strutil::sub_bytes(b, host_start, host_end);
    let host = match crate::host::parse_host(hostb.as_slice(), special) {
        Ok(h) => h,
        Err(err) => {
            return Err(err);
        },
    };
    let port = match colon {
        Some(c) => {
            let pb = strutil::sub_bytes(b, c + 1, e);
            match parse_port_bytes(pb.as_slice()) {
                Ok(p) => p,
                Err(err) => {
                    return Err(err);
                },
            }
        },
        None => None,
    };
    let port = match (port, default_port) {
        (Some(p), Some(d)) => if p == d {
            None
        } else {
            Some(p)
        },
        (p, _) => p,
    };
    Ok((username, password, host, port, e))
}

fn is_drive_string(s: &String) -> (r: bool) {
    let bs = s.as_str().as_bytes();
    bs.len() == 2 && ((0x41 <= bs[0] && bs[0] <= 0x5a) || (0x61 <= bs[0] && bs[0] <= 0x7a))
        && bs[1] == 0x3a
}

/// Split and normalize a path: `.` is dropped, `..` pops (sparing a file
/// drive), trailing dot segments keep a trailing slash, and every other
/// segment is stored percent-encoded.
fn parse_path(b: &[u8], start: usize, special: bool, is_file: bool, init: Vec<String>) -> (r: (
    Vec<String>,
    usize,
))
    requires
        start <= b@.len(),
        forall|i: int| 0 <= i < init@.len() ==> wf_seg(#[trigger] init@[i]@),
    ensures
        r.0@.len() >= 1,
        forall|i: int| 0 <= i < r.0@.len() ==> wf_seg(#[trigger] r.0@[i]@),
        start <= r.1 <= b@.len(),
        r.1 < b@.len() ==> (b@[r.1 as int] == 0x3f || b@[r.1 as int] == 0x23),
{
    let n = b.len();
    let mut path = init;
    let mut pos = start;
    loop
        invariant
            start <= pos <= n == b@.len(),
            forall|i: int| 0 <= i < path@.len() ==> wf_seg(#[trigger] path@[i]@),
        decreases n - pos,
    {
        let mut j = pos;
        while j < n && !(b[j] == 0x2f || b[j] == 0x3f || b[j] == 0x23 || (special && b[j] == 0x5c))
            invariant
                pos <= j <= n == b@.len(),
                forall|k: int| pos <= k < j ==> b@[k] != 0x2f,
            decreases n - j,
        {
            j += 1;
        }
        let is_final = j == n || b[j] == 0x3f || b[j] == 0x23;
        let seg = strutil::sub_bytes(b, pos, j);
        if seg.len() == 2 && seg[0] == 0x2e && seg[1] == 0x2e {
            let can_pop = if path.len() == 1 && is_file {
                !is_drive_string(&path[0])
            } else {
                path.len() > 0
            };
            if can_pop && path.len() > 0 {
                let _last = path.pop();
            }
            if is_final {
                path.push(String::new());
            }
        } else if seg.len() == 1 && seg[0] == 0x2e {
            if is_final {
                path.push(String::new());
            }
        } else if is_file && path.len() == 0 && seg.len() == 2 && ((0x41 <= seg[0] && seg[0]
            <= 0x5a) || (0x61 <= seg[0] && seg[0] <= 0x7a)) && (seg[1] == 0x3a || seg[1] == 0x7c) {
            // A drive letter: normalized to `X:`.
            let mut d: Vec<u8> = Vec::new();
            d.push(seg[0]);
            d.push(0x3a);
            let ds = strutil::ascii_to_string(d.as_slice());
            proof {
                assert forall|i: int| 0 <= i < ds@.len() implies {
                    let u = #[trigger] ds@[i] as u32;
                    u < 0x80 && u != 0x2f
                } by {
                    assert(ds@[i] == (d@[i] as u32) as char);
                    assert(((d@[i] as u32) as char) as u32 == d@[i] as u32);
                }
            }
            path.push(ds);
        } else {
            path.push(encode_segment(seg.as_slice()));
        }
        if is_final {
            if path.len() == 0 {
                path.push(String::new());
            }
            return (path, j);
        }
        pos = j + 1;
    }
}

/// Read `[?query][#fragment]` from a path terminator onward.
fn parse_query_fragment(b: &[u8], pos: usize) -> (r: (Option<String>, Option<String>))
    requires
        pos <= b@.len(),
    ensures
        match r.0 {
            Some(q) => ascii_chars(q@),
            None => true,
        },
        match r.1 {
            Some(f) => ascii_chars(f@),
            None => true,
        },
{
    let n = b.len();
    if pos >= n {
        return (None, None);
    }
    if b[pos] == 0x3f {
        let mut h = pos + 1;
        while h < n && b[h] != 0x23
            invariant
                pos + 1 <= h <= n == b@.len(),
            decreases n - h,
        {
            h += 1;
        }
        let qb = strutil::sub_bytes(b, pos + 1, h);
        let query = Some(encode_component(qb.as_slice(), EncodeSet::Query));
        if h < n {
            let fb = strutil::sub_bytes(b, h + 1, n);
            (query, Some(encode_component(fb.as_slice(), EncodeSet::Simple)))
        } else {
            (query, None)
        }
    } else if b[pos] == 0x23 {
        let fb = strutil::sub_bytes(b, pos + 1, n);
        (None, Some(encode_component(fb.as_slice(), EncodeSet::Simple)))
    } else {
        (None, None)
    }
}

fn clone_opt_string(o: &Option<String>) -> (r: Option<String>)
    ensures
        match (&r, o) {
            (Some(x), Some(y)) => x@ == y@,
            (None, None) => true,
            _ => false,
        },
{
    match o {
        Some(s) => Some(s.clone()),
        None => None,
    }
}

fn clone_path(p: &Vec<String>) -> (r: Vec<String>)
    ensures
        r@.len() == p@.len(),
        forall|i: int| 0 <= i < p@.len() ==> #[trigger] r@[i]@ == p@[i]@,
{
    let mut out: Vec<String> = Vec::new();
    let mut i: usize = 0;
    while i < p.len()
        invariant
            i <= p@.len(),
            out@.len() == i,
            forall|k: int| 0 <= k < i ==> #[trigger] out@[k]@ == p@[k]@,
        decreases p@.len() - i,
    {
        out.push(p[i].clone());
        i += 1;
    }
    out
}

/// A copy of a hierarchical scheme's data, holding the same values.
fn clone_rsd(r: &RelativeSchemeData) -> (out: RelativeSchemeData)
    ensures
        out.username@ == r.username@,
        match (&out.password, &r.password) {
            (Some(x), Some(y)) => x@ == y@,
            (None, None) => true,
            _ => false,
        },
        crate::host::host_eqv(&out.host, &r.host),
        out.host is OpaqueHost <==> r.host is OpaqueHost,
        crate::host::host_wf(&r.host) ==> crate::host::host_wf(&out.host),
        out.port == r.port,
        out.default_port == r.default_port,
        out.path@.len() == r.path@.len(),
        forall|i: int| 0 <= i < r.path@.len() ==> #[trigger] out.path@[i]@ == r.path@[i]@,
{
    RelativeSchemeData {
        username: r.username.clone(),
        password: clone_opt_string(&r.password),
        host: r.host.duplicate(),
        port: r.port,
        default_port: r.default_port,
        path: clone_path(&r.path),
    }
}

/// What every parse promises of its outcome, stated over the cleaned input:
/// the scheme of a success is the input's lowercased scheme (or the base's,
/// for a relative reference); an input with no scheme and no base is exactly
/// the relative-without-base error; and a non-special scheme followed by
/// anything but `//` always succeeds, opaquely.
pub open spec fn parse_post(input: Seq<char>, base: Option<&Url>, r: Result<
    Url,
    ParseError,
>) -> bool {
    let c = spec_clean(vstd::utf8::encode_utf8(input));
    let e = spec_scheme_end(c);
    &&& (r matches Ok(u) ==> url_wf(&u))
    &&& (e < 0 && base is None ==> r == Err::<Url, ParseError>(
        ParseError::RelativeUrlWithoutBase,
    ))
    &&& (e >= 0 ==> (r matches Ok(u) ==> u.scheme@ == ascii_view(
        crate::host::lower_bytes(c.take(e)),
    )))
    &&& (e < 0 ==> (r matches Ok(u) ==> base matches Some(b) && u.scheme@ == b.scheme@))
    &&& ((e >= 0 && !is_special_scheme(ascii_view(crate::host::lower_bytes(c.take(e)))) && !(
    c.len() >= e + 3 && c[e + 1] == 0x2f && c[e + 2] == 0x2f)) ==> (r matches Ok(u)
        && u.scheme_data is NonRelative))
}

/// Parse URL text, possibly against a base.
fn parse_impl(input: &str, base: Option<&Url>) -> (r: Result<Url, ParseError>)
    requires
        match base {
            Some(b) => url_wf(b),
            None => true,
        },
    ensures
        parse_post(input@, base, r),
{
    let cleaned = clean_input(input.as_bytes());
    let b = cleaned.as_slice();
    let n = b.len();
    let ghost c = spec_clean(vstd::utf8::encode_utf8(input@));
    proof {
        assert(b@ == c);
    }
    match find_scheme_end(b) {
        Some(e) => {
            let sb = strutil::sub_bytes(b, 0, e);
            proof {
                assert(sb@ =~= c.take(e as int));
            }
            let scheme = make_scheme(sb.as_slice());
            let pos = e + 1;
            let dp = default_port_exec(&scheme);
            let special = is_special_exec(&scheme);
            let is_file = is_file_exec(&scheme);
            if special {
                // Skip the slashes that introduce the authority.
                let mut s = pos;
                while s < n && (b[s] == 0x2f || b[s] == 0x5c)
                    invariant
                        pos <= s <= n == b@.len(),
                    decreases n - s,
                {
                    s += 1;
                }
                let slashes = s - pos;
                if is_file && slashes < 2 {
                    // No authority: an empty host and an absolute path.
                    let (path, qpos) = parse_path(b, s, true, true, Vec::new());
                    let (query, fragment) = parse_query_fragment(b, qpos);
                    let rsd = RelativeSchemeData {
                        username: String::new(),
                        password: None,
                        host: Host::Domain(String::new()),
                        port: None,
                        default_port: dp,
                        path,
                    };
                    Ok(Url { scheme, scheme_data: SchemeData::Relative(rsd), query, fragment })
                } else {
                    let auth_start = if is_file {
                        pos + 2
                    } else {
                        s
                    };
                    match parse_authority(b, auth_start, true, is_file, dp) {
                        Ok((username, password, host, port, end)) => {
                            let pstart = if end < n && (b[end] == 0x2f || b[end] == 0x5c) {
                                end + 1
                            } else {
                                end
                            };
                            let (path, qpos) = parse_path(b, pstart, true, is_file, Vec::new());
                            let (query, fragment) = parse_query_fragment(b, qpos);
                            let rsd = RelativeSchemeData {
                                username,
                                password,
                                host,
                                port,
                                default_port: dp,
                                path,
                            };
                            Ok(
                                Url {
                                    scheme,
                                    scheme_data: SchemeData::Relative(rsd),
                                    query,
                                    fragment,
                                },
                            )
                        },
                        Err(err) => Err(err),
                    }
                }
            } else if n - pos >= 2 && b[pos] == 0x2f && b[pos + 1] == 0x2f {
                // A non-special scheme with an authority.
                match parse_authority(b, pos + 2, false, false, None) {
                    Ok((username, password, host, port, end)) => {
                        let pstart = if end < n && b[end] == 0x2f {
                            end + 1
                        } else {
                            end
                        };
                        let (path, qpos) = parse_path(b, pstart, false, false, Vec::new());
                        let (query, fragment) = parse_query_fragment(b, qpos);
                        let rsd = RelativeSchemeData {
                            username,
                            password,
                            host,
                            port,
                            default_port: None,
                            path,
                        };
                        proof {
                            assert(default_port_of(scheme@) is None);
                        }
                        Ok(Url { scheme, scheme_data: SchemeData::Relative(rsd), query, fragment })
                    },
                    Err(err) => Err(err),
                }
            } else {
                // Opaque data up to the query or fragment.
                let mut de = pos;
                while de < n && b[de] != 0x3f && b[de] != 0x23
                    invariant
                        pos <= de <= n == b@.len(),
                    decreases n - de,
                {
                    de += 1;
                }
                let db = strutil::sub_bytes(b, pos, de);
                let data = encode_component(db.as_slice(), EncodeSet::Simple);
                let (query, fragment) = parse_query_fragment(b, de);
                Ok(Url { scheme, scheme_data: SchemeData::NonRelative(data), query, fragment })
            }
        },
        None => {
            // No scheme: resolve against the base.
            let base = match base {
                Some(base) => base,
                None => {
                    return Err(ParseError::RelativeUrlWithoutBase);
                },
            };
            let scheme = base.scheme.clone();
            let special = is_special_exec(&scheme);
            let is_file = is_file_exec(&scheme);
            match &base.scheme_data {
                SchemeData::NonRelative(d) => {
                    if n > 0 && b[0] == 0x23 {
                        let (_q, fragment) = parse_query_fragment(b, 0);
                        Ok(
                            Url {
                                scheme,
                                scheme_data: SchemeData::NonRelative(d.clone()),
                                query: clone_opt_string(&base.query),
                                fragment,
                            },
                        )
                    } else {
                        Err(ParseError::RelativeUrlWithoutBase)
                    }
                },
                SchemeData::Relative(rsd) => {
                    if n == 0 {
                        return Ok(
                            Url {
                                scheme,
                                scheme_data: SchemeData::Relative(clone_rsd(rsd)),
                                query: clone_opt_string(&base.query),
                                fragment: None,
                            },
                        );
                    }
                    let c0 = b[0];
                    if c0 == 0x23 {
                        let (_q, fragment) = parse_query_fragment(b, 0);
                        Ok(
                            Url {
                                scheme,
                                scheme_data: SchemeData::Relative(clone_rsd(rsd)),
                                query: clone_opt_string(&base.query),
                                fragment,
                            },
                        )
                    } else if c0 == 0x3f {
                        let (query, fragment) = parse_query_fragment(b, 0);
                        Ok(
                            Url {
                                scheme,
                                scheme_data: SchemeData::Relative(clone_rsd(rsd)),
                                query,
                                fragment,
                            },
                        )
                    } else if c0 == 0x2f || (special && c0 == 0x5c) {
                        if n >= 2 && (b[1] == 0x2f || (special && b[1] == 0x5c)) {
                            // An authority-relative reference.
                            match parse_authority(b, 2, special, is_file, rsd.default_port) {
                                Ok((username, password, host, port, end)) => {
                                    let pstart = if end < n && (b[end] == 0x2f || (special && b[end]
                                        == 0x5c)) {
                                        end + 1
                                    } else {
                                        end
                                    };
                                    let (path, qpos) = parse_path(b, pstart, special, is_file, Vec::new());
                                    let (query, fragment) = parse_query_fragment(b, qpos);
                                    let out = RelativeSchemeData {
                                        username,
                                        password,
                                        host,
                                        port,
                                        default_port: rsd.default_port,
                                        path,
                                    };
                                    Ok(
                                        Url {
                                            scheme,
                                            scheme_data: SchemeData::Relative(out),
                                            query,
                                            fragment,
                                        },
                                    )
                                },
                                Err(err) => Err(err),
                            }
                        } else {
                            // An absolute path on the base's authority.
                            let (path, qpos) = parse_path(b, 1, special, is_file, Vec::new());
                            let (query, fragment) = parse_query_fragment(b, qpos);
                            let mut out = clone_rsd(rsd);
                            out.path = path;
                            Ok(
                                Url {
                                    scheme,
                                    scheme_data: SchemeData::Relative(out),
                                    query,
                                    fragment,
                                },
                            )
                        }
                    } else {
                        // A relative path: drop the base path's last segment.
                        let mut init = clone_path(&rsd.path);
                        if init.len() > 0 {
                            let _last = init.pop();
                        }
                        let (path, qpos) = parse_path(b, 0, special, is_file, init);
                        let (query, fragment) = parse_query_fragment(b, qpos);
                        let mut out = clone_rsd(rsd);
                        out.path = path;
                        Ok(Url { scheme, scheme_data: SchemeData::Relative(out), query, fragment })
                    }
                },
            }
        },
    }
}

/// A URL parser, optionally carrying a base for relative references.
pub struct UrlParser<'a> {
    pub base: Option<&'a Url>,
}

impl<'a> UrlParser<'a> {
    pub fn new() -> (r: UrlParser<'a>)
        ensures
            r.base is None,
    {
        UrlParser { base: None }
    }

    /// Use `base` to resolve relative references.
    pub fn base_url(self, base: &'a Url) -> (r: UrlParser<'a>)
        ensures
            r.base == Some(base),
    {
        UrlParser { base: Some(base) }
    }

    /// Parse URL text; every success is well formed and keyed to the
    /// input's (or the base's) scheme, as [`parse_post`] states.
    pub fn parse(&self, input: &str) -> (r: Result<Url, ParseError>)
        requires
            match self.base {
                Some(b) => url_wf(b),
                None => true,
            },
        ensures
            parse_post(input@, self.base, r),
    {
        parse_impl(input, self.base)
    }
}

impl Url {
    /// Parse absolute URL text.
    pub fn parse(input: &str) -> (r: Result<Url, ParseError>)
        ensures
            parse_post(input@, None, r),
    {
        parse_impl(input, None)
    }

    /// Parse URL text, resolving a relative reference against `base`.
    pub fn parse_with_base(input: &str, base: &Url) -> (r: Result<Url, ParseError>)
        requires
            url_wf(base),
        ensures
            parse_post(input@, Some(base), r),
    {
        parse_impl(input, Some(base))
    }
}

} // verus!
