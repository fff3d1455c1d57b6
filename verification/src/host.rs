//! An authority's host: a domain name, an IPv4 or IPv6 address, or an
//! opaque host string, with the validation each form demands.
//!
//! Domains are percent-decoded, lowercased and held to the forbidden host
//! code points; an all-numeric domain is re-read as an IPv4 address when it
//! fits, and kept as a domain otherwise. Bracketed hosts are parsed as IPv6.
//! Hosts of non-special schemes stay opaque, percent-encoded.
//!
//! The domain-to-ASCII capability is instantiated here as the identity on
//! ASCII labels: a domain still non-ASCII after percent-decoding fails as an
//! invalid domain, where a Unicode-aware capability would map it.

use vstd::prelude::*;
use crate::error::ParseError;
use crate::percent;
use crate::percent::EncodeSet;
use crate::strutil;
use crate::strutil::{all_ascii, ascii_view, dec_bytes, hex_bytes};

verus! {

/// Eight 16-bit groups.
#[derive(Clone, Copy, Debug, PartialEq, Eq)]
pub struct Ipv6Address {
    pub pieces: [u16; 8],
}

/// A parsed host.
#[derive(Clone, Debug, PartialEq, Eq)]
pub enum Host {
    /// An ASCII, lowercased domain name (possibly empty, for file URLs).
    Domain(String),
    /// A 32-bit IPv4 address.
    Ipv4(u32),
    /// An IPv6 address.
    Ipv6(Ipv6Address),
    /// The percent-encoded host of a non-special URL.
    OpaqueHost(String),
}

/// Bytes no domain may hold: controls, space, and `"#%/:?@[\]`.
pub open spec fn forbidden_domain_byte(b: u8) -> bool {
    b < 0x20 || b == 0x7f || b == 0x20 || b == 0x22 || b == 0x23 || b == 0x25 || b == 0x2f
        || b == 0x3a || b == 0x3f || b == 0x40 || b == 0x5b || b == 0x5c || b == 0x5d
}

/// Bytes no opaque host may hold: as for domains, but `%` stays legal since
/// opaque hosts keep their escapes.
pub open spec fn forbidden_opaque_byte(b: u8) -> bool {
    forbidden_domain_byte(b) && b != 0x25
}

/// A well-formed domain string: ASCII, lowercase, free of forbidden bytes.
pub open spec fn domain_wf(s: Seq<char>) -> bool {
    forall|i: int| 0 <= i < s.len() ==> {
        let u = #[trigger] s[i] as u32;
        u < 0x80 && !forbidden_domain_byte(u as u8) && !(0x41 <= u <= 0x5a)
    }
}

/// A well-formed opaque host string: ASCII.
pub open spec fn opaque_wf(s: Seq<char>) -> bool {
    forall|i: int| 0 <= i < s.len() ==> (#[trigger] s[i] as u32) < 0x80
}

pub open spec fn host_wf(h: &Host) -> bool {
    match h {
        Host::Domain(d) => domain_wf(d@),
        Host::Ipv4(_) => true,
        Host::Ipv6(_) => true,
        Host::OpaqueHost(s) => opaque_wf(s@),
    }
}

/// Dotted-decimal serialization of an IPv4 address.
pub open spec fn ipv4_bytes(n: u32) -> Seq<u8> {
    dec_bytes(n as int / 0x1000000) + seq![0x2eu8] + dec_bytes((n as int / 0x10000) % 256)
        + seq![0x2eu8] + dec_bytes((n as int / 0x100) % 256) + seq![0x2eu8] + dec_bytes(
        n as int % 256,
    )
}

/// Length of the zero run starting at `i`.
pub open spec fn run_len(p: Seq<u16>, i: int) -> int
    decreases p.len() - i when 0 <= i <= p.len()
{
    if i < 0 || i >= p.len() || p[i] != 0 {
        0
    } else {
        1 + run_len(p, i + 1)
    }
}

/// Scan from `i` keeping the first, longest zero run strictly longer than
/// the best so far.
pub open spec fn best_run(p: Seq<u16>, i: int, bs: int, bl: int) -> (int, int)
    decreases p.len() - i when 0 <= i <= p.len()
{
    if i < 0 || i >= p.len() {
        (bs, bl)
    } else {
        let l = run_len(p, i);
        if l > bl {
            best_run(p, i + 1, i, l)
        } else {
            best_run(p, i + 1, bs, bl)
        }
    }
}

/// Colon-separated lowercase-hex groups `from..to`.
pub open spec fn groups_bytes(p: Seq<u16>, from: int, to: int) -> Seq<u8>
    decreases to - from,
{
    if from >= to {
        Seq::empty()
    } else if from == to - 1 {
        hex_bytes(p[from] as int)
    } else {
        hex_bytes(p[from] as int) + seq![0x3au8] + groups_bytes(p, from + 1, to)
    }
}

/// IPv6 serialization: the first longest zero run of two or more groups is
/// compressed to `::`.
pub open spec fn ipv6_bytes(p: Seq<u16>) -> Seq<u8> {
    let r = best_run(p, 0, -1, 1);
    if r.0 < 0 {
        groups_bytes(p, 0, p.len() as int)
    } else {
        groups_bytes(p, 0, r.0) + seq![0x3au8, 0x3au8] + groups_bytes(p, r.0 + r.1, p.len() as int)
    }
}

/// The serialization of a host.
pub open spec fn spec_host_str(h: &Host) -> Seq<char> {
    match h {
        Host::Domain(d) => d@,
        Host::OpaqueHost(s) => s@,
        Host::Ipv4(n) => ascii_view(ipv4_bytes(*n)),
        Host::Ipv6(a) => ascii_view(seq![0x5bu8] + ipv6_bytes(a.pieces@) + seq![0x5du8]),
    }
}

fn is_forbidden_domain_byte(b: u8) -> (r: bool)
    ensures
        r == forbidden_domain_byte(b),
{
    b < 0x20 || b == 0x7f || b == 0x20 || b == 0x22 || b == 0x23 || b == 0x25 || b == 0x2f
        || b == 0x3a || b == 0x3f || b == 0x40 || b == 0x5b || b == 0x5c || b == 0x5d
}

/// Append the serialization of groups `from..to`.
fn push_groups(pieces: &[u16; 8], from: usize, to: usize, out: &mut Vec<u8>)
    requires
        from <= to <= 8,
    ensures
        final(out)@ == old(out)@ + groups_bytes(pieces@, from as int, to as int),
    decreases to - from,
{
    if from >= to {
        assert(out@ =~= old(out)@ + groups_bytes(pieces@, from as int, to as int));
    } else {
        strutil::push_hex(pieces[from], out);
        if from + 1 < to {
            out.push(0x3a);
        }
        push_groups(pieces, from + 1, to, out);
        proof {
            if from + 1 == to {
                assert(groups_bytes(pieces@, from as int + 1, to as int) =~= Seq::<u8>::empty());
            }
            assert(out@ =~= old(out)@ + groups_bytes(pieces@, from as int, to as int));
        }
    }
}

/// Length of the zero run starting at `i`.
fn zero_run(pieces: &[u16; 8], i: usize) -> (l: usize)
    requires
        i <= 8,
    ensures
        l as int == run_len(pieces@, i as int),
        i + l <= 8,
{
    let mut j: usize = i;
    while j < 8
        invariant
            i <= j <= 8,
            run_len(pieces@, i as int) == (j - i) + run_len(pieces@, j as int),
        decreases 8 - j,
    {
        if pieces[j] != 0 {
            return j - i;
        }
        j += 1;
    }
    j - i
}

/// The bracketed serialization of an IPv6 address.
fn ipv6_to_bytes(a: &Ipv6Address) -> (out: Vec<u8>)
    ensures
        out@ == seq![0x5bu8] + ipv6_bytes(a.pieces@) + seq![0x5du8],
{
    let pieces = &a.pieces;
    let mut bs: i32 = -1;
    let mut bl: i32 = 1;
    let mut i: usize = 0;
    while i < 8
        invariant
            i <= 8,
            -1 <= bs < 8,
            bs >= 0 ==> 1 <= bl && bs + bl <= 8,
            bs < 0 ==> bl == 1,
            best_run(pieces@, 0, -1, 1) == best_run(pieces@, i as int, bs as int, bl as int),
        decreases 8 - i,
    {
        let l = zero_run(pieces, i);
        if l > bl as usize {
            bs = i as i32;
            bl = l as i32;
        }
        i += 1;
    }
    let mut out: Vec<u8> = Vec::new();
    out.push(0x5b);
    let ghost r = best_run(pieces@, 0, -1, 1);
    proof {
        assert(r == (bs as int, bl as int));
    }
    if bs < 0 {
        push_groups(pieces, 0, 8, &mut out);
    } else {
        push_groups(pieces, 0, bs as usize, &mut out);
        out.push(0x3a);
        out.push(0x3a);
        push_groups(pieces, (bs + bl) as usize, 8, &mut out);
    }
    out.push(0x5d);
    proof {
        assert(out@ =~= seq![0x5bu8] + ipv6_bytes(a.pieces@) + seq![0x5du8]);
    }
    out
}

/// Two hosts holding the same value.
pub open spec fn host_eqv(a: &Host, b: &Host) -> bool {
    match (a, b) {
        (Host::Domain(x), Host::Domain(y)) => x@ == y@,
        (Host::Ipv4(x), Host::Ipv4(y)) => x == y,
        (Host::Ipv6(x), Host::Ipv6(y)) => x.pieces@ == y.pieces@,
        (Host::OpaqueHost(x), Host::OpaqueHost(y)) => x@ == y@,
        _ => false,
    }
}

impl Host {
    /// A copy holding the same value.
    pub fn duplicate(&self) -> (r: Host)
        ensures
            host_eqv(&r, self),
            host_wf(self) ==> host_wf(&r),
            spec_host_str(&r) == spec_host_str(self),
    {
        match self {
            Host::Domain(d) => Host::Domain(d.clone()),
            Host::Ipv4(n) => Host::Ipv4(*n),
            Host::Ipv6(a) => Host::Ipv6(*a),
            Host::OpaqueHost(s) => Host::OpaqueHost(s.clone()),
        }
    }

    /// Serialize the host as it appears in a URL.
    pub fn serialize(&self) -> (r: String)
        requires
            host_wf(self),
        ensures
            r@ == spec_host_str(self),
    {
        match self {
            Host::Domain(d) => d.clone(),
            Host::OpaqueHost(s) => s.clone(),
            Host::Ipv4(n) => {
                let n = *n;
                let mut out: Vec<u8> = Vec::new();
                strutil::push_dec(n / 0x1000000, &mut out);
                out.push(0x2e);
                strutil::push_dec((n / 0x10000) % 256, &mut out);
                out.push(0x2e);
                strutil::push_dec((n / 0x100) % 256, &mut out);
                out.push(0x2e);
                strutil::push_dec(n % 256, &mut out);
                proof {
                    assert(out@ =~= ipv4_bytes(n));
                    lemma_dec_bytes_parts(n);
                }
                strutil::ascii_to_string(out.as_slice())
            },
            Host::Ipv6(a) => {
                let out = ipv6_to_bytes(a);
                proof {
                    lemma_ipv6_bytes_ascii(a.pieces@);
                    assert(all_ascii(out@));
                }
                strutil::ascii_to_string(out.as_slice())
            },
        }
    }
}

proof fn lemma_dec_bytes_parts(n: u32)
    ensures
        all_ascii(ipv4_bytes(n)),
{
    strutil::lemma_dec_bytes_ascii(n as int / 0x1000000);
    strutil::lemma_dec_bytes_ascii((n as int / 0x10000) % 256);
    strutil::lemma_dec_bytes_ascii((n as int / 0x100) % 256);
    strutil::lemma_dec_bytes_ascii(n as int % 256);
}

proof fn lemma_groups_bytes_ascii(p: Seq<u16>, from: int, to: int)
    ensures
        all_ascii(groups_bytes(p, from, to)),
    decreases to - from,
{
    if from < to {
        strutil::lemma_hex_bytes_ascii(p[from] as int);
        if from < to - 1 {
            lemma_groups_bytes_ascii(p, from + 1, to);
        }
    }
}

proof fn lemma_ipv6_bytes_ascii(p: Seq<u16>)
    ensures
        all_ascii(seq![0x5bu8] + ipv6_bytes(p) + seq![0x5du8]),
{
    let r = best_run(p, 0, -1, 1);
    lemma_groups_bytes_ascii(p, 0, p.len() as int);
    lemma_groups_bytes_ascii(p, 0, r.0);
    lemma_groups_bytes_ascii(p, r.0 + r.1, p.len() as int);
}

/// Lowercase ASCII letters in place of uppercase ones.
fn lowercase(s: &[u8]) -> (out: Vec<u8>)
    ensures
        out@.len() == s@.len(),
        forall|i: int| 0 <= i < s@.len() ==> out@[i] == (if 0x41 <= s@[i] <= 0x5a {
            (s@[i] + 0x20) as u8
        } else {
            s@[i]
        }),
{
    let mut out: Vec<u8> = Vec::new();
    let mut i: usize = 0;
    while i < s.len()
        invariant
            i <= s@.len(),
            out@.len() == i,
            forall|j: int| 0 <= j < i ==> out@[j] == (if 0x41 <= s@[j] <= 0x5a {
                (s@[j] + 0x20) as u8
            } else {
                s@[j]
            }),
        decreases s@.len() - i,
    {
        let b = s[i];
        if 0x41 <= b && b <= 0x5a {
            out.push(b + 0x20);
        } else {
            out.push(b);
        }
        i += 1;
    }
    out
}

/// Value of one IPv4 part, read per its `0x`/`0` radix prefix; `None` when a
/// digit is invalid or the value overflows 32 bits.
fn ipv4_part_value(part: &[u8]) -> (r: Option<u32>) {
    let mut i: usize = 0;
    let mut radix: u64 = 10;
    if part.len() >= 2 && part[0] == 0x30 && (part[1] == 0x78 || part[1] == 0x58) {
        radix = 16;
        i = 2;
    } else if part.len() >= 2 && part[0] == 0x30 {
        radix = 8;
        i = 1;
    }
    if part.len() == 0 {
        return None;
    }
    let mut acc: u64 = 0;
    while i < part.len()
        invariant
            acc <= 0xffff_ffff,
            radix == 8 || radix == 10 || radix == 16,
        decreases part@.len() - i,
    {
        let b = part[i];
        let d: u64 = if 0x30 <= b && b <= 0x39 {
            (b - 0x30) as u64
        } else if radix == 16 && 0x61 <= b && b <= 0x66 {
            (b - 0x61 + 10) as u64
        } else if radix == 16 && 0x41 <= b && b <= 0x46 {
            (b - 0x41 + 10) as u64
        } else {
            return None;
        };
        if d >= radix {
            return None;
        }
        acc = acc * radix + d;
        if acc > 0xffff_ffff {
            return None;
        }
        i += 1;
    }
    Some(acc as u32)
}

/// Attempt to read an all-numeric domain as an IPv4 address; `None` keeps it
/// a domain.
fn try_ipv4(s: &[u8]) -> (r: Option<u32>) {
    if s.len() == 0 {
        return None;
    }
    // Split on dots, allowing one trailing dot.
    let mut parts: Vec<Vec<u8>> = Vec::new();
    let mut start: usize = 0;
    let mut i: usize = 0;
    while i < s.len()
        invariant
            start <= i <= s@.len(),
        decreases s@.len() - i,
    {
        if s[i] == 0x2e {
            parts.push(strutil::sub_bytes(s, start, i));
            start = i + 1;
        }
        i += 1;
    }
    if start < s.len() {
        parts.push(strutil::sub_bytes(s, start, s.len()));
    } else if parts.len() == 0 {
        return None;
    }
    if parts.len() == 0 || parts.len() > 4 {
        return None;
    }
    let mut values: Vec<u32> = Vec::new();
    let mut k: usize = 0;
    while k < parts.len()
        invariant
            k <= parts@.len(),
            values@.len() == k,
        decreases parts@.len() - k,
    {
        match ipv4_part_value(parts[k].as_slice()) {
            Some(v) => values.push(v),
            None => {
                return None;
            },
        }
        k += 1;
    }
    let count = values.len();
    let last = values[count - 1];
    let last_limit: u64 = match count {
        1 => 0x1_0000_0000,
        2 => 0x100_0000,
        3 => 0x1_0000,
        _ => 0x100,
    };
    if (last as u64) >= last_limit {
        return None;
    }
    let mut value: u64 = 0;
    let mut k: usize = 0;
    while k < count - 1
        invariant
            count == values@.len(),
            1 <= count <= 4,
            k <= count - 1,
            value <= 0xff_ff_ff,
        decreases count - 1 - k,
    {
        if values[k] > 0xff {
            return None;
        }
        value = value * 0x100 + (values[k] as u64);
        if value > 0xff_ff_ff {
            return None;
        }
        k += 1;
    }
    // Shift the accumulated prefix past the bytes the last part covers.
    let mut shift: usize = count;
    while shift < 5
        invariant
            value <= 0xffff_ffff,
        decreases 5 - shift,
    {
        value = value * 0x100;
        if value > 0xffff_ffff {
            return None;
        }
        shift += 1;
    }
    let total = value + (last as u64);
    if total > 0xffff_ffff {
        return None;
    }
    Some(total as u32)
}

/// ASCII letters lowered, all else untouched.
pub open spec fn lower_bytes(s: Seq<u8>) -> Seq<u8> {
    Seq::new(
        s.len(),
        |i: int|
            if 0x41 <= s[i] <= 0x5a {
                (s[i] + 0x20) as u8
            } else {
                s[i]
            },
    )
}

/// What parsing a special scheme's non-bracketed host returns: it fails
/// with `InvalidDomain` exactly when percent-decoding leaves a non-ASCII
/// byte, with `ForbiddenHostCodePoint` exactly when a forbidden byte
/// remains, and otherwise yields the lowercased domain — re-read as an IPv4
/// address when its shape allows.
pub open spec fn special_host_post(input: Seq<u8>, r: Result<Host, ParseError>) -> bool {
    let dec = percent::spec_decode(input);
    let low = lower_bytes(dec);
    match r {
        Ok(h) => {
            &&& host_wf(&h)
            &&& !(h is OpaqueHost)
            &&& all_ascii(dec)
            &&& forall|i: int| 0 <= i < low.len() ==> !forbidden_domain_byte(#[trigger] low[i])
            &&& (h matches Host::Domain(d) ==> d@ == ascii_view(low))
        },
        Err(e) => {
            ||| (e == ParseError::InvalidDomain && !all_ascii(dec))
            ||| (e == ParseError::ForbiddenHostCodePoint && all_ascii(dec) && exists|i: int|
                0 <= i < low.len() && forbidden_domain_byte(#[trigger] low[i]))
        },
    }
}

fn all_ascii_bytes(s: &[u8]) -> (r: bool)
    ensures
        r == all_ascii(s@),
{
    let mut i: usize = 0;
    while i < s.len()
        invariant
            i <= s@.len(),
            forall|k: int| 0 <= k < i ==> s@[k] < 0x80,
        decreases s@.len() - i,
    {
        if s[i] >= 0x80 {
            return false;
        }
        i += 1;
    }
    true
}

/// Parse the host of a special scheme: percent-decode, turn to lowercase
/// ASCII, hold to the forbidden code points, and read an all-numeric host
/// as IPv4.
#[verifier::loop_isolation(false)]
fn parse_special_host(input: &[u8]) -> (r: Result<Host, ParseError>)
    ensures
        special_host_post(input@, r),
{
    let ghost dec = percent::spec_decode(input@);
    let decoded = percent::decode(input);
    if !all_ascii_bytes(decoded.as_slice()) {
        // Unicode domain labels are out of scope for the ASCII-only
        // domain-to-ASCII capability.
        return Err(ParseError::InvalidDomain);
    }
    let lower = lowercase(decoded.as_slice());
    proof {
        assert(lower@ =~= lower_bytes(dec));
    }
    let mut i: usize = 0;
    while i < lower.len()
        invariant
            i <= lower@.len(),
            forall|k: int| 0 <= k < i ==> !forbidden_domain_byte(#[trigger] lower@[k]),
        decreases lower@.len() - i,
    {
        if is_forbidden_domain_byte(lower[i]) {
            proof {
                assert(forbidden_domain_byte(lower_bytes(dec)[i as int]));
            }
            return Err(ParseError::ForbiddenHostCodePoint);
        }
        i += 1;
    }
    match try_ipv4(lower.as_slice()) {
        Some(v) => Ok(Host::Ipv4(v)),
        None => {
            let ghost bytes = lower@;
            let s = strutil::ascii_to_string(lower.as_slice());
            proof {
                assert forall|j: int| 0 <= j < s@.len() implies {
                    let u = #[trigger] s@[j] as u32;
                    u < 0x80 && !forbidden_domain_byte(u as u8) && !(0x41 <= u <= 0x5a)
                } by {
                    let b = bytes[j];
                    assert(s@[j] == (b as u32) as char);
                    assert(((b as u32) as char) as u32 == b as u32);
                }
                assert(domain_wf(s@));
            }
            Ok(Host::Domain(s))
        },
    }
}

/// What parsing a non-special scheme's non-bracketed host returns: it fails
/// with `ForbiddenHostCodePoint` exactly when a forbidden byte occurs, and
/// otherwise keeps the host opaque, percent-encoded with the C0 set.
pub open spec fn opaque_host_post(input: Seq<u8>, r: Result<Host, ParseError>) -> bool {
    match r {
        Ok(h) => {
            &&& h matches Host::OpaqueHost(s) && s@ == ascii_view(
                percent::spec_encode(input, EncodeSet::Simple),
            )
            &&& forall|i: int| 0 <= i < input.len() ==> !forbidden_opaque_byte(#[trigger] input[i])
        },
        Err(e) => e == ParseError::ForbiddenHostCodePoint && exists|i: int|
            0 <= i < input.len() && forbidden_opaque_byte(#[trigger] input[i]),
    }
}

/// Parse the host of a non-special scheme: held to the forbidden code
/// points, then kept opaque, percent-encoded with the C0 set.
fn parse_opaque_host(input: &[u8]) -> (r: Result<Host, ParseError>)
    ensures
        opaque_host_post(input@, r),
        r matches Ok(h) ==> host_wf(&h),
{
    let mut i: usize = 0;
    while i < input.len()
        invariant
            i <= input@.len(),
            forall|k: int| 0 <= k < i ==> !forbidden_opaque_byte(#[trigger] input@[k]),
        decreases input@.len() - i,
    {
        let b = input[i];
        if is_forbidden_domain_byte(b) && b != 0x25 {
            proof {
                assert(forbidden_opaque_byte(input@[i as int]));
            }
            return Err(ParseError::ForbiddenHostCodePoint);
        }
        i += 1;
    }
    let encoded = percent::encode(input, EncodeSet::Simple);
    proof {
        percent::lemma_encode_ascii(input@, EncodeSet::Simple);
    }
    let s = strutil::ascii_to_string(encoded.as_slice());
    proof {
        let bytes = percent::spec_encode(input@, EncodeSet::Simple);
        assert forall|j: int| 0 <= j < s@.len() implies (#[trigger] s@[j] as u32) < 0x80 by {
            assert(s@[j] == (bytes[j] as u32) as char);
            assert(((bytes[j] as u32) as char) as u32 == bytes[j] as u32);
        }
    }
    Ok(Host::OpaqueHost(s))
}

/// Hex value of up to four hex digits at `i`; used by the IPv6 parser.
fn parse_ipv6(input: &[u8]) -> (r: Result<Ipv6Address, ParseError>)
    ensures
        r matches Err(e) ==> e == ParseError::InvalidIpv6Address || e
            == ParseError::InvalidIpv4Address,
{
    let mut pieces: [u16; 8] = [0, 0, 0, 0, 0, 0, 0, 0];
    let mut piece_idx: usize = 0;
    let mut compress: Option<usize> = None;
    let mut i: usize = 0;
    let n = input.len();
    if n >= 2 && input[0] == 0x3a && input[1] == 0x3a {
        compress = Some(0);
        i = 2;
    } else if n >= 1 && input[0] == 0x3a {
        return Err(ParseError::InvalidIpv6Address);
    }
    while i < n
        invariant
            n == input@.len(),
            piece_idx <= 8,
            match compress {
                Some(c) => c <= piece_idx,
                None => true,
            },
        decreases n - i,
    {
        if piece_idx == 8 {
            return Err(ParseError::InvalidIpv6Address);
        }
        if input[i] == 0x3a {
            // A second group separator in a row: the one compression run.
            if compress.is_some() {
                return Err(ParseError::InvalidIpv6Address);
            }
            compress = Some(piece_idx);
            i += 1;
            continue ;
        }
        // Read up to four hex digits.
        let mut value: u16 = 0;
        let mut digits: usize = 0;
        let start = i;
        while i < n && digits < 4
            invariant
                n == input@.len(),
                start <= i <= n,
                i == start + digits,
                digits <= 4,
                (value as int) < (if digits == 0 {
                    1int
                } else if digits == 1 {
                    0x10int
                } else if digits == 2 {
                    0x100int
                } else if digits == 3 {
                    0x1000int
                } else {
                    0x10000int
                }),
            decreases n - i,
        {
            let b = input[i];
            let d: u16 = if 0x30 <= b && b <= 0x39 {
                (b - 0x30) as u16
            } else if 0x61 <= b && b <= 0x66 {
                (b - 0x61 + 10) as u16
            } else if 0x41 <= b && b <= 0x46 {
                (b - 0x41 + 10) as u16
            } else {
                break ;
            };
            value = value * 16 + d;
            digits += 1;
            i += 1;
        }
        if digits == 0 {
            return Err(ParseError::InvalidIpv6Address);
        }
        if i < n && input[i] == 0x2e {
            // An embedded IPv4 tail occupies the last two groups.
            if piece_idx > 6 {
                return Err(ParseError::InvalidIpv6Address);
            }
            match parse_ipv6_v4_tail(input, start) {
                Ok((hi, lo)) => {
                    pieces[piece_idx] = hi;
                    pieces[piece_idx + 1] = lo;
                    piece_idx += 2;
                    i = n;
                    break ;
                },
                Err(e) => {
                    return Err(e);
                },
            }
        }
        pieces[piece_idx] = value;
        piece_idx += 1;
        if i < n {
            if input[i] != 0x3a {
                return Err(ParseError::InvalidIpv6Address);
            }
            i += 1;
            if i == n {
                // A trailing lone separator is malformed.
                return Err(ParseError::InvalidIpv6Address);
            }
        }
    }
    match compress {
        Some(c) => {
            // Move the groups after the compression point to the end.
            let tail = piece_idx - c;
            let mut k: usize = 0;
            while k < tail
                invariant
                    tail == piece_idx - c,
                    c <= piece_idx <= 8,
                    k <= tail,
                decreases tail - k,
            {
                pieces[7 - k] = pieces[piece_idx - 1 - k];
                pieces[piece_idx - 1 - k] = 0;
                k += 1;
            }
            Ok(Ipv6Address { pieces })
        },
        None => {
            if piece_idx != 8 {
                return Err(ParseError::InvalidIpv6Address);
            }
            Ok(Ipv6Address { pieces })
        },
    }
}

/// The dotted-decimal IPv4 tail of an IPv6 literal, as two 16-bit groups.
fn parse_ipv6_v4_tail(input: &[u8], start: usize) -> (r: Result<(u16, u16), ParseError>)
    requires
        start <= input@.len(),
    ensures
        r matches Err(e) ==> e == ParseError::InvalidIpv4Address,
{
    let n = input.len();
    let mut nums: Vec<u16> = Vec::new();
    let mut i = start;
    let mut acc: u32 = 0;
    let mut digits: usize = 0;
    while i < n
        invariant
            n == input@.len(),
            i <= n,
            acc <= 255,
            digits <= 3,
            nums@.len() <= 3,
            forall|j: int| 0 <= j < nums@.len() ==> nums@[j] <= 255,
        decreases n - i,
    {
        let b = input[i];
        if 0x30 <= b && b <= 0x39 {
            acc = acc * 10 + (b - 0x30) as u32;
            digits += 1;
            if acc > 255 || digits > 3 {
                return Err(ParseError::InvalidIpv4Address);
            }
        } else if b == 0x2e {
            if digits == 0 || nums.len() >= 3 {
                return Err(ParseError::InvalidIpv4Address);
            }
            nums.push(acc as u16);
            acc = 0;
            digits = 0;
        } else {
            return Err(ParseError::InvalidIpv4Address);
        }
        i += 1;
    }
    if digits == 0 || nums.len() != 3 {
        return Err(ParseError::InvalidIpv4Address);
    }
    nums.push(acc as u16);
    proof {
        assert(nums@[3] <= 255);
    }
    let hi = nums[0] * 0x100 + nums[1];
    let lo = nums[2] * 0x100 + nums[3];
    Ok((hi, lo))
}

/// Parse an authority's host substring. A bracketed host is IPv6; a special
/// scheme's host is a domain or IPv4 address; any other host stays opaque.
pub fn parse_host(input: &[u8], special: bool) -> (r: Result<Host, ParseError>)
    ensures
        match r {
            Ok(h) => host_wf(&h) && (special ==> !(h is OpaqueHost)) && (!special ==> h
                is OpaqueHost || h is Ipv6),
            Err(_) => true,
        },
        special && !(input@.len() >= 1 && input@[0] == 0x5b) ==> special_host_post(input@, r),
        !special && !(input@.len() >= 1 && input@[0] == 0x5b) ==> opaque_host_post(input@, r),
        input@.len() >= 1 && input@[0] == 0x5b ==> match r {
            Ok(h) => h is Ipv6 && input@[input@.len() - 1] == 0x5d,
            Err(e) => e == ParseError::InvalidIpv6Address || e == ParseError::InvalidIpv4Address,
        },
{
    if input.len() >= 1 && input[0] == 0x5b {
        if input[input.len() - 1] != 0x5d {
            return Err(ParseError::InvalidIpv6Address);
        }
        let interior = strutil::sub_bytes(input, 1, input.len() - 1);
        match parse_ipv6(interior.as_slice()) {
            Ok(a) => Ok(Host::Ipv6(a)),
            Err(e) => Err(e),
        }
    } else if special {
        parse_special_host(input)
    } else {
        parse_opaque_host(input)
    }
}

} // verus!
