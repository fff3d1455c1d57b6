//! Errors a URL parse can end in. Malformed input never panics: every
//! boundary operation returns one of these instead.

use vstd::prelude::*;

verus! {

/// Why a URL failed to parse.
#[derive(Clone, Copy, Debug, PartialEq, Eq)]
pub enum ParseError {
    /// The input has no scheme and no usable base was supplied.
    RelativeUrlWithoutBase,
    /// The port is not a number below 65536.
    InvalidPort,
    /// The host is a domain that cannot be turned into ASCII.
    InvalidDomain,
    /// A bracketed host is not a well-formed IPv6 address.
    InvalidIpv6Address,
    /// A numeric host is not a well-formed IPv4 address.
    InvalidIpv4Address,
    /// The host holds a code point no host may hold.
    ForbiddenHostCodePoint,
    /// The authority is malformed, such as a special URL with an empty host.
    MalformedAuthority,
}

impl ParseError {
    /// A short text for the error.
    pub fn description(&self) -> (r: &'static str)
        ensures
            r@ == match *self {
                ParseError::RelativeUrlWithoutBase => "relative URL without a base"@,
                ParseError::InvalidPort => "invalid port number"@,
                ParseError::InvalidDomain => "invalid domain"@,
                ParseError::InvalidIpv6Address => "invalid IPv6 address"@,
                ParseError::InvalidIpv4Address => "invalid IPv4 address"@,
                ParseError::ForbiddenHostCodePoint => "forbidden host code point"@,
                ParseError::MalformedAuthority => "malformed authority"@,
            },
{
        match *self {
            ParseError::RelativeUrlWithoutBase => "relative URL without a base",
            ParseError::InvalidPort => "invalid port number",
            ParseError::InvalidDomain => "invalid domain",
            ParseError::InvalidIpv6Address => "invalid IPv6 address",
            ParseError::InvalidIpv4Address => "invalid IPv4 address",
            ParseError::ForbiddenHostCodePoint => "forbidden host code point",
            ParseError::MalformedAuthority => "malformed authority",
        }
    }
}

} // verus!
