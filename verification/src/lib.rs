//! A WHATWG-style URL library: percent-encoding, host parsing, the URL
//! parser/serializer state machine, file-path conversion, and the
//! `application/x-www-form-urlencoded` codec.

pub mod charset;
pub mod error;
pub mod filepath;
pub mod fixture;
pub mod form_urlencoded;
pub mod host;
pub mod percent;
pub mod strutil;
pub mod urlparse;

pub use error::ParseError;
pub use filepath::FilePath;
pub use host::{Host, Ipv6Address};
pub use urlparse::{RelativeSchemeData, SchemeData, Url, UrlParser};
