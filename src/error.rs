//! The kinds of failure that callers of the library see.
use vstd::prelude::*;
use crate::protocol::KeenError;

verus! {

#[derive(Debug)]
pub enum NativeError {
    /// Malformed JSON, or a required field missing.
    ParseError,
    /// The analytics service answered with a failure status.
    UpstreamError(KeenError),
    /// The key/value store failed.
    CacheError(String),
    /// The cache holds nothing under the key.
    CacheMiss,
    /// The network failed or the request timed out.
    TransportError(String),
    /// A credential or a URL is missing.
    ConfigError(String),
    /// An operation was applied to a result of a shape it does not take.
    InvalidShape,
    /// A time that cannot be read or written, or a bound out of range.
    InvalidArgument,
}

} // verus!
