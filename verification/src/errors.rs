//! Error taxonomy: transport failures, wire decode failures, and API-level
//! failures reported by the peer, each kept distinct and never recovered from.
use vstd::prelude::*;

verus! {

/// An API-level failure: the peer answered, but its result envelope carried an
/// error message other than the success sentinel. The message is kept verbatim.
#[derive(Debug, PartialEq, Eq, Clone)]
pub struct ApiError {
    pub error: Vec<u8>,
}

impl ApiError {
    pub fn new(err: Vec<u8>) -> (r: ApiError)
        ensures
            r.error@ == err@,
    {
        ApiError { error: err }
    }
}

/// Every failure a call can surface: a transport I/O failure (message bytes
/// supplied by the transport), a wire decode failure, an API-level failure,
/// or a pagination run whose page index exhausted its numeric range.
#[derive(Debug, PartialEq, Eq, Clone)]
pub enum Error {
    Io(Vec<u8>),
    Decode,
    Api(ApiError),
    PageLimit,
}

} // verus!
