//! The transport boundary: a connected datagram socket supplied by the
//! caller (a UDP socket in production, a scripted double in tests).
use vstd::prelude::*;
use crate::errors::Error;

verus! {

/// One connected datagram transport. Nothing is assumed of what a transport
/// returns: every property the client proves holds whatever bytes come back.
/// The protocol has no request/response correlation, so calls on one
/// transport must be strictly serialized by the caller.
pub trait CjdnsNetSocket {
    /// Sends one datagram and reports how many bytes the transport accepted.
    fn send(&self, buf: &[u8]) -> Result<usize, Error>;

    /// Blocks until one datagram arrives and hands its bytes back.
    fn recv(&self) -> Result<Vec<u8>, Error>;
}

} // verus!
