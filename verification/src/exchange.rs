//! One in-flight query's state, and the handler-chain rule that
//! decides whether the next handler still runs.

use vstd::prelude::*;
use crate::packet::BytePacketBuffer;

verus! {

/// Where an exchange stands: untouched, handled with more handlers
/// allowed, terminally answered, failed on the client socket, or
/// failed upstream with no reply owed.
#[allow(non_camel_case_types)]
#[derive(Debug, Clone, Copy, PartialEq, Eq, Structural)]
pub enum ExchangeState {
    INITIAL,
    OK,
    COMPLETE,
    FAILED,
    INVALID,
}

/// Whether the chain proceeds to the next handler after a handler
/// left the exchange in this state: it does for `INITIAL` (the
/// handler observed or skipped) and `OK` (useful work, more allowed);
/// it stops for `COMPLETE`, `FAILED` and `INVALID`.
pub fn chain_continues(state: &ExchangeState) -> (r: bool)
    ensures
        r == (state is INITIAL || state is OK),
{
    match state {
        ExchangeState::INITIAL => true,
        ExchangeState::OK => true,
        ExchangeState::COMPLETE => false,
        ExchangeState::FAILED => false,
        ExchangeState::INVALID => false,
    }
}

/// One received datagram on its way through the handler chain: the
/// inbound bytes, their length, and the chain's state.  The sockets
/// and configuration the handlers use stay outside the library and
/// are handed in beside it.
pub struct Exchange {
    pub buffer: BytePacketBuffer,
    pub len: usize,
    pub state: ExchangeState,
}

impl Exchange {
    /// A fresh exchange around one received datagram.
    pub fn new(buffer: BytePacketBuffer, len: usize) -> (r: Exchange)
        ensures
            r.buffer == buffer,
            r.len == len,
            r.state is INITIAL,
    {
        Exchange { buffer, len, state: ExchangeState::INITIAL }
    }

    /// The chain state of this exchange.
    pub fn get_state(&self) -> (r: &ExchangeState)
        ensures
            *r == self.state,
    {
        &self.state
    }
}

} // verus!
