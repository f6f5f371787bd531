use vstd::prelude::*;

verus! {

/// Every failure the pool and its callers can observe.
///
/// `Config` is fatal at construction time. `Connect`, `Transport` and
/// `Session` arise at the transport and persistence boundary and are consumed
/// by the reconnect policy. `Encode`, `Decode` and `UnknownMethod` are local
/// to one call. `ConnectionClosed` resolves every call pending on a torn-down
/// sender and answers every submission made after shutdown began.
/// `NoAvailableSender` is returned while every slot is dead.
#[derive(Clone, Copy, Debug, PartialEq, Eq, Structural)]
pub enum PoolError {
    Config,
    Connect,
    Transport,
    Session,
    Encode,
    Decode,
    UnknownMethod,
    ConnectionClosed,
    NoAvailableSender,
}

} // verus!
