use vstd::prelude::*;
use crate::sync::FIELD_MODULUS;

verus! {

/// Why a range of blocks cannot be requested.
#[derive(Clone, Copy, Debug, PartialEq, Eq, Structural)]
pub enum RangeError {
    /// The genesis block is never fetched from the node; the wallet builds it
    /// itself.
    Genesis,
}

/// The heights `(from, to)`, both inclusive, of a batch of `batch_size`
/// blocks starting at `from_height`.
pub fn block_height_range(from_height: u64, batch_size: u64) -> (res: Result<(u64, u64), RangeError>)
    requires
        from_height + batch_size < FIELD_MODULUS,
    ensures
        from_height == 0 ==> res == Err::<(u64, u64), RangeError>(RangeError::Genesis),
        from_height != 0 ==> res == Ok::<(u64, u64), RangeError>((from_height, (from_height + batch_size - 1) as u64)),
{
    if from_height == 0 {
        return Err(RangeError::Genesis);
    }
    Ok((from_height, from_height + batch_size - 1))
}

/// Why broadcasting a transaction failed.
#[derive(Debug)]
pub enum BroadcastError {
    /// The connection timed out.
    Timeout,
    /// The node could not be reached.
    Connection(String),
    /// The node answered with an error.
    Server(String),
    /// The wallet failed before sending.
    Internal(String),
    /// The node rejected the transaction without saying why.
    UnspecifiedServerError,
}

/// Which kind of transport error occurred.
#[derive(Clone, Copy, Debug, PartialEq, Eq, Structural)]
pub enum TransportErrorKind {
    Timeout,
    Connection,
    Server,
}

/// Classify an HTTP error: a timeout takes precedence over a failed
/// connection; everything else is a server error.
pub fn classify_transport_error(is_timeout: bool, is_connect: bool) -> (res: TransportErrorKind)
    ensures
        is_timeout ==> res == TransportErrorKind::Timeout,
        !is_timeout && is_connect ==> res == TransportErrorKind::Connection,
        !is_timeout && !is_connect ==> res == TransportErrorKind::Server,
{
    if is_timeout {
        TransportErrorKind::Timeout
    } else if is_connect {
        TransportErrorKind::Connection
    } else {
        TransportErrorKind::Server
    }
}

/// Turn an HTTP error into a broadcast error, keeping its text.
pub fn broadcast_error_from_transport(is_timeout: bool, is_connect: bool, text: String) -> (res: BroadcastError)
    ensures
        is_timeout ==> res is Timeout,
        !is_timeout && is_connect ==> (res matches BroadcastError::Connection(t) && t@ == text@),
        !is_timeout && !is_connect ==> (res matches BroadcastError::Server(t) && t@ == text@),
{
    match classify_transport_error(is_timeout, is_connect) {
        TransportErrorKind::Timeout => BroadcastError::Timeout,
        TransportErrorKind::Connection => BroadcastError::Connection(text),
        TransportErrorKind::Server => BroadcastError::Server(text),
    }
}

/// The outcome of a submitted transaction: its id when the node accepted it.
pub fn broadcast_outcome(success: bool, txid: String) -> (res: Result<String, BroadcastError>)
    ensures
        success ==> (res matches Ok(t) && t@ == txid@),
        !success ==> res matches Err(BroadcastError::UnspecifiedServerError),
{
    if success {
        Ok(txid)
    } else {
        Err(BroadcastError::UnspecifiedServerError)
    }
}

} // verus!
