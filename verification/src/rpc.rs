//! Request/response calls over the reserved bidirectional channel.
//!
//! Each call fully owns one bidirectional stream for its lifetime, so
//! correlation is structural: the response read from a call's own stream is
//! the response to that call, and no outstanding-call table exists.  The
//! serialization schema for a call's request and response types is the
//! embedding application's; this module fixes what the call surfaces for
//! every outcome of its own three stages: encoding the request, exchanging
//! bytes on the call's own stream, and decoding the response.

use vstd::prelude::*;

use crate::errors::NetworkError;
use crate::errors::TransportError;

verus! {

/// The reserved channel identifier of the request/response bidirectional
/// channel.  Application channels use other identifiers.
pub const RPC_BISTREAM_ID: u32 = 0;

/// What one call's own first two stages determine: `Serialization` when the
/// request could not be encoded (the exchange never happens), the
/// transport's failure when the exchange failed, otherwise the raw response
/// bytes, still to be decoded.
pub open spec fn spec_rpc_outcome(
    serialized: Option<Seq<u8>>,
    exchanged: Result<Seq<u8>, TransportError>,
) -> Result<Seq<u8>, NetworkError> {
    match serialized {
        Option::None => Result::Err(NetworkError::Serialization),
        Option::Some(_) => match exchanged {
            Result::Err(e) => Result::Err(NetworkError::Transport(e)),
            Result::Ok(resp) => Result::Ok(resp),
        },
    }
}

/// Turns the outcome of encoding a request into the call's plan: a request
/// that failed to serialize surfaces `Serialization` at once and no
/// transport operation is ever issued for it; an encoded request is to be
/// exchanged on the reserved channel, unchanged.
pub fn rpc_prepare(serialized: Option<Vec<u8>>) -> (r: Result<(u32, Vec<u8>), NetworkError>)
    ensures
        serialized is None ==> r == Err::<(u32, Vec<u8>), NetworkError>(
            NetworkError::Serialization,
        ),
        serialized matches Some(b) ==> (r matches Ok(p) && p.0 == RPC_BISTREAM_ID && p.1@
            == b@),
{
    match serialized {
        Option::None => Err(NetworkError::Serialization),
        Option::Some(request) => Ok((RPC_BISTREAM_ID, request)),
    }
}

/// Turns the outcome of the exchange on the call's own stream into the
/// call's result: a transport failure surfaces as `Transport`, a response
/// passes through unchanged for decoding.
pub fn rpc_finish(exchanged: Result<Vec<u8>, TransportError>) -> (r: Result<
    Vec<u8>,
    NetworkError,
>)
    ensures
        exchanged matches Ok(b) ==> (r matches Ok(v) && v@ == b@),
        exchanged matches Err(e) ==> r == Err::<Vec<u8>, NetworkError>(
            NetworkError::Transport(e),
        ),
{
    match exchanged {
        Result::Ok(response) => Ok(response),
        Result::Err(e) => Err(NetworkError::Transport(e)),
    }
}

/// Turns the outcome of decoding the response bytes into the call's typed
/// result: bytes that do not match the expected response schema surface as
/// `Deserialization`.
pub fn rpc_decode_outcome<T>(decoded: Option<T>) -> (r: Result<T, NetworkError>)
    ensures
        decoded matches Some(v) ==> (r matches Ok(w) && w == v),
        decoded is None ==> (r matches Err(e) && e == NetworkError::Deserialization),
{
    match decoded {
        Option::Some(response) => Ok(response),
        Option::None => Err(NetworkError::Deserialization),
    }
}

/// One call's own stages, as one record: the encoding outcome and the
/// exchange outcome on the stream the call owns.
pub struct CallStages {
    pub serialized: Option<Seq<u8>>,
    pub exchanged: Result<Seq<u8>, TransportError>,
}

/// The result call number `i` surfaces out of any collection of concurrent
/// calls, each owning its stream.
pub open spec fn call_outcome(calls: Seq<CallStages>, i: int) -> Result<Seq<u8>, NetworkError>
    recommends
        0 <= i < calls.len(),
{
    spec_rpc_outcome(calls[i].serialized, calls[i].exchanged)
}

/// Concurrent calls complete independently: a call's result is a function
/// of its own stream's stages alone, so the response to one call is never
/// surfaced to the awaiter of another, whatever the other calls do and in
/// whatever order they were issued or complete.
pub proof fn lemma_rpc_calls_independent(c1: Seq<CallStages>, c2: Seq<CallStages>, i: int)
    requires
        0 <= i < c1.len(),
        0 <= i < c2.len(),
        c1[i] == c2[i],
    ensures
        call_outcome(c1, i) == call_outcome(c2, i),
{
}

} // verus!
