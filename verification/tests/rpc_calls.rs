use client_core::errors::NetworkError;
use client_core::errors::TransportError;
use client_core::rpc::rpc_decode_outcome;
use client_core::rpc::rpc_finish;
use client_core::rpc::rpc_prepare;
use client_core::rpc::RPC_BISTREAM_ID;

#[test]
fn failed_serialization_surfaces_before_any_transport_operation() {
    // The plan for the exchange is the only route to the transport; a
    // request that fails to encode never produces one.
    assert_eq!(rpc_prepare(None), Err(NetworkError::Serialization));
}

#[test]
fn encoded_requests_go_to_the_reserved_channel_unchanged() {
    let (id, request) = rpc_prepare(Some(vec![9, 8, 7])).unwrap();
    assert_eq!(id, RPC_BISTREAM_ID);
    assert_eq!(id, 0);
    assert_eq!(request, vec![9, 8, 7]);
}

#[test]
fn transport_failures_surface_as_transport_errors() {
    assert_eq!(
        rpc_finish(Err(TransportError::Timeout)),
        Err(NetworkError::Transport(TransportError::Timeout))
    );
    assert_eq!(
        rpc_finish(Err(TransportError::Closed)),
        Err(NetworkError::Transport(TransportError::Closed))
    );
}

#[test]
fn responses_pass_through_for_decoding() {
    assert_eq!(rpc_finish(Ok(vec![1, 2])), Ok(vec![1, 2]));
}

#[test]
fn undecodable_responses_surface_as_deserialization() {
    assert_eq!(rpc_decode_outcome::<u32>(None), Err(NetworkError::Deserialization));
    assert_eq!(rpc_decode_outcome(Some(31u32)), Ok(31));
}

#[test]
fn concurrent_calls_keep_their_own_responses() {
    // Two calls in flight at once, each owning its stream.  Call B was
    // issued first but completes later; each awaiter still sees only the
    // response read from its own stream.
    let call_b = rpc_prepare(Some(vec![2])).unwrap();
    let call_a = rpc_prepare(Some(vec![1])).unwrap();
    assert_eq!(call_a.1, vec![1]);
    assert_eq!(call_b.1, vec![2]);
    let response_a = rpc_finish(Ok(vec![0xA0]));
    let response_b = rpc_finish(Ok(vec![0xB0]));
    assert_eq!(response_a, Ok(vec![0xA0]));
    assert_eq!(response_b, Ok(vec![0xB0]));
}
