use svinge::errors::{PoolError, TransportError};
use svinge::types::{
    InnerData, NumberString, Response, ResponseInnerData, RpcError, RpcRequest, RpcResponse,
};

fn request() -> RpcRequest {
    RpcRequest {
        jsonrpc: "2.0".to_string(),
        method: "eth_blockNumber".to_string(),
        params: vec![InnerData::Boolean(false)],
        id: NumberString::Text("7".to_string()),
    }
}

#[test]
fn transport_errors_carry_their_raw_body() {
    let e = PoolError::Transport(TransportError {
        status_text: "502 Bad Gateway".to_string(),
        body: "upstream gone".to_string(),
    });
    assert_eq!(e.message(), "upstream gone");
}

#[test]
fn exhausted_retries_carry_the_wrapped_body() {
    let e = PoolError::RetriesExhausted(TransportError {
        status_text: "500".to_string(),
        body: "still down".to_string(),
    });
    assert_eq!(e.message(), "still down");
}

#[test]
fn decode_errors_name_the_payload() {
    let e = PoolError::Decode("zzz".to_string());
    assert_eq!(e.message(), "could not decode a chain id from zzz");
}

#[test]
fn validation_errors_name_both_ids() {
    let e = PoolError::Validation { expected: "5".to_string(), actual: "1".to_string() };
    assert_eq!(e.message(), "5 is not equal to RPCs response 1");
}

#[test]
fn the_client_facing_envelope_mirrors_the_request() {
    let e = PoolError::Validation { expected: "5".to_string(), actual: "1".to_string() };
    let rpc_err = e.to_rpc_error(&request());
    assert_eq!(rpc_err.error, "5 is not equal to RPCs response 1");
    assert_eq!(rpc_err.jsonrpc, "2.0");
    assert_eq!(rpc_err.method, "eth_blockNumber");
    assert_eq!(rpc_err.params, vec![InnerData::Boolean(false)]);
    assert!(matches!(&rpc_err.id, NumberString::Text(t) if t == "7"));
    assert_eq!(rpc_err.time_taken, 0);
}

#[test]
fn the_default_response_record_is_the_empty_text_answer() {
    let r = Response::default();
    assert_eq!(r.method, "");
    assert!(r.params.is_empty());
    assert_eq!(r.result, Some(ResponseInnerData::Text("".to_string())));
    assert_eq!(r.time_taken, 12);
    assert_eq!(r.start_time, 0);
}

#[test]
fn the_default_envelopes_are_empty() {
    let r = RpcResponse::default();
    assert_eq!(r.jsonrpc, "");
    assert_eq!(r.result, Some(ResponseInnerData::Text("".to_string())));
    assert!(r.error.is_none());
    let e = RpcError::default();
    assert_eq!(e.error, "");
    assert_eq!(e.time_taken, 0);
}

#[test]
fn duplicated_values_are_equal_to_their_originals() {
    let rec = Response {
        method: "m".to_string(),
        params: vec![
            InnerData::Text("x".to_string()),
            InnerData::Object(vec![("k".to_string(), "v".to_string())]),
            InnerData::NumberArray(vec![9, 8]),
        ],
        result: Some(ResponseInnerData::TextArray(vec!["y".to_string()])),
        time_taken: 3,
        start_time: 4,
    };
    assert_eq!(rec.duplicate(), rec);
    let t = TransportError { status_text: "s".to_string(), body: "b".to_string() };
    assert_eq!(t.duplicate(), t);
}
