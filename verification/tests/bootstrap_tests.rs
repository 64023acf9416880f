use svinge::errors::{PoolError, TransportError};
use svinge::pool::ExecutionClient;
use svinge::types::{Blockchain, CacheOptions, Response, ResponseInnerData};

fn probe_ok(chain_hex: &str, time_taken: u128) -> Result<Response, TransportError> {
    Ok(Response {
        method: "eth_chainId".to_string(),
        params: vec![],
        result: Some(ResponseInnerData::Text(chain_hex.to_string())),
        time_taken,
        start_time: 1_000,
    })
}

fn cache_options() -> CacheOptions {
    CacheOptions { cache_clear: 0, exclude_methods: vec![] }
}

#[test]
fn scenario_two_matching_endpoints_build_a_sorted_pool() {
    let pool = ExecutionClient::new(
        Blockchain::Evm,
        "5".to_string(),
        vec!["http://one".to_string(), "http://two".to_string()],
        vec![probe_ok("0x5", 30), probe_ok("0x5", 10)],
        5,
        5,
        3,
        cache_options(),
    )
    .unwrap();

    assert_eq!(pool.rpc_urls.len(), 2);
    // latency-sorted: the faster probe comes first
    assert_eq!(pool.rpc_urls[0].url, "http://two");
    assert_eq!(pool.rpc_urls[0].avg_response_time, 10);
    assert_eq!(pool.rpc_urls[1].url, "http://one");
    assert_eq!(pool.rpc_urls[1].avg_response_time, 30);
    for rpc in &pool.rpc_urls {
        assert_eq!(rpc.connections, 0);
        assert_eq!(rpc.response_counter, 0);
        assert_eq!(rpc.weight, 0);
        assert_eq!(rpc.responses.len(), 1);
    }
    // the probe method's slot holds the last recorded observation
    assert_eq!(pool.response_results.len(), 1);
    assert_eq!(pool.response_results[0].0, "eth_chainId");
    assert_eq!(pool.response_results[0].1.time_taken, 10);
    assert_eq!(pool.chain_id, "5");
    assert_eq!(pool.max_retries, 3);
}

#[test]
fn scenario_chain_id_mismatch_aborts_naming_both_ids() {
    let err = ExecutionClient::new(
        Blockchain::Evm,
        "5".to_string(),
        vec!["http://one".to_string()],
        vec![probe_ok("0x1", 10)],
        5,
        5,
        3,
        cache_options(),
    )
    .unwrap_err();

    match &err {
        PoolError::Validation { expected, actual } => {
            assert_eq!(expected, "5");
            assert_eq!(actual, "1");
        }
        other => panic!("expected a validation error, got {:?}", other),
    }
    assert_eq!(err.message(), "5 is not equal to RPCs response 1");
}

#[test]
fn a_single_failed_probe_aborts_the_whole_bootstrap() {
    let err = ExecutionClient::new(
        Blockchain::Evm,
        "5".to_string(),
        vec!["http://one".to_string(), "http://two".to_string()],
        vec![
            probe_ok("0x5", 10),
            Err(TransportError {
                status_text: "503 Service Unavailable".to_string(),
                body: "overloaded".to_string(),
            }),
        ],
        5,
        5,
        3,
        cache_options(),
    )
    .unwrap_err();

    match err {
        PoolError::Transport(t) => {
            assert_eq!(t.status_text, "503 Service Unavailable");
            assert_eq!(t.body, "overloaded");
        }
        other => panic!("expected a transport error, got {:?}", other),
    }
}

#[test]
fn a_malformed_probe_payload_is_a_decode_error() {
    let err = ExecutionClient::new(
        Blockchain::Evm,
        "5".to_string(),
        vec!["http://one".to_string()],
        vec![probe_ok("banana", 10)],
        5,
        5,
        3,
        cache_options(),
    )
    .unwrap_err();
    match err {
        PoolError::Decode(payload) => assert_eq!(payload, "banana"),
        other => panic!("expected a decode error, got {:?}", other),
    }
}

#[test]
fn a_non_text_probe_result_is_a_decode_error() {
    let mut probe = probe_ok("0x5", 10);
    if let Ok(rec) = &mut probe {
        rec.result = Some(ResponseInnerData::Boolean(true));
    }
    let err = ExecutionClient::new(
        Blockchain::Evm,
        "5".to_string(),
        vec!["http://one".to_string()],
        vec![probe],
        5,
        5,
        3,
        cache_options(),
    )
    .unwrap_err();
    assert!(matches!(err, PoolError::Decode(_)));
}

#[test]
fn a_hex_chain_id_too_wide_for_64_bits_is_a_decode_error() {
    let err = ExecutionClient::new(
        Blockchain::Evm,
        "5".to_string(),
        vec!["http://one".to_string()],
        vec![probe_ok("0x10000000000000000", 10)],
        5,
        5,
        3,
        cache_options(),
    )
    .unwrap_err();
    assert!(matches!(err, PoolError::Decode(_)));
}

#[test]
fn uppercase_hex_matches_its_decimal_chain_id() {
    let pool = ExecutionClient::new(
        Blockchain::Evm,
        "10".to_string(),
        vec!["http://one".to_string()],
        vec![probe_ok("0xA", 10)],
        5,
        5,
        3,
        cache_options(),
    );
    assert!(pool.is_ok());
}

#[test]
fn the_first_failing_probe_wins() {
    // a mismatch on the first endpoint is reported even when a later
    // probe failed outright
    let err = ExecutionClient::new(
        Blockchain::Evm,
        "5".to_string(),
        vec!["http://one".to_string(), "http://two".to_string()],
        vec![
            probe_ok("0x7", 10),
            Err(TransportError { status_text: "x".to_string(), body: "y".to_string() }),
        ],
        5,
        5,
        3,
        cache_options(),
    )
    .unwrap_err();
    assert!(matches!(err, PoolError::Validation { .. }));
}
