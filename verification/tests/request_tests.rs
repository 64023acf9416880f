use svinge::errors::{PoolError, TransportError};
use svinge::pool::{execute_retries, ExecutionClient};
use svinge::types::{
    Blockchain, CacheOptions, NumberString, Response, ResponseInnerData, RpcRequest, RPC,
};

fn endpoint(url: &str, avg: u128) -> RPC {
    RPC {
        url: url.to_string(),
        avg_response_time: avg,
        connections: 0,
        weight: 0,
        response_counter: 0,
        responses: vec![],
    }
}

fn pool_with(endpoints: Vec<RPC>, ttl: u128) -> ExecutionClient {
    ExecutionClient {
        chain_type: Blockchain::Evm,
        chain_id: "5".to_string(),
        rpc_urls: endpoints,
        max_connections: 5,
        max_responses: 5,
        max_retries: 3,
        cache: CacheOptions { cache_clear: ttl, exclude_methods: vec![] },
        response_results: vec![],
    }
}

fn rpc_request(method: &str) -> RpcRequest {
    RpcRequest {
        jsonrpc: "2.0".to_string(),
        method: method.to_string(),
        params: vec![],
        id: NumberString::Number(1),
    }
}

fn success_record(method: &str, payload: &str, time_taken: u128, start_time: u128) -> Response {
    Response {
        method: method.to_string(),
        params: vec![],
        result: Some(ResponseInnerData::Text(payload.to_string())),
        time_taken,
        start_time,
    }
}

fn transport_error(body: &str) -> TransportError {
    TransportError { status_text: "500 Internal Server Error".to_string(), body: body.to_string() }
}

#[test]
fn a_served_request_updates_history_cache_and_order() {
    let mut pool = pool_with(vec![endpoint("http://a", 100), endpoint("http://b", 200)], 1_000);
    let rec = success_record("eth_blockNumber", "0x10", 40, 2_000);
    let resp = pool.request(rpc_request("eth_blockNumber"), 0, vec![Ok(rec)]).unwrap();

    assert_eq!(resp.jsonrpc, "2.0");
    assert_eq!(resp.result, Some(ResponseInnerData::Text("0x10".to_string())));
    assert!(resp.error.is_none());

    // the serving endpoint recorded the call: history, counter, new mean
    let a = pool.rpc_urls.iter().find(|e| e.url == "http://a").unwrap();
    assert_eq!(a.connections, 0);
    assert_eq!(a.response_counter, 1);
    assert_eq!(a.responses.len(), 1);
    // incremental mean: (old mean + latest) / new history length
    assert_eq!(a.avg_response_time, (100 + 40) / 1);
    // still the fastest known endpoint, so still primary
    assert_eq!(pool.rpc_urls[0].url, "http://a");
    // the cache slot holds the record
    assert_eq!(pool.response_results.len(), 1);
    assert_eq!(pool.response_results[0].0, "eth_blockNumber");
}

#[test]
fn scenario_overload_rotates_before_dispatch() {
    let mut a = endpoint("http://a", 100);
    a.connections = 6;  // max_connections + 1
    a.response_counter = 4;
    let mut b = endpoint("http://b", 200);
    // give the other endpoint some history, so the success below drags
    // its mean under the overloaded endpoint's and the rotation stays
    // visible after the final sort
    b.responses = vec![
        success_record("m", "0x0", 10, 0),
        success_record("m", "0x0", 10, 0),
        success_record("m", "0x0", 10, 0),
    ];
    let mut pool = pool_with(vec![a, b], 1_000);

    let rec = success_record("eth_blockNumber", "0x10", 0, 2_000);
    pool.request(rpc_request("eth_blockNumber"), 0, vec![Ok(rec)]).unwrap();

    let a_pos = pool.rpc_urls.iter().position(|e| e.url == "http://a").unwrap();
    assert_ne!(a_pos, 0, "the overloaded endpoint must leave the front");
    assert_eq!(pool.rpc_urls[a_pos].response_counter, 0, "rotation resets the counter");
    assert_eq!(pool.rpc_urls.len(), 2, "rotation only reorders");
    assert_eq!(pool.rpc_urls[0].url, "http://b");
    assert_eq!(pool.rpc_urls[0].response_counter, 1);
}

#[test]
fn scenario_an_immediate_repeat_is_served_from_cache() {
    let mut pool = pool_with(vec![endpoint("http://a", 100), endpoint("http://b", 200)], 1_000);
    let rec = success_record("eth_blockNumber", "0x10", 40, 2_000);
    let first = pool.request(rpc_request("eth_blockNumber"), 0, vec![Ok(rec)]).unwrap();
    let snapshot_before = pool.clone();

    // elapsed since the slot's capture is 0 < ttl: a hit, nothing mutates
    let second = pool.request(rpc_request("eth_blockNumber"), 2_000, vec![]).unwrap();
    assert_eq!(second.result, first.result);
    assert_eq!(pool, snapshot_before, "a cache hit never mutates the pool");
}

#[test]
fn cache_slots_are_keyed_by_method_alone() {
    let mut pool = pool_with(vec![endpoint("http://a", 100)], 1_000);
    let rec = success_record("eth_getBalance", "0x1", 40, 2_000);
    pool.request(rpc_request("eth_getBalance"), 0, vec![Ok(rec)]).unwrap();

    // a call to the same method with different parameters shares the slot
    let mut other = rpc_request("eth_getBalance");
    other.params = vec![svinge::types::InnerData::Text("0xdeadbeef".to_string())];
    let served = pool.request(other, 2_000, vec![]).unwrap();
    assert_eq!(served.result, Some(ResponseInnerData::Text("0x1".to_string())));
}

#[test]
fn ttl_boundary_is_a_hit_exactly_at_the_window() {
    for (now, expect_hit) in [(1_049_u128, true), (1_050, true), (1_051, false)] {
        let mut pool = pool_with(vec![endpoint("http://a", 100)], 50);
        pool.response_results =
            vec![("eth_blockNumber".to_string(), success_record("eth_blockNumber", "0xaa", 5, 1_000))];
        // elapsed = now - 1000 against ttl = 50; a forwarded call returns
        // a different payload so the two paths are distinguishable
        let fresh = success_record("eth_blockNumber", "0xbb", 5, now);
        let served = pool.request(rpc_request("eth_blockNumber"), now, vec![Ok(fresh)]).unwrap();
        let expected = if expect_hit { "0xaa" } else { "0xbb" };
        assert_eq!(
            served.result,
            Some(ResponseInnerData::Text(expected.to_string())),
            "at now = {}",
            now
        );
    }
}

#[test]
fn a_stale_slot_is_overwritten_by_the_next_forwarded_answer() {
    let mut pool = pool_with(vec![endpoint("http://a", 100)], 50);
    pool.response_results =
        vec![("eth_blockNumber".to_string(), success_record("eth_blockNumber", "0xaa", 5, 1_000))];
    let fresh = success_record("eth_blockNumber", "0xbb", 5, 9_000);
    pool.request(rpc_request("eth_blockNumber"), 9_000, vec![Ok(fresh)]).unwrap();
    assert_eq!(pool.response_results.len(), 1);
    match &pool.response_results[0].1.result {
        Some(ResponseInnerData::Text(t)) => assert_eq!(t, "0xbb"),
        other => panic!("unexpected slot {:?}", other),
    }
}

#[test]
fn scenario_exhausted_retries_surface_the_last_error_and_rotate() {
    let mut pool = pool_with(vec![endpoint("http://a", 100), endpoint("http://b", 200)], 1_000);
    let err = pool
        .request(
            rpc_request("eth_blockNumber"),
            0,
            vec![
                Err(transport_error("first")),
                Err(transport_error("second")),
                Err(transport_error("third")),
            ],
        )
        .unwrap_err();

    match err {
        PoolError::RetriesExhausted(t) => assert_eq!(t.body, "third"),
        other => panic!("expected exhausted retries, got {:?}", other),
    }
    // the failing primary was rotated to the tail
    assert_eq!(pool.rpc_urls[0].url, "http://b");
    assert_eq!(pool.rpc_urls[1].url, "http://a");
    assert_eq!(pool.rpc_urls[1].response_counter, 0);
    // failure applies none of the success-path bookkeeping
    assert_eq!(pool.rpc_urls[1].responses.len(), 0);
    assert!(pool.response_results.is_empty());
}

#[test]
fn retry_stops_at_the_first_success() {
    let mut pool = pool_with(vec![endpoint("http://a", 100)], 1_000);
    let winner = success_record("m", "0x1", 10, 2_000);
    let spare = success_record("m", "0x2", 10, 2_000);
    let served = pool
        .request(rpc_request("m"), 0, vec![Err(transport_error("boom")), Ok(winner), Ok(spare)])
        .unwrap();
    assert_eq!(served.result, Some(ResponseInnerData::Text("0x1".to_string())));
    assert_eq!(pool.rpc_urls[0].responses.len(), 1);
}

#[test]
fn the_retry_budget_caps_the_attempts_considered() {
    let outcomes = vec![
        Err(transport_error("one")),
        Err(transport_error("two")),
        Ok(success_record("m", "0x1", 10, 0)),
    ];
    // a budget of two never reaches the success on the third attempt
    match execute_retries(outcomes, 2) {
        Err(t) => assert_eq!(t.body, "two"),
        Ok(r) => panic!("unexpected success {:?}", r),
    }
}

#[test]
fn an_empty_attempt_list_reports_an_empty_transport_error() {
    match execute_retries(vec![], 3) {
        Err(t) => {
            assert_eq!(t.status_text, "");
            assert_eq!(t.body, "");
        }
        Ok(r) => panic!("unexpected success {:?}", r),
    }
}

#[test]
fn rotation_on_a_single_endpoint_only_resets_the_counter() {
    let mut a = endpoint("http://a", 100);
    a.connections = 6;
    a.response_counter = 3;
    let mut pool = pool_with(vec![a], 1_000);
    let err = pool
        .request(rpc_request("m"), 0, vec![Err(transport_error("x"))])
        .unwrap_err();
    assert!(matches!(err, PoolError::RetriesExhausted(_)));
    assert_eq!(pool.rpc_urls.len(), 1);
    assert_eq!(pool.rpc_urls[0].url, "http://a");
    assert_eq!(pool.rpc_urls[0].response_counter, 0);
}

#[test]
fn swap_rpcs_demotes_the_primary_and_promotes_the_rank() {
    let mut a = endpoint("http://a", 10);
    a.response_counter = 7;
    let b = endpoint("http://b", 20);
    let c = endpoint("http://c", 30);
    let d = endpoint("http://d", 40);
    let mut pool = pool_with(vec![a, b, c, d], 0);
    // demote a to the tail with its counter reset; rank 1 (b) is still
    // ahead of the new tail position, so it is promoted into the front
    pool.swap_rpcs(1);
    assert_eq!(pool.rpc_urls[0].url, "http://b");
    assert_eq!(pool.rpc_urls[1].url, "http://d");
    assert_eq!(pool.rpc_urls[2].url, "http://c");
    assert_eq!(pool.rpc_urls[3].url, "http://a");
    assert_eq!(pool.rpc_urls[3].response_counter, 0);
}

#[test]
fn swap_rpcs_promotes_rank_one_on_a_three_endpoint_pool() {
    let mut a = endpoint("http://a", 10);
    a.response_counter = 7;
    let b = endpoint("http://b", 20);
    let c = endpoint("http://c", 30);
    let mut pool = pool_with(vec![a, b, c], 0);
    pool.swap_rpcs(1);
    assert_eq!(pool.rpc_urls[0].url, "http://b");
    assert_eq!(pool.rpc_urls[1].url, "http://c");
    assert_eq!(pool.rpc_urls[2].url, "http://a");
    assert_eq!(pool.rpc_urls[2].response_counter, 0);
}

#[test]
fn swap_rpcs_with_a_rank_behind_the_tail_only_demotes() {
    let mut a = endpoint("http://a", 10);
    a.response_counter = 7;
    let b = endpoint("http://b", 20);
    let c = endpoint("http://c", 30);
    let mut pool = pool_with(vec![a, b, c], 0);
    // rank 2 is the new tail position itself: no promotion
    pool.swap_rpcs(2);
    assert_eq!(pool.rpc_urls[0].url, "http://c");
    assert_eq!(pool.rpc_urls[1].url, "http://b");
    assert_eq!(pool.rpc_urls[2].url, "http://a");
    assert_eq!(pool.rpc_urls[2].response_counter, 0);
}

#[test]
fn swap_rpcs_with_rank_zero_is_a_no_op() {
    let mut a = endpoint("http://a", 10);
    a.response_counter = 7;
    let b = endpoint("http://b", 20);
    let mut pool = pool_with(vec![a, b], 0);
    let before = pool.clone();
    pool.swap_rpcs(0);
    assert_eq!(pool, before);
}

#[test]
fn sort_rpcs_orders_ascending_and_keeps_every_endpoint() {
    let mut pool = pool_with(
        vec![endpoint("http://c", 30), endpoint("http://a", 10), endpoint("http://b", 20)],
        0,
    );
    pool.sort_rpcs();
    let urls: Vec<&str> = pool.rpc_urls.iter().map(|e| e.url.as_str()).collect();
    assert_eq!(urls, vec!["http://a", "http://b", "http://c"]);
}

#[test]
fn sorting_a_sorted_pool_changes_nothing() {
    let mut pool = pool_with(
        vec![endpoint("http://c", 30), endpoint("http://a", 10), endpoint("http://b", 20)],
        0,
    );
    pool.sort_rpcs();
    let snapshot = pool.clone();
    pool.sort_rpcs();
    assert_eq!(pool, snapshot);
}

#[test]
fn the_broadcast_reports_every_endpoint_outcome() {
    let pool = pool_with(vec![endpoint("http://a", 10), endpoint("http://b", 20)], 0);
    let outcomes = vec![
        Ok(success_record("m", "0x1", 5, 0)),
        Err(transport_error("down")),
    ];
    let answers = pool.request_and_validate(&rpc_request("m"), outcomes);
    assert_eq!(answers.len(), 2);
    match &answers[0] {
        Ok(resp) => {
            assert_eq!(resp.jsonrpc, "2.0");
            assert_eq!(resp.result, Some(ResponseInnerData::Text("0x1".to_string())));
            assert!(matches!(resp.id, NumberString::Number(1)));
        }
        other => panic!("unexpected {:?}", other),
    }
    match &answers[1] {
        Err(t) => assert_eq!(t.body, "down"),
        other => panic!("unexpected {:?}", other),
    }
}
