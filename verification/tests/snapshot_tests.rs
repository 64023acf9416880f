use svinge::pool::ExecutionClient;
use svinge::snapshot::from_snapshot;
use svinge::types::{
    Blockchain, CacheOptions, InnerData, NumberString, Response, ResponseInnerData, RPC,
};

fn rich_pool() -> ExecutionClient {
    let record = Response {
        method: "eth_call".to_string(),
        params: vec![
            InnerData::Text("latest".to_string()),
            InnerData::TextArray(vec!["a".to_string(), "b".to_string()]),
            InnerData::NumberArray(vec![1, 2, 3]),
            InnerData::Boolean(true),
            InnerData::Object(vec![
                ("to".to_string(), "\"0x1\"".to_string()),
                ("data".to_string(), "\"0x2\"".to_string()),
            ]),
        ],
        result: Some(ResponseInnerData::Text("0xfeed".to_string())),
        time_taken: 42,
        start_time: 1_700_000,
    };
    let probe = Response {
        method: "eth_chainId".to_string(),
        params: vec![],
        result: Some(ResponseInnerData::Text("0x5".to_string())),
        time_taken: 7,
        start_time: 1_600_000,
    };
    ExecutionClient {
        chain_type: Blockchain::Evm,
        chain_id: "5".to_string(),
        rpc_urls: vec![
            RPC {
                url: "http://one".to_string(),
                avg_response_time: 24,
                connections: 2,
                weight: 0,
                response_counter: 3,
                responses: vec![probe.clone(), record.clone()],
            },
            RPC {
                url: "http://two".to_string(),
                avg_response_time: 99,
                connections: 0,
                weight: 0,
                response_counter: 0,
                responses: vec![],
            },
        ],
        max_connections: 5,
        max_responses: 10,
        max_retries: 3,
        cache: CacheOptions {
            cache_clear: 2_000_000,
            exclude_methods: vec!["eth_sendRawTransaction".to_string()],
        },
        response_results: vec![
            ("eth_chainId".to_string(), probe),
            ("eth_call".to_string(), record),
        ],
    }
}

#[test]
fn a_snapshot_round_trips_to_an_equal_pool() {
    let pool = rich_pool();
    let text = pool.to_snapshot();
    let back = from_snapshot(text.as_str()).expect("the snapshot must decode");
    assert_eq!(back, pool);
}

#[test]
fn a_snapshot_is_valid_json_with_the_documented_schema() {
    let text = rich_pool().to_snapshot();
    let value: serde_json::Value =
        serde_json::from_str(&text).expect("a snapshot must be well-formed JSON");
    assert_eq!(value["chain_type"], serde_json::Value::String("Evm".to_string()));
    assert_eq!(value["chain_id"], serde_json::Value::String("5".to_string()));
    assert_eq!(value["rpc_urls"][0]["url"], serde_json::Value::String("http://one".to_string()));
    assert_eq!(value["rpc_urls"][0]["avg_response_time"].as_u64(), Some(24));
    assert_eq!(value["max_connections"].as_u64(), Some(5));
    assert_eq!(value["cache"]["cache_clear"].as_u64(), Some(2_000_000));
    assert!(value["response_results"]["eth_chainId"].is_object());
    assert_eq!(value["rpc_urls"][0]["responses"][1]["params"][3].as_bool(), Some(true));
}

#[test]
fn escaped_characters_in_text_survive_the_round_trip() {
    let mut pool = rich_pool();
    pool.chain_id = "a\"b\\c".to_string();
    pool.rpc_urls[0].url = "http://x/\"\\".to_string();
    let text = pool.to_snapshot();
    assert_eq!(from_snapshot(text.as_str()), Some(pool));
}

#[test]
fn an_empty_number_array_reads_back_as_an_empty_text_array() {
    // the untagged JSON shape cannot tell an empty number array from an
    // empty text array; the decoder settles on the text form
    let mut pool = rich_pool();
    pool.rpc_urls[0].responses[1].params = vec![InnerData::NumberArray(vec![])];
    let text = pool.to_snapshot();
    let back = from_snapshot(text.as_str()).expect("the snapshot must decode");
    assert_eq!(back.rpc_urls[0].responses[1].params, vec![InnerData::TextArray(vec![])]);
}

#[test]
fn a_minimal_pool_round_trips() {
    let pool = ExecutionClient {
        chain_type: Blockchain::Solana,
        chain_id: "".to_string(),
        rpc_urls: vec![RPC {
            url: "".to_string(),
            avg_response_time: 0,
            connections: 0,
            weight: 0,
            response_counter: 0,
            responses: vec![],
        }],
        max_connections: 0,
        max_responses: 0,
        max_retries: 0,
        cache: CacheOptions { cache_clear: 0, exclude_methods: vec![] },
        response_results: vec![],
    };
    let text = pool.to_snapshot();
    assert_eq!(from_snapshot(text.as_str()), Some(pool));
}

#[test]
fn extreme_counter_values_round_trip() {
    let mut pool = rich_pool();
    pool.rpc_urls[0].avg_response_time = u128::MAX;
    pool.rpc_urls[0].connections = u64::MAX;
    pool.cache.cache_clear = u128::MAX;
    let text = pool.to_snapshot();
    assert_eq!(from_snapshot(text.as_str()), Some(pool));
}

#[test]
fn garbage_is_rejected() {
    assert_eq!(from_snapshot(""), None);
    assert_eq!(from_snapshot("hello"), None);
    assert_eq!(from_snapshot("9"), None);
}

#[test]
fn a_truncated_snapshot_is_rejected() {
    let text = rich_pool().to_snapshot();
    let cut: String = text.chars().take(text.chars().count() - 1).collect();
    assert_eq!(from_snapshot(cut.as_str()), None);
}

#[test]
fn trailing_text_after_a_snapshot_is_rejected() {
    let mut text = rich_pool().to_snapshot();
    text.push('x');
    assert_eq!(from_snapshot(text.as_str()), None);
}

#[test]
fn an_endpointless_snapshot_is_rejected() {
    let mut pool = rich_pool();
    pool.rpc_urls = vec![];
    let text = pool.to_snapshot();
    assert_eq!(from_snapshot(text.as_str()), None);
}

#[test]
fn a_snapshot_with_duplicate_cache_slots_is_rejected() {
    let mut pool = rich_pool();
    let extra = pool.response_results[0].clone();
    pool.response_results.push(extra);
    let text = pool.to_snapshot();
    assert_eq!(from_snapshot(text.as_str()), None);
}

#[test]
fn unicode_text_survives_the_round_trip() {
    let mut pool = rich_pool();
    pool.chain_id = "žluťoučký 链 🦀".to_string();
    pool.rpc_urls[0].url = "http://例え.jp/рпц".to_string();
    let text = pool.to_snapshot();
    assert_eq!(from_snapshot(text.as_str()), Some(pool));
}
