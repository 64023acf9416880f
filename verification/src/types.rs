//! The data model of the gateway: JSON-RPC values, request and response
//! envelopes, per-endpoint health records, and cache configuration.
//!
//! Every executable type has a mathematical model (`...Model`) reached
//! through `deep_view`; contracts throughout the crate are stated over
//! these models.

use vstd::prelude::*;

verus! {

/// The chain ecosystem a pool fronts.
#[derive(Clone, Copy, Debug, PartialEq, Eq, Structural)]
pub enum Blockchain {
    Ethereum,
    Evm,
    Solana,
}

/// A JSON-RPC parameter value: a closed tagged union over the JSON shapes
/// requests carry. A structured object is held as a flat list of key/value
/// pairs whose values are raw JSON text.
#[derive(Clone, Debug, PartialEq)]
pub enum InnerData {
    Text(String),
    TextArray(Vec<String>),
    NumberArray(Vec<u64>),
    Boolean(bool),
    Object(Vec<(String, String)>),
}

/// A JSON-RPC result value; the same shapes as `InnerData`.
#[derive(Clone, Debug, PartialEq)]
pub enum ResponseInnerData {
    Text(String),
    TextArray(Vec<String>),
    NumberArray(Vec<u64>),
    Boolean(bool),
    Object(Vec<(String, String)>),
}

/// The mathematical model of a parameter or result value.
#[verifier::ext_equal]
pub enum InnerDataModel {
    Text(Seq<char>),
    TextArray(Seq<Seq<char>>),
    NumberArray(Seq<u64>),
    Boolean(bool),
    Object(Seq<(Seq<char>, Seq<char>)>),
}

impl DeepView for InnerData {
    type V = InnerDataModel;

    open spec fn deep_view(&self) -> InnerDataModel {
        match self {
            InnerData::Text(s) => InnerDataModel::Text(s@),
            InnerData::TextArray(v) => InnerDataModel::TextArray(v.deep_view()),
            InnerData::NumberArray(v) => InnerDataModel::NumberArray(v@),
            InnerData::Boolean(b) => InnerDataModel::Boolean(*b),
            InnerData::Object(v) => InnerDataModel::Object(v.deep_view()),
        }
    }
}

impl DeepView for ResponseInnerData {
    type V = InnerDataModel;

    open spec fn deep_view(&self) -> InnerDataModel {
        match self {
            ResponseInnerData::Text(s) => InnerDataModel::Text(s@),
            ResponseInnerData::TextArray(v) => InnerDataModel::TextArray(v.deep_view()),
            ResponseInnerData::NumberArray(v) => InnerDataModel::NumberArray(v@),
            ResponseInnerData::Boolean(b) => InnerDataModel::Boolean(*b),
            ResponseInnerData::Object(v) => InnerDataModel::Object(v.deep_view()),
        }
    }
}

/// A JSON-RPC id: the wire format admits both text and numeric ids.
#[derive(Clone, Debug, PartialEq)]
pub enum NumberString {
    Text(String),
    Number(i32),
}

/// The mathematical model of a JSON-RPC id.
#[verifier::ext_equal]
pub enum NumberStringModel {
    Text(Seq<char>),
    Number(i32),
}

impl DeepView for NumberString {
    type V = NumberStringModel;

    open spec fn deep_view(&self) -> NumberStringModel {
        match self {
            NumberString::Text(s) => NumberStringModel::Text(s@),
            NumberString::Number(n) => NumberStringModel::Number(*n),
        }
    }
}

/// One completed upstream call: the method it served, its parameters, the
/// decoded result, how long the call took (milliseconds), and when it
/// started (microseconds since an arbitrary epoch). `start_time` anchors
/// the cache TTL window.
#[derive(Clone, Debug, PartialEq)]
pub struct Response {
    pub method: String,
    pub params: Vec<InnerData>,
    pub result: Option<ResponseInnerData>,
    pub time_taken: u128,
    pub start_time: u128,
}

/// The mathematical model of a completed upstream call.
#[verifier::ext_equal]
pub struct ResponseModel {
    pub method: Seq<char>,
    pub params: Seq<InnerDataModel>,
    pub result: Option<InnerDataModel>,
    pub time_taken: u128,
    pub start_time: u128,
}

impl DeepView for Response {
    type V = ResponseModel;

    open spec fn deep_view(&self) -> ResponseModel {
        ResponseModel {
            method: self.method@,
            params: self.params.deep_view(),
            result: self.result.deep_view(),
            time_taken: self.time_taken,
            start_time: self.start_time,
        }
    }
}

/// A JSON-RPC request envelope.
#[derive(Clone, Debug, PartialEq)]
pub struct RpcRequest {
    pub jsonrpc: String,
    pub method: String,
    pub params: Vec<InnerData>,
    pub id: NumberString,
}

/// The mathematical model of a request envelope.
#[verifier::ext_equal]
pub struct RpcRequestModel {
    pub jsonrpc: Seq<char>,
    pub method: Seq<char>,
    pub params: Seq<InnerDataModel>,
    pub id: NumberStringModel,
}

impl DeepView for RpcRequest {
    type V = RpcRequestModel;

    open spec fn deep_view(&self) -> RpcRequestModel {
        RpcRequestModel {
            jsonrpc: self.jsonrpc@,
            method: self.method@,
            params: self.params.deep_view(),
            id: self.id.deep_view(),
        }
    }
}

/// A JSON-RPC response envelope; `result` and `error` are populated
/// exclusively.
#[derive(Clone, Debug, PartialEq)]
pub struct RpcResponse {
    pub jsonrpc: String,
    pub result: Option<ResponseInnerData>,
    pub id: NumberString,
    pub error: Option<ResponseInnerData>,
}

/// The mathematical model of a response envelope.
#[verifier::ext_equal]
pub struct RpcResponseModel {
    pub jsonrpc: Seq<char>,
    pub result: Option<InnerDataModel>,
    pub id: NumberStringModel,
    pub error: Option<InnerDataModel>,
}

impl DeepView for RpcResponse {
    type V = RpcResponseModel;

    open spec fn deep_view(&self) -> RpcResponseModel {
        RpcResponseModel {
            jsonrpc: self.jsonrpc@,
            result: self.result.deep_view(),
            id: self.id.deep_view(),
            error: self.error.deep_view(),
        }
    }
}

/// The client-facing error envelope handed back by the serving boundary.
#[derive(Clone, Debug, PartialEq)]
pub struct RpcError {
    pub error: String,
    pub jsonrpc: String,
    pub method: String,
    pub params: Vec<InnerData>,
    pub id: NumberString,
    pub time_taken: u128,
}

/// The mathematical model of the client-facing error envelope.
#[verifier::ext_equal]
pub struct RpcErrorModel {
    pub error: Seq<char>,
    pub jsonrpc: Seq<char>,
    pub method: Seq<char>,
    pub params: Seq<InnerDataModel>,
    pub id: NumberStringModel,
    pub time_taken: u128,
}

impl DeepView for RpcError {
    type V = RpcErrorModel;

    open spec fn deep_view(&self) -> RpcErrorModel {
        RpcErrorModel {
            error: self.error@,
            jsonrpc: self.jsonrpc@,
            method: self.method@,
            params: self.params.deep_view(),
            id: self.id.deep_view(),
            time_taken: self.time_taken,
        }
    }
}

/// One upstream provider URL together with its tracked health metrics.
/// `avg_response_time` is an incremental mean over `responses`;
/// `connections` counts requests currently admitted through this endpoint;
/// `response_counter` counts successes since the endpoint last left the
/// front position; `weight` is reserved and unused.
#[derive(Clone, Debug, PartialEq)]
pub struct RPC {
    pub url: String,
    pub avg_response_time: u128,
    pub connections: u64,
    pub weight: u64,
    pub response_counter: u64,
    pub responses: Vec<Response>,
}

/// The mathematical model of an endpoint health record.
#[verifier::ext_equal]
pub struct RpcModel {
    pub url: Seq<char>,
    pub avg_response_time: u128,
    pub connections: u64,
    pub weight: u64,
    pub response_counter: u64,
    pub responses: Seq<ResponseModel>,
}

impl DeepView for RPC {
    type V = RpcModel;

    open spec fn deep_view(&self) -> RpcModel {
        RpcModel {
            url: self.url@,
            avg_response_time: self.avg_response_time,
            connections: self.connections,
            weight: self.weight,
            response_counter: self.response_counter,
            responses: self.responses.deep_view(),
        }
    }
}

/// Cache configuration: the TTL window in microseconds, and a declared
/// list of methods meant to bypass caching. The exclusion list is parsed
/// into configuration but deliberately not consulted by the lookup path;
/// enforcing it is an open extension point, not a silent fix to make.
#[derive(Clone, Debug, PartialEq)]
pub struct CacheOptions {
    pub cache_clear: u128,
    pub exclude_methods: Vec<String>,
}

/// The mathematical model of the cache configuration.
#[verifier::ext_equal]
pub struct CacheOptionsModel {
    pub cache_clear: u128,
    pub exclude_methods: Seq<Seq<char>>,
}

impl DeepView for CacheOptions {
    type V = CacheOptionsModel;

    open spec fn deep_view(&self) -> CacheOptionsModel {
        CacheOptionsModel {
            cache_clear: self.cache_clear,
            exclude_methods: self.exclude_methods.deep_view(),
        }
    }
}

impl Default for Response {
    /// The empty record: no method, no parameters, an empty text result.
    fn default() -> (r: Response)
        ensures
            r.deep_view() == (ResponseModel {
                method: Seq::<char>::empty(),
                params: Seq::<InnerDataModel>::empty(),
                result: Some(InnerDataModel::Text(Seq::<char>::empty())),
                time_taken: 12,
                start_time: 0,
            }),
    {
        let r = Response {
            method: String::new(),
            params: Vec::new(),
            result: Some(ResponseInnerData::Text(String::new())),
            time_taken: 12,
            start_time: 0,
        };
        proof {
            assert(r.deep_view() =~= (ResponseModel {
                method: Seq::<char>::empty(),
                params: Seq::<InnerDataModel>::empty(),
                result: Some(InnerDataModel::Text(Seq::<char>::empty())),
                time_taken: 12,
                start_time: 0,
            }));
        }
        r
    }
}

impl Default for RpcResponse {
    /// The empty envelope: an empty text result and no error.
    fn default() -> (r: RpcResponse)
        ensures
            r.deep_view() == (RpcResponseModel {
                jsonrpc: Seq::<char>::empty(),
                result: Some(InnerDataModel::Text(Seq::<char>::empty())),
                id: NumberStringModel::Text(Seq::<char>::empty()),
                error: None,
            }),
    {
        let r = RpcResponse {
            jsonrpc: String::new(),
            result: Some(ResponseInnerData::Text(String::new())),
            id: NumberString::Text(String::new()),
            error: None,
        };
        proof {
            assert(r.deep_view() =~= (RpcResponseModel {
                jsonrpc: Seq::<char>::empty(),
                result: Some(InnerDataModel::Text(Seq::<char>::empty())),
                id: NumberStringModel::Text(Seq::<char>::empty()),
                error: None,
            }));
        }
        r
    }
}

impl Default for RpcError {
    /// The empty error envelope.
    fn default() -> (r: RpcError)
        ensures
            r.deep_view() == (RpcErrorModel {
                error: Seq::<char>::empty(),
                jsonrpc: Seq::<char>::empty(),
                method: Seq::<char>::empty(),
                params: Seq::<InnerDataModel>::empty(),
                id: NumberStringModel::Text(Seq::<char>::empty()),
                time_taken: 0,
            }),
    {
        let r = RpcError {
            error: String::new(),
            jsonrpc: String::new(),
            method: String::new(),
            params: Vec::new(),
            id: NumberString::Text(String::new()),
            time_taken: 0,
        };
        proof {
            assert(r.deep_view() =~= (RpcErrorModel {
                error: Seq::<char>::empty(),
                jsonrpc: Seq::<char>::empty(),
                method: Seq::<char>::empty(),
                params: Seq::<InnerDataModel>::empty(),
                id: NumberStringModel::Text(Seq::<char>::empty()),
                time_taken: 0,
            }));
        }
        r
    }
}

/// An owned copy of a key/value entry list with the same model.
pub fn duplicate_entries(entries: &Vec<(String, String)>) -> (r: Vec<(String, String)>)
    ensures
        r.deep_view() == entries.deep_view(),
{
    let mut r: Vec<(String, String)> = Vec::new();
    let mut i: usize = 0;
    while i < entries.len()
        invariant
            i <= entries@.len(),
            r@.len() == i,
            forall|j: int| 0 <= j < i ==> (#[trigger] r@[j]).deep_view() == entries@[j].deep_view(),
        decreases entries@.len() - i,
    {
        let p = &entries[i];
        r.push((p.0.clone(), p.1.clone()));
        i = i + 1;
    }
    proof {
        assert(r.deep_view() =~= entries.deep_view());
    }
    r
}

impl InnerData {
    /// An owned copy with the same model.
    pub fn duplicate(&self) -> (r: InnerData)
        ensures
            r.deep_view() == self.deep_view(),
    {
        match self {
            InnerData::Text(s) => InnerData::Text(s.clone()),
            InnerData::TextArray(v) => {
                let r = InnerData::TextArray(v.clone());
                proof {
                    assert(r.deep_view() =~= self.deep_view());
                }
                r
            },
            InnerData::NumberArray(v) => {
                let r = InnerData::NumberArray(v.clone());
                proof {
                    assert(r.deep_view() =~= self.deep_view());
                }
                r
            },
            InnerData::Boolean(b) => InnerData::Boolean(*b),
            InnerData::Object(v) => InnerData::Object(duplicate_entries(v)),
        }
    }
}

impl ResponseInnerData {
    /// An owned copy with the same model.
    pub fn duplicate(&self) -> (r: ResponseInnerData)
        ensures
            r.deep_view() == self.deep_view(),
    {
        match self {
            ResponseInnerData::Text(s) => ResponseInnerData::Text(s.clone()),
            ResponseInnerData::TextArray(v) => {
                let r = ResponseInnerData::TextArray(v.clone());
                proof {
                    assert(r.deep_view() =~= self.deep_view());
                }
                r
            },
            ResponseInnerData::NumberArray(v) => {
                let r = ResponseInnerData::NumberArray(v.clone());
                proof {
                    assert(r.deep_view() =~= self.deep_view());
                }
                r
            },
            ResponseInnerData::Boolean(b) => ResponseInnerData::Boolean(*b),
            ResponseInnerData::Object(v) => ResponseInnerData::Object(duplicate_entries(v)),
        }
    }
}

impl NumberString {
    /// An owned copy with the same model.
    pub fn duplicate(&self) -> (r: NumberString)
        ensures
            r.deep_view() == self.deep_view(),
    {
        match self {
            NumberString::Text(s) => NumberString::Text(s.clone()),
            NumberString::Number(n) => NumberString::Number(*n),
        }
    }
}

/// An owned copy of a parameter list with the same model.
pub fn duplicate_params(params: &Vec<InnerData>) -> (r: Vec<InnerData>)
    ensures
        r.deep_view() == params.deep_view(),
{
    let mut r: Vec<InnerData> = Vec::new();
    let mut i: usize = 0;
    while i < params.len()
        invariant
            i <= params@.len(),
            r@.len() == i,
            forall|j: int| 0 <= j < i ==> (#[trigger] r@[j]).deep_view() == params@[j].deep_view(),
        decreases params@.len() - i,
    {
        r.push(params[i].duplicate());
        i = i + 1;
    }
    proof {
        assert(r.deep_view() =~= params.deep_view());
    }
    r
}

impl Response {
    /// An owned copy with the same model.
    pub fn duplicate(&self) -> (r: Response)
        ensures
            r.deep_view() == self.deep_view(),
    {
        let result = match &self.result {
            Some(d) => Some(d.duplicate()),
            None => None,
        };
        let r = Response {
            method: self.method.clone(),
            params: duplicate_params(&self.params),
            result,
            time_taken: self.time_taken,
            start_time: self.start_time,
        };
        proof {
            assert(r.deep_view() =~= self.deep_view());
        }
        r
    }
}

} // verus!
