//! The error taxonomy of the gateway core, and the classification of
//! transport statuses.
//!
//! `TransportError` reports a failed upstream call; `PoolError` is the
//! terminal error a caller of the pool receives: a transport failure, a
//! malformed probe payload, a chain-id mismatch at bootstrap, or an
//! exhausted retry budget wrapping the last transport failure.

use vstd::prelude::*;
use crate::types::{InnerDataModel, NumberStringModel, RpcError, RpcErrorModel, RpcRequest,
    duplicate_params};

verus! {

/// A failed upstream call: the status line text and the raw response body.
#[derive(Clone, Debug, PartialEq)]
pub struct TransportError {
    pub status_text: String,
    pub body: String,
}

/// The mathematical model of a transport failure.
#[verifier::ext_equal]
pub struct TransportErrorModel {
    pub status_text: Seq<char>,
    pub body: Seq<char>,
}

impl DeepView for TransportError {
    type V = TransportErrorModel;

    open spec fn deep_view(&self) -> TransportErrorModel {
        TransportErrorModel { status_text: self.status_text@, body: self.body@ }
    }
}

impl TransportError {
    /// An owned copy with the same model.
    pub fn duplicate(&self) -> (r: TransportError)
        ensures
            r.deep_view() == self.deep_view(),
    {
        TransportError { status_text: self.status_text.clone(), body: self.body.clone() }
    }
}

impl Default for TransportError {
    /// The empty transport failure, reported when no attempt was ever made.
    fn default() -> (r: TransportError)
        ensures
            r.deep_view() == (TransportErrorModel {
                status_text: Seq::<char>::empty(),
                body: Seq::<char>::empty(),
            }),
    {
        TransportError { status_text: String::new(), body: String::new() }
    }
}

/// A terminal error from the pool.
#[derive(Clone, Debug, PartialEq)]
pub enum PoolError {
    /// An upstream call failed outright (bootstrap probing is fail-fast).
    Transport(TransportError),
    /// A probe payload could not be decoded as a hex chain id; carries the
    /// payload text.
    Decode(String),
    /// An endpoint answered the identity probe with a different chain id
    /// than the pool expects; names both ids.
    Validation { expected: String, actual: String },
    /// Every attempt of a bounded retry failed; wraps the error of the
    /// last attempt.
    RetriesExhausted(TransportError),
}

/// The mathematical model of a terminal pool error.
#[verifier::ext_equal]
pub enum PoolErrorModel {
    Transport(TransportErrorModel),
    Decode(Seq<char>),
    Validation { expected: Seq<char>, actual: Seq<char> },
    RetriesExhausted(TransportErrorModel),
}

impl DeepView for PoolError {
    type V = PoolErrorModel;

    open spec fn deep_view(&self) -> PoolErrorModel {
        match self {
            PoolError::Transport(e) => PoolErrorModel::Transport(e.deep_view()),
            PoolError::Decode(s) => PoolErrorModel::Decode(s@),
            PoolError::Validation { expected, actual } => (PoolErrorModel::Validation {
                expected: expected@,
                actual: actual@,
            }),
            PoolError::RetriesExhausted(e) => PoolErrorModel::RetriesExhausted(e.deep_view()),
        }
    }
}

/// The client-facing message of a terminal pool error: transport failures
/// carry their raw body, and a chain-id mismatch names both ids.
pub open spec fn pool_error_message(e: PoolErrorModel) -> Seq<char> {
    match e {
        PoolErrorModel::Transport(t) => t.body,
        PoolErrorModel::Decode(payload) => "could not decode a chain id from "@ + payload,
        PoolErrorModel::Validation { expected, actual } => expected
            + " is not equal to RPCs response "@ + actual,
        PoolErrorModel::RetriesExhausted(t) => t.body,
    }
}

impl PoolError {
    /// The client-facing message of this error.
    pub fn message(&self) -> (m: String)
        ensures
            m@ == pool_error_message(self.deep_view()),
    {
        match self {
            PoolError::Transport(e) => e.body.clone(),
            PoolError::Decode(payload) => String::from_str(
                "could not decode a chain id from ",
            ).concat(payload.as_str()),
            PoolError::Validation { expected, actual } => expected.clone().concat(
                " is not equal to RPCs response ",
            ).concat(actual.as_str()),
            PoolError::RetriesExhausted(e) => e.body.clone(),
        }
    }

    /// The client-facing error envelope for this error, answering the
    /// given request: it carries this error's message and mirrors the
    /// request's envelope fields.
    pub fn to_rpc_error(&self, request: &RpcRequest) -> (r: RpcError)
        ensures
            r.deep_view() == (RpcErrorModel {
                error: pool_error_message(self.deep_view()),
                jsonrpc: request.jsonrpc@,
                method: request.method@,
                params: request.params.deep_view(),
                id: request.id.deep_view(),
                time_taken: 0,
            }),
    {
        let r = RpcError {
            error: self.message(),
            jsonrpc: request.jsonrpc.clone(),
            method: request.method.clone(),
            params: duplicate_params(&request.params),
            id: request.id.duplicate(),
            time_taken: 0,
        };
        proof {
            assert(r.deep_view() =~= (RpcErrorModel {
                error: pool_error_message(self.deep_view()),
                jsonrpc: request.jsonrpc@,
                method: request.method@,
                params: request.params.deep_view(),
                id: request.id.deep_view(),
                time_taken: 0,
            }));
        }
        r
    }
}

/// Whether an HTTP status code counts as upstream success: only the
/// success-class statuses OK, Created and Accepted do.
pub fn is_success_status(code: u16) -> (r: bool)
    ensures
        r == (code == 200 || code == 201 || code == 202),
{
    code == 200 || code == 201 || code == 202
}

} // verus!
