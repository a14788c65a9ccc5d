//! Request and response envelopes for remote procedure calls.
use vstd::prelude::*;
use crate::text::{is_token_text, token_text, chars_of};

verus! {

#[derive(Debug, Clone, Copy, PartialEq, Eq, Structural)]
pub enum RpcError {
    InvalidMethod,
    PayloadTooLarge,
    InvalidId,
}

#[derive(Debug, Clone, PartialEq, Eq)]
pub struct RpcRequest {
    pub id: String,
    pub method: String,
    pub payload: Vec<u8>,
}

#[derive(Debug, Clone, PartialEq, Eq)]
pub enum RpcResponse {
    Success { id: String, payload: Vec<u8> },
    Failure { id: String, code: String, message: String },
}

/// Builds envelopes whose payloads are at most `max_payload` bytes.
#[derive(Debug, Clone)]
pub struct RpcFacade {
    max_payload: usize,
}

pub const MAX_NAME_BYTES: usize = 128;

/// Letters, digits, `.`, `_` and `-`.
pub open spec fn method_char(c: char) -> bool {
    ('a' <= c && c <= 'z') || ('A' <= c && c <= 'Z') || ('0' <= c && c <= '9') || c == '.' || c
        == '_' || c == '-'
}

pub open spec fn valid_method(m: Seq<char>) -> bool {
    &&& m.len() > 0
    &&& crate::text::byte_len(m) <= MAX_NAME_BYTES
    &&& forall|i: int| 0 <= i < m.len() ==> method_char(#[trigger] m[i])
}

fn is_method(m: &str) -> (r: bool)
    ensures
        r == valid_method(m@),
{
    if m.is_empty() || m.len() > MAX_NAME_BYTES {
        return false;
    }
    let v = chars_of(m);
    let mut i: usize = 0;
    while i < v.len()
        invariant
            v@ == m@,
            i <= v@.len(),
            forall|j: int| 0 <= j < i ==> method_char(#[trigger] m@[j]),
        decreases v@.len() - i,
    {
        let c = v[i];
        if !(('a' <= c && c <= 'z') || ('A' <= c && c <= 'Z') || ('0' <= c && c <= '9') || c == '.'
            || c == '_' || c == '-') {
            return false;
        }
        i = i + 1;
    }
    true
}

impl RpcFacade {
    pub closed spec fn max_payload(&self) -> nat {
        self.max_payload as nat
    }

    pub fn new(max_payload: usize) -> (f: RpcFacade)
        ensures
            f.max_payload() == max_payload,
    {
        RpcFacade { max_payload }
    }

    /// A request with an id of 1 to 128 bytes without control or whitespace characters, a
    /// method of letters, digits, `.`, `_` and `-`, and a payload within the limit.
    pub fn request(&self, id: &str, method: &str, payload: Vec<u8>) -> (r: Result<RpcRequest, RpcError>)
        ensures
            !token_text(id@, MAX_NAME_BYTES as nat) ==> r == Err::<RpcRequest, _>(RpcError::InvalidId),
            token_text(id@, MAX_NAME_BYTES as nat) && !valid_method(method@) ==> r == Err::<
                RpcRequest,
                _,
            >(RpcError::InvalidMethod),
            token_text(id@, MAX_NAME_BYTES as nat) && valid_method(method@) && payload@.len()
                > self.max_payload() ==> r == Err::<RpcRequest, _>(RpcError::PayloadTooLarge),
            token_text(id@, MAX_NAME_BYTES as nat) && valid_method(method@) && payload@.len()
                <= self.max_payload() ==> (r matches Ok(q) && q.id@ == id@ && q.method@ == method@
                && q.payload@ == payload@),
    {
        if !is_token_text(id, MAX_NAME_BYTES) {
            return Err(RpcError::InvalidId);
        }
        if !is_method(method) {
            return Err(RpcError::InvalidMethod);
        }
        if payload.len() > self.max_payload {
            return Err(RpcError::PayloadTooLarge);
        }
        Ok(RpcRequest { id: id.to_string(), method: method.to_string(), payload })
    }

    /// The successful answer to `request`.
    pub fn success(&self, request: &RpcRequest, payload: Vec<u8>) -> (r: Result<RpcResponse, RpcError>)
        ensures
            payload@.len() > self.max_payload() ==> r == Err::<RpcResponse, _>(RpcError::PayloadTooLarge),
            payload@.len() <= self.max_payload() ==> (r matches Ok(RpcResponse::Success { id, payload: p })
                && id@ == request.id@ && p@ == payload@),
    {
        if payload.len() > self.max_payload {
            return Err(RpcError::PayloadTooLarge);
        }
        Ok(RpcResponse::Success { id: request.id.clone(), payload })
    }

    /// The failed answer to `request`.
    pub fn failure(&self, request: &RpcRequest, code: &str, message: &str) -> (r: RpcResponse)
        ensures
            r matches RpcResponse::Failure { id, code: c, message: m } && id@ == request.id@ && c@
                == code@ && m@ == message@,
    {
        RpcResponse::Failure { id: request.id.clone(), code: code.to_string(), message: message.to_string() }
    }
}

} // verus!
