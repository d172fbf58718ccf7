//! The messages exchanged with clients: requests on keys and their responses.
use vstd::prelude::*;
use vstd::string::*;

use crate::errors::Error;

verus! {

/// What a request asks the store to do.
#[derive(Debug, Clone, Copy, PartialEq, Eq, Structural)]
pub enum RequestMethod {
    Get,
    /// Stores a value under the key (`Set` on the wire).
    Put,
    Delete,
}

/// A request from a client.
#[derive(Debug, Clone, PartialEq, Eq)]
pub struct Request {
    pub method: RequestMethod,
    pub key: String,
    pub value: Option<Vec<u8>>,
}

/// Whether a request succeeded.
#[derive(Debug, Clone, Copy, PartialEq, Eq, Structural)]
pub enum ResponseStatus {
    /// The request succeeded (`Ok` on the wire).
    Success,
    Error,
}

/// Why a request failed.
#[derive(Debug, Clone, Copy, PartialEq, Eq, Structural)]
pub enum ResponseErrorCode {
    NotFound,
    MalformedRequest,
    InvalidRequest,
    Internal,
}

/// The answer to a request.
#[derive(Debug, Clone, PartialEq, Eq)]
pub struct Response {
    pub status: ResponseStatus,
    pub message: String,
    pub value: Option<Vec<u8>>,
    pub error_code: Option<ResponseErrorCode>,
}

/// The bytes held by an optional byte vector.
pub open spec fn opt_bytes(v: Option<Vec<u8>>) -> Option<Seq<u8>> {
    match v {
        Some(b) => Some(b@),
        None => None,
    }
}

/// What a [`Response`] says.
pub struct ResponseView {
    pub status: ResponseStatus,
    pub message: Seq<char>,
    pub value: Option<Seq<u8>>,
    pub error_code: Option<ResponseErrorCode>,
}

impl View for Response {
    type V = ResponseView;

    open spec fn view(&self) -> ResponseView {
        ResponseView {
            status: self.status,
            message: self.message@,
            value: opt_bytes(self.value),
            error_code: self.error_code,
        }
    }
}

pub open spec fn set_without_value_message() -> Seq<char> {
    "Set requests must include a value"@
}

pub open spec fn get_with_value_message() -> Seq<char> {
    "Get requests must not include a value"@
}

impl Request {
    /// Checks that a `Put` request carries a value and a `Get` request none.
    pub fn validate(&self) -> (r: Result<(), Error>)
        ensures
            match (self.method, self.value) {
                (RequestMethod::Put, None) => r matches Err(e) && e@ == crate::errors::ErrorView::Custom(
                    set_without_value_message(),
                ),
                (RequestMethod::Get, Some(_)) => r matches Err(e) && e@
                    == crate::errors::ErrorView::Custom(get_with_value_message()),
                _ => r is Ok,
            },
    {
        match (self.method, &self.value) {
            (RequestMethod::Put, None) => Err(
                Error::Custom(String::from_str("Set requests must include a value")),
            ),
            (RequestMethod::Get, Some(_)) => Err(
                Error::Custom(String::from_str("Get requests must not include a value")),
            ),
            _ => Ok(()),
        }
    }
}

} // verus!
