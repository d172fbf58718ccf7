//! Serving requests: what the store is asked for each request, and what the
//! client is answered.
use vstd::prelude::*;
use vstd::string::*;

use crate::cache_model::{lookup, store_outcome, touched, without_key};
use crate::errors::ErrorView;
use crate::protocol::{
    Request, RequestMethod, Response, ResponseErrorCode, ResponseStatus, ResponseView,
    opt_bytes, set_without_value_message,
};
use crate::config::{duration_from_secs, secs_duration};
use crate::store::{DregStore, Store};
use std::time::Duration;

verus! {

/// A successful response.
pub open spec fn ok_view(message: Seq<char>, value: Option<Seq<u8>>) -> ResponseView {
    ResponseView { status: ResponseStatus::Success, message, value, error_code: None }
}

/// A failed response with its error code.
pub open spec fn error_view(code: ResponseErrorCode, message: Seq<char>) -> ResponseView {
    ResponseView { status: ResponseStatus::Error, message, value: None, error_code: Some(code) }
}

/// A successful response carrying `message` and `value`.
pub fn ok_response(message: String, value: Option<Vec<u8>>) -> (r: Response)
    ensures
        r@ == ok_view(message@, opt_bytes(value)),
{
    Response { status: ResponseStatus::Success, message, value, error_code: None }
}

/// A failed response with `code` and `message`.
pub fn error_response(code: ResponseErrorCode, message: String) -> (r: Response)
    ensures
        r@ == error_view(code, message@),
{
    Response { status: ResponseStatus::Error, message, value: None, error_code: Some(code) }
}

/// The answer to storing under `key` in a store holding `items`, and the
/// items afterwards.
pub open spec fn put_answer(
    items: Seq<crate::cache_model::Item>,
    limit: Option<usize>,
    key: Seq<char>,
    value: Option<Seq<u8>>,
) -> (ResponseView, Seq<crate::cache_model::Item>) {
    match value {
        None => (error_view(ResponseErrorCode::InvalidRequest, set_without_value_message()), items),
        Some(v) => match store_outcome(items, limit, key, v) {
            Ok(after) => (ok_view("Success"@, None), after),
            Err(ErrorView::CacheEntryTooLarge(m)) => (
                error_view(ResponseErrorCode::InvalidRequest, m),
                items,
            ),
            Err(ErrorView::Custom(m)) => (error_view(ResponseErrorCode::Internal, m), items),
        },
    }
}

/// The answer to `req` against a store holding `items`, and the items afterwards.
pub open spec fn request_answer(
    items: Seq<crate::cache_model::Item>,
    limit: Option<usize>,
    req: Request,
) -> (ResponseView, Seq<crate::cache_model::Item>) {
    match req.method {
        RequestMethod::Put => put_answer(items, limit, req.key@, opt_bytes(req.value)),
        RequestMethod::Get => match lookup(items, req.key@) {
            Some(v) => (ok_view("found value"@, Some(v)), touched(items, req.key@)),
            None => (
                error_view(
                    ResponseErrorCode::NotFound,
                    crate::cache_model::not_found_message(),
                ),
                items,
            ),
        },
        RequestMethod::Delete => (ok_view("Deleted"@, None), without_key(items, req.key@)),
    }
}

/// Whether serving `req` reaches the store: every request does except a `Put`
/// without a value, which is refused before the store is touched.
pub fn needs_store(req: &Request) -> (r: bool)
    ensures
        r == !(req.method == RequestMethod::Put && req.value is None),
        !r ==> request_answer(Seq::empty(), None, *req).0 == error_view(
            ResponseErrorCode::InvalidRequest,
            set_without_value_message(),
        ),
{
    !(req.method == RequestMethod::Put && req.value.is_none())
}

/// Serves one request against the store and builds the response.
pub fn process_request(req: Request, store: &mut DregStore) -> (r: Response)
    ensures
        r@ == request_answer(old(store)@, old(store).limit(), req).0,
        final(store)@ == request_answer(old(store)@, old(store).limit(), req).1,
        final(store).limit() == old(store).limit(),
{
    match req.method {
        RequestMethod::Put => {
            let value = match req.value {
                Some(value) => value,
                None => {
                    return error_response(
                        ResponseErrorCode::InvalidRequest,
                        String::from_str("Set requests must include a value"),
                    );
                },
            };
            match store.set(req.key, Some(value)) {
                Ok(()) => ok_response(String::from_str("Success"), None),
                Err(e) => match e {
                    crate::errors::Error::CacheEntryTooLarge(message) => error_response(
                        ResponseErrorCode::InvalidRequest,
                        message,
                    ),
                    e => error_response(ResponseErrorCode::Internal, e.to_string()),
                },
            }
        },
        RequestMethod::Get => match store.get(req.key.as_str()) {
            Ok(val) => ok_response(String::from_str("found value"), Some(val)),
            Err(e) => error_response(ResponseErrorCode::NotFound, e.to_string()),
        },
        RequestMethod::Delete => match store.set(req.key, None) {
            Ok(()) => ok_response(String::from_str("Deleted"), None),
            Err(e) => error_response(ResponseErrorCode::Internal, e.to_string()),
        },
    }
}

/// How long a connection may wait for each step, and how long it may live.
#[derive(Debug, Clone, Copy)]
pub struct ConnectionConfig {
    pub read_timeout: Duration,
    pub write_timeout: Duration,
    pub idle_connection_ttl: Duration,
    pub max_connection_lifetime: Duration,
}

impl Default for ConnectionConfig {
    /// Ten seconds to read a request or write a response, three minutes of
    /// idleness, thirty minutes of life.
    fn default() -> (c: Self)
        ensures
            c.read_timeout == secs_duration(10),
            c.write_timeout == secs_duration(10),
            c.idle_connection_ttl == secs_duration(180),
            c.max_connection_lifetime == secs_duration(1800),
    {
        ConnectionConfig {
            read_timeout: duration_from_secs(10),
            write_timeout: duration_from_secs(10),
            idle_connection_ttl: duration_from_secs(3 * 60),
            max_connection_lifetime: duration_from_secs(30 * 60),
        }
    }
}

/// `std::io::Error`, carried through without looking inside.
#[verifier::external_type_specification]
#[verifier::external_body]
pub struct ExIoError(std::io::Error);

/// Whether a read on the connection ends it: any failure does, an early end
/// of stream as well as any other error.
pub fn should_close(read_result: std::io::Result<usize>) -> (close: bool)
    ensures
        close == read_result is Err,
{
    match read_result {
        Ok(_) => false,
        Err(_) => true,
    }
}

/// What reading one request from the connection gave.
pub enum ReadRequestOutcome {
    /// A well-formed request.
    Request(Request),
    /// A frame that is too large or does not decode, with the reason.
    ProtocolError(String),
    /// The client went away or the read failed.
    Close,
}

/// What to send back for a read outcome and whether to close the connection
/// after sending it; `None` closes it at once. A request is served against
/// the store; a protocol error is answered as a malformed request.
pub fn respond_to_outcome(outcome: ReadRequestOutcome, store: &mut DregStore) -> (r: Option<
    (Response, bool),
>)
    ensures
        final(store).limit() == old(store).limit(),
        match outcome {
            ReadRequestOutcome::Request(req) => r matches Some((resp, close)) && !close && resp@
                == request_answer(old(store)@, old(store).limit(), req).0 && final(store)@
                == request_answer(old(store)@, old(store).limit(), req).1,
            ReadRequestOutcome::ProtocolError(m) => r matches Some((resp, close)) && close && resp@
                == error_view(ResponseErrorCode::MalformedRequest, m@) && final(store)@ == old(
                store,
            )@,
            ReadRequestOutcome::Close => r is None && final(store)@ == old(store)@,
        },
{
    match outcome {
        ReadRequestOutcome::Request(request) => Some((process_request(request, store), false)),
        ReadRequestOutcome::ProtocolError(message) => Some(
            (error_response(ResponseErrorCode::MalformedRequest, message), true),
        ),
        ReadRequestOutcome::Close => None,
    }
}

pub open spec fn min3(a: u64, b: u64, c: u64) -> u64 {
    let m = if a <= b {
        a
    } else {
        b
    };
    if m <= c {
        m
    } else {
        c
    }
}

/// The first of three deadlines.
pub fn earliest_deadline(read_deadline: u64, idle_deadline: u64, lifetime_deadline: u64) -> (d:
    u64)
    ensures
        d == min3(read_deadline, idle_deadline, lifetime_deadline),
{
    let first = if read_deadline <= idle_deadline {
        read_deadline
    } else {
        idle_deadline
    };
    if first <= lifetime_deadline {
        first
    } else {
        lifetime_deadline
    }
}

/// `a + b`, or `u64::MAX` when the sum does not fit: a deadline that far off
/// is never reached.
pub open spec fn sat_add(a: u64, b: u64) -> u64 {
    if a + b > u64::MAX {
        u64::MAX
    } else {
        (a + b) as u64
    }
}

/// When reading the next request must end: the read timeout from `now`, or
/// the idle or lifetime deadline if earlier. Times are milliseconds since the
/// connection opened.
pub fn request_deadline(now: u64, read_timeout: u64, idle_deadline: u64, lifetime_deadline: u64) -> (d: u64)
    ensures
        d == min3(sat_add(now, read_timeout), idle_deadline, lifetime_deadline),
{
    earliest_deadline(now.saturating_add(read_timeout), idle_deadline, lifetime_deadline)
}

/// Why a connection whose read timed out is closed.
#[derive(Debug, Clone, Copy, PartialEq, Eq, Structural)]
pub enum TimeoutCause {
    MaxLifetime,
    IdleTtl,
    ReadTimeout,
    Unknown,
}

/// The deadline that a timed-out read ran into, checked from the lifetime
/// deadline down to the read deadline.
pub fn timeout_close_cause(now: u64, read_deadline: u64, idle_deadline: u64, lifetime_deadline: u64) -> (c: TimeoutCause)
    ensures
        c == (if now >= lifetime_deadline {
            TimeoutCause::MaxLifetime
        } else if now >= idle_deadline {
            TimeoutCause::IdleTtl
        } else if now >= read_deadline {
            TimeoutCause::ReadTimeout
        } else {
            TimeoutCause::Unknown
        }),
{
    if now >= lifetime_deadline {
        TimeoutCause::MaxLifetime
    } else if now >= idle_deadline {
        TimeoutCause::IdleTtl
    } else if now >= read_deadline {
        TimeoutCause::ReadTimeout
    } else {
        TimeoutCause::Unknown
    }
}

/// After a response was written at `now`: `None` when the connection has
/// reached its lifetime and closes, else the new idle deadline.
pub fn idle_deadline_after_response(now: u64, lifetime_deadline: u64, idle_ttl: u64) -> (r: Option<u64>)
    ensures
        r == (if now >= lifetime_deadline {
            None
        } else {
            Some(sat_add(now, idle_ttl))
        }),
{
    if now >= lifetime_deadline {
        None
    } else {
        Some(now.saturating_add(idle_ttl))
    }
}

} // verus!
