use std::io::{Error, ErrorKind};

use dregheap::handler::{
    earliest_deadline, idle_deadline_after_response, request_deadline, respond_to_outcome,
    should_close, timeout_close_cause, ReadRequestOutcome, TimeoutCause,
};
use dregheap::protocol::{Request, RequestMethod, ResponseErrorCode, ResponseStatus};
use dregheap::store::{make_store, Store};

#[test]
fn reads_that_fail_close_the_connection() {
    assert!(!should_close(Ok(4)));
    assert!(should_close(Err(Error::new(ErrorKind::UnexpectedEof, "eof"))));
    assert!(should_close(Err(Error::new(ErrorKind::ConnectionReset, "reset"))));
}

#[test]
fn requests_are_served_and_keep_the_connection() {
    let mut store = make_store();
    let outcome = ReadRequestOutcome::Request(Request {
        method: RequestMethod::Put,
        key: "k".to_string(),
        value: Some(vec![1]),
    });
    let (response, close) = respond_to_outcome(outcome, &mut store).unwrap();
    assert!(!close);
    assert_eq!(response.status, ResponseStatus::Success);
    assert_eq!(store.get("k").unwrap(), vec![1]);
}

#[test]
fn protocol_errors_are_answered_then_close() {
    let mut store = make_store();
    let outcome = ReadRequestOutcome::ProtocolError("malformed request body: bad".to_string());
    let (response, close) = respond_to_outcome(outcome, &mut store).unwrap();
    assert!(close);
    assert_eq!(response.status, ResponseStatus::Error);
    assert_eq!(response.error_code, Some(ResponseErrorCode::MalformedRequest));
    assert_eq!(response.message, "malformed request body: bad");
    assert_eq!(response.value, None);
}

#[test]
fn a_closed_read_sends_nothing() {
    let mut store = make_store();
    assert!(respond_to_outcome(ReadRequestOutcome::Close, &mut store).is_none());
}

#[test]
fn earliest_of_three_deadlines() {
    assert_eq!(earliest_deadline(5, 9, 7), 5);
    assert_eq!(earliest_deadline(9, 5, 7), 5);
    assert_eq!(earliest_deadline(9, 7, 5), 5);
    assert_eq!(earliest_deadline(4, 4, 4), 4);
}

#[test]
fn request_deadline_adds_read_timeout() {
    assert_eq!(request_deadline(100, 50, 1000, 2000), 150);
    assert_eq!(request_deadline(100, 50, 120, 2000), 120);
    assert_eq!(request_deadline(100, 50, 1000, 110), 110);
    assert_eq!(request_deadline(u64::MAX - 1, 50, u64::MAX, u64::MAX), u64::MAX);
}

#[test]
fn timeout_cause_prefers_lifetime_then_idle_then_read() {
    assert_eq!(timeout_close_cause(10, 5, 5, 10), TimeoutCause::MaxLifetime);
    assert_eq!(timeout_close_cause(10, 5, 10, 20), TimeoutCause::IdleTtl);
    assert_eq!(timeout_close_cause(10, 10, 20, 30), TimeoutCause::ReadTimeout);
    assert_eq!(timeout_close_cause(10, 11, 20, 30), TimeoutCause::Unknown);
}

#[test]
fn idle_deadline_moves_until_lifetime_is_reached() {
    assert_eq!(idle_deadline_after_response(100, 1000, 50), Some(150));
    assert_eq!(idle_deadline_after_response(1000, 1000, 50), None);
    assert_eq!(idle_deadline_after_response(1001, 1000, 50), None);
    assert_eq!(idle_deadline_after_response(10, u64::MAX, u64::MAX), Some(u64::MAX));
}
