use dregheap::handler::{needs_store, process_request};
use dregheap::protocol::{Request, RequestMethod, ResponseErrorCode, ResponseStatus};
use dregheap::store::{make_store, DregStore};

fn req(method: RequestMethod, key: &str, value: Option<&[u8]>) -> Request {
    Request {
        method,
        key: key.to_string(),
        value: value.map(|v| v.to_vec()),
    }
}

#[test]
fn validate_accepts_well_formed_requests() {
    assert!(req(RequestMethod::Put, "k", Some(b"v")).validate().is_ok());
    assert!(req(RequestMethod::Get, "k", None).validate().is_ok());
    assert!(req(RequestMethod::Delete, "k", None).validate().is_ok());
}

#[test]
fn validate_rejects_put_without_value() {
    let err = req(RequestMethod::Put, "k", None).validate().unwrap_err();
    assert_eq!(err.to_string(), "Set requests must include a value");
}

#[test]
fn validate_rejects_get_with_value() {
    let err = req(RequestMethod::Get, "k", Some(b"v")).validate().unwrap_err();
    assert_eq!(err.to_string(), "Get requests must not include a value");
}

#[test]
fn responses_carry_exact_messages() {
    let mut store = make_store();
    let r = process_request(req(RequestMethod::Put, "k", Some(b"v")), &mut store);
    assert_eq!(r.status, ResponseStatus::Success);
    assert_eq!(r.message, "Success");
    assert_eq!(r.value, None);
    assert_eq!(r.error_code, None);

    let r = process_request(req(RequestMethod::Get, "k", None), &mut store);
    assert_eq!(r.message, "found value");
    assert_eq!(r.value, Some(b"v".to_vec()));

    let r = process_request(req(RequestMethod::Delete, "k", None), &mut store);
    assert_eq!(r.status, ResponseStatus::Success);
    assert_eq!(r.message, "Deleted");

    let r = process_request(req(RequestMethod::Get, "k", None), &mut store);
    assert_eq!(r.status, ResponseStatus::Error);
    assert_eq!(r.message, "Value not found");
    assert_eq!(r.value, None);
    assert_eq!(r.error_code, Some(ResponseErrorCode::NotFound));

    let r = process_request(req(RequestMethod::Put, "k", None), &mut store);
    assert_eq!(r.message, "Set requests must include a value");
    assert_eq!(r.error_code, Some(ResponseErrorCode::InvalidRequest));
}

#[test]
fn oversized_put_reports_the_weights() {
    let mut store = DregStore::new(Some(66));
    let r = process_request(req(RequestMethod::Put, "key", Some(b"too large")), &mut store);
    assert_eq!(r.status, ResponseStatus::Error);
    assert_eq!(r.error_code, Some(ResponseErrorCode::InvalidRequest));
    assert_eq!(r.message, "Cache entry weight 76 exceeds maximum cache weight 66");
}

#[test]
fn delete_of_missing_key_succeeds() {
    let mut store = make_store();
    let r = process_request(req(RequestMethod::Delete, "nothing", None), &mut store);
    assert_eq!(r.status, ResponseStatus::Success);
    assert_eq!(r.message, "Deleted");
}

#[test]
fn only_a_put_without_value_stays_away_from_the_store() {
    assert!(!needs_store(&req(RequestMethod::Put, "k", None)));
    assert!(needs_store(&req(RequestMethod::Put, "k", Some(b"v"))));
    assert!(needs_store(&req(RequestMethod::Get, "k", None)));
    assert!(needs_store(&req(RequestMethod::Delete, "k", None)));
}
