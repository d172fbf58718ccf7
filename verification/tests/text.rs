use dregheap::text::{append_str, decimal_string};

#[test]
fn decimal_rendering() {
    assert_eq!(decimal_string(0), "0");
    assert_eq!(decimal_string(7), "7");
    assert_eq!(decimal_string(10), "10");
    assert_eq!(decimal_string(1234567), "1234567");
    assert_eq!(decimal_string(u64::MAX), u64::MAX.to_string());
}

#[test]
fn append_str_appends() {
    assert_eq!(append_str("ab".to_string(), "cd"), "abcd");
    assert_eq!(append_str(String::new(), ""), "");
}
