use dregheap::framing::{frame_response, request_length, MAX_REQUEST_BYTES};

#[test]
fn frame_prefixes_big_endian_length() {
    let frame = frame_response(vec![9, 8, 7]).unwrap();
    assert_eq!(frame, vec![0, 0, 0, 3, 9, 8, 7]);
    let body = vec![1u8; 0x0102];
    let frame = frame_response(body.clone()).unwrap();
    assert_eq!(&frame[..4], &[0, 0, 1, 2]);
    assert_eq!(&frame[4..], &body[..]);
}

#[test]
fn empty_body_frames_to_zero_length() {
    assert_eq!(frame_response(Vec::new()).unwrap(), vec![0, 0, 0, 0]);
}

#[test]
fn length_prefix_reads_back() {
    let frame = frame_response(vec![5; 300]).unwrap();
    let prefix = [frame[0], frame[1], frame[2], frame[3]];
    assert_eq!(request_length(prefix).unwrap(), 300);
}

#[test]
fn request_length_decodes_big_endian() {
    assert_eq!(request_length([0, 0, 0, 0]).unwrap(), 0);
    assert_eq!(request_length([0, 1, 0, 1]).unwrap(), 65537);
    assert_eq!(request_length([0, 16, 0, 0]).unwrap(), MAX_REQUEST_BYTES as usize);
}

#[test]
fn request_length_refuses_oversized_requests() {
    let err = request_length([0, 16, 0, 1]).unwrap_err();
    assert_eq!(
        err,
        "request is too large: 1048577 bytes exceeds 1048576 byte limit"
    );
    let err = request_length([255, 255, 255, 255]).unwrap_err();
    assert_eq!(
        err,
        "request is too large: 4294967295 bytes exceeds 1048576 byte limit"
    );
}
