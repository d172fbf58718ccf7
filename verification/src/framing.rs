//! Length-prefixed framing of messages on a connection: four big-endian
//! length bytes, then the body.
use vstd::prelude::*;
use vstd::string::*;

use crate::text::{append_str, decimal_chars, decimal_string};

verus! {

/// The largest request body a client may send.
pub const MAX_REQUEST_BYTES: u32 = 1024 * 1024;

/// The number that four bytes hold, most significant byte first.
pub open spec fn be_u32_value(b: Seq<u8>) -> nat {
    (b[0] as nat) * 16777216 + (b[1] as nat) * 65536 + (b[2] as nat) * 256 + (b[3] as nat)
}

/// The four bytes of `n`, most significant byte first.
pub open spec fn be_u32_bytes(n: u32) -> Seq<u8> {
    seq![
        (n / 16777216) as u8,
        ((n / 65536) % 256) as u8,
        ((n / 256) % 256) as u8,
        (n % 256) as u8,
    ]
}

pub open spec fn request_too_large_message(len: nat) -> Seq<char> {
    "request is too large: "@ + decimal_chars(len) + " bytes exceeds "@ + decimal_chars(
        MAX_REQUEST_BYTES as nat,
    ) + " byte limit"@
}

pub open spec fn response_too_large_message(len: nat) -> Seq<char> {
    "response is too large: "@ + decimal_chars(len) + " bytes exceeds u32 limit"@
}

/// The body length announced by a request's length prefix, or the protocol
/// error for a body above [`MAX_REQUEST_BYTES`].
pub fn request_length(length_buf: [u8; 4]) -> (r: Result<usize, String>)
    ensures
        be_u32_value(length_buf@) <= MAX_REQUEST_BYTES ==> r == Ok::<usize, String>(
            be_u32_value(length_buf@) as usize,
        ),
        be_u32_value(length_buf@) > MAX_REQUEST_BYTES ==> (r matches Err(m) && m@
            == request_too_large_message(be_u32_value(length_buf@))),
{
    let request_len: u32 = (length_buf[0] as u32) * 16777216 + (length_buf[1] as u32) * 65536 + (
    length_buf[2] as u32) * 256 + (length_buf[3] as u32);
    if request_len > MAX_REQUEST_BYTES {
        let message = append_str(
            append_str(
                append_str(
                    append_str(
                        String::from_str("request is too large: "),
                        decimal_string(request_len as u64).as_str(),
                    ),
                    " bytes exceeds ",
                ),
                decimal_string(MAX_REQUEST_BYTES as u64).as_str(),
            ),
            " byte limit",
        );
        return Err(message);
    }
    Ok(request_len as usize)
}

/// The frame that carries `body`: its length in four big-endian bytes, then
/// the body; an error when the length does not fit in `u32`.
pub fn frame_response(body: Vec<u8>) -> (r: Result<Vec<u8>, String>)
    ensures
        body.len() <= u32::MAX ==> (r matches Ok(f) && f@ == be_u32_bytes(body.len() as u32)
            + body@),
        body.len() > u32::MAX ==> (r matches Err(m) && m@ == response_too_large_message(
            body.len() as nat,
        )),
{
    if body.len() as u64 > 4294967295u64 {
        let message = append_str(
            append_str(
                String::from_str("response is too large: "),
                decimal_string(body.len() as u64).as_str(),
            ),
            " bytes exceeds u32 limit",
        );
        return Err(message);
    }
    let response_len = body.len() as u32;
    let mut frame: Vec<u8> = Vec::new();
    frame.push((response_len / 16777216) as u8);
    frame.push(((response_len / 65536) % 256) as u8);
    frame.push(((response_len / 256) % 256) as u8);
    frame.push((response_len % 256) as u8);
    let mut body = body;
    let ghost body_bytes = body@;
    frame.append(&mut body);
    proof {
        assert(frame@ =~= be_u32_bytes(response_len) + body_bytes);
    }
    Ok(frame)
}

/// Reading a length prefix gives back the length it was written from.
pub proof fn lemma_length_prefix_roundtrip(n: u32)
    ensures
        be_u32_value(be_u32_bytes(n)) == n,
{
    let b = be_u32_bytes(n);
    assert(b[0] == n / 16777216);
    assert(be_u32_value(b) == n) by (nonlinear_arith)
        requires
            b[0] == n / 16777216,
            b[1] == (n / 65536) % 256,
            b[2] == (n / 256) % 256,
            b[3] == n % 256,
            n <= 4294967295,
    {
    }
}

} // verus!
