//! Framing of the endpoint protocol.

use image_streamer::endpoint_connection::{
    decode_file_reply, decode_file_request, encode_file_reply, encode_file_request,
};
use image_streamer::error::Error;

#[test]
fn test_request_round_trip() {
    let frame = encode_file_request("pages-1.img").unwrap();
    let (name, n) = decode_file_request(&frame, 0).unwrap().unwrap();
    assert_eq!(name, "pages-1.img");
    assert_eq!(n, frame.len());
}

#[test]
fn test_request_wire_bytes() {
    let frame = encode_file_request("ab").unwrap();
    assert_eq!(frame, vec![4, 0, 0, 0, 0x0a, 0x02, b'a', b'b']);
}

#[test]
fn test_empty_request_is_the_empty_record() {
    let frame = encode_file_request("").unwrap();
    assert_eq!(frame, vec![0, 0, 0, 0]);
    // an empty name decodes back as the sentinel
    let (name, n) = decode_file_request(&frame, 0).unwrap().unwrap();
    assert_eq!(name, "");
    assert_eq!(n, 4);
}

#[test]
fn test_request_end_of_stream() {
    let bytes: Vec<u8> = vec![];
    assert_eq!(decode_file_request(&bytes, 0).unwrap(), None);
}

#[test]
fn test_request_truncated() {
    let bytes: Vec<u8> = vec![9, 0, 0, 0, 0x0a];
    assert_eq!(decode_file_request(&bytes, 0), Err(Error::TruncatedFrame));
}

#[test]
fn test_reply_round_trips() {
    let frame = encode_file_reply(true);
    assert_eq!(frame, vec![2, 0, 0, 0, 0x08, 0x01]);
    assert_eq!(decode_file_reply(&frame, 0).unwrap(), Some((true, 6)));

    let frame = encode_file_reply(false);
    assert_eq!(frame, vec![0, 0, 0, 0]);
    assert_eq!(decode_file_reply(&frame, 0).unwrap(), Some((false, 4)));
}

#[test]
fn test_reply_malformed() {
    let bytes: Vec<u8> = vec![2, 0, 0, 0, 0x09, 0x01];
    assert_eq!(decode_file_reply(&bytes, 0), Err(Error::MalformedFrame));
}
