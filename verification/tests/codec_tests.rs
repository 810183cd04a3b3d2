//! The chunked wire format: framing, encoding, decoding.

use image_streamer::error::Error;
use image_streamer::image::{decode_marker, encode_marker, Marker, MarkerBody};

fn round_trip(m: Marker) -> (Marker, usize) {
    let bytes = encode_marker(&m).unwrap();
    let (out, n) = decode_marker(&bytes, 0).unwrap().unwrap();
    assert_eq!(n, bytes.len());
    (out, n)
}

#[test]
fn test_filename_round_trip() {
    let m = Marker {
        seq: 0,
        body: MarkerBody::Filename(String::from("file.img")),
    };
    let (out, _) = round_trip(m);
    assert_eq!(out.seq, 0);
    assert_eq!(out.body, MarkerBody::Filename(String::from("file.img")));
}

#[test]
fn test_file_data_round_trip() {
    let m = Marker {
        seq: 1,
        body: MarkerBody::FileData(11),
    };
    let (out, _) = round_trip(m);
    assert_eq!(out.seq, 1);
    assert_eq!(out.body, MarkerBody::FileData(11));
}

#[test]
fn test_eof_round_trips() {
    let (out, _) = round_trip(Marker { seq: 2, body: MarkerBody::FileEof });
    assert_eq!(out, Marker { seq: 2, body: MarkerBody::FileEof });
    let (out, _) = round_trip(Marker { seq: 3, body: MarkerBody::ImageEof });
    assert_eq!(out, Marker { seq: 3, body: MarkerBody::ImageEof });
}

#[test]
fn test_large_sequence_number_round_trip() {
    let m = Marker {
        seq: u64::MAX,
        body: MarkerBody::FileData(u32::MAX),
    };
    let (out, _) = round_trip(m);
    assert_eq!(out.seq, u64::MAX);
    assert_eq!(out.body, MarkerBody::FileData(u32::MAX));
}

#[test]
fn test_exact_wire_bytes() {
    // seq 3 as `08 03`, file-eof as `20 01`, under a 4-byte LE length
    let bytes = encode_marker(&Marker { seq: 3, body: MarkerBody::FileEof }).unwrap();
    assert_eq!(bytes, vec![4, 0, 0, 0, 0x08, 0x03, 0x20, 0x01]);
}

#[test]
fn test_zero_sequence_number_is_omitted() {
    // seq 0 is not encoded: the record starts with the body field
    let bytes = encode_marker(&Marker { seq: 0, body: MarkerBody::ImageEof }).unwrap();
    assert_eq!(bytes, vec![2, 0, 0, 0, 0x28, 0x01]);
}

#[test]
fn test_filename_wire_bytes() {
    let bytes = encode_marker(&Marker {
        seq: 0,
        body: MarkerBody::Filename(String::from("ab")),
    })
    .unwrap();
    assert_eq!(bytes, vec![4, 0, 0, 0, 0x12, 0x02, b'a', b'b']);
}

#[test]
fn test_end_of_stream_is_clean() {
    let bytes: Vec<u8> = vec![];
    assert_eq!(decode_marker(&bytes, 0).unwrap(), None);
}

#[test]
fn test_truncated_header() {
    let bytes: Vec<u8> = vec![4, 0];
    assert_eq!(decode_marker(&bytes, 0), Err(Error::TruncatedFrame));
}

#[test]
fn test_truncated_record() {
    let bytes: Vec<u8> = vec![4, 0, 0, 0, 0x20];
    assert_eq!(decode_marker(&bytes, 0), Err(Error::TruncatedFrame));
}

#[test]
fn test_length_over_cap_is_malformed() {
    // declared length 10240 breaks the sanity cap
    let bytes: Vec<u8> = vec![0, 40, 0, 0];
    assert_eq!(decode_marker(&bytes, 0), Err(Error::MalformedFrame));
}

#[test]
fn test_unknown_body_tag_is_malformed() {
    let bytes: Vec<u8> = vec![2, 0, 0, 0, 0x30, 0x01];
    assert_eq!(decode_marker(&bytes, 0), Err(Error::MalformedFrame));
}

#[test]
fn test_oversized_filename_rejected_at_encode() {
    let long_name: String = std::iter::repeat('x').take(20000).collect();
    let m = Marker { seq: 0, body: MarkerBody::Filename(long_name) };
    assert_eq!(encode_marker(&m), Err(Error::MalformedFrame));
}

#[test]
fn test_consecutive_frames_decode_in_turn() {
    let mut stream = encode_marker(&Marker {
        seq: 0,
        body: MarkerBody::Filename(String::from("a.img")),
    })
    .unwrap();
    stream.extend(encode_marker(&Marker { seq: 1, body: MarkerBody::FileData(5) }).unwrap());
    // payload bytes follow the FileData frame on the same stream
    stream.extend(b"hello".iter().copied());

    let (m0, n0) = decode_marker(&stream, 0).unwrap().unwrap();
    assert_eq!(m0, Marker { seq: 0, body: MarkerBody::Filename(String::from("a.img")) });
    let (m1, n1) = decode_marker(&stream, n0).unwrap().unwrap();
    assert_eq!(m1, Marker { seq: 1, body: MarkerBody::FileData(5) });
    assert_eq!(&stream[n0 + n1..], b"hello");
}

#[test]
fn test_non_utf8_filename_is_malformed() {
    // tag 0x12, declared length 1, byte 0xff: not UTF-8
    let bytes: Vec<u8> = vec![3, 0, 0, 0, 0x12, 0x01, 0xff];
    assert_eq!(decode_marker(&bytes, 0), Err(Error::MalformedFrame));
}
