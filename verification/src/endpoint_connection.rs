//! Framing of the endpoint protocol: the length-prefixed request and
//! reply records that producers and consumers exchange with the engine
//! over its sockets.
//!
//! A request carries a file name (an empty name is the empty record); the
//! reply carries whether the requested file exists. Both travel as a
//! 4-byte little-endian length followed by the record, under the same
//! sanity cap as the shard streams. The socket traffic itself — connect,
//! accept, and the descriptor passing that follows a request — is the
//! caller's part.

use vstd::prelude::*;
use vstd::utf8::{encode_utf8, decode_utf8, valid_utf8, encode_utf8_valid_utf8, encode_utf8_decode_utf8};
use vstd::string::StrSliceExecFns;
use crate::error::Error;
use crate::image::{
    varint_bytes, parse_varint, u32_le_bytes, u32_from_le, MAX_RECORD_LEN, encode_varint_into,
    push_u32_le, decode_varint, lemma_parse_varint_of_encoding, lemma_u32_le_round_trip,
};
use crate::util::{copy_range, string_from_utf8};

verus! {

// ---------------------------------------------------------------------------
// Requests: `{ filename }`
// ---------------------------------------------------------------------------

/// The record of a file request: the name as a length-delimited UTF-8
/// string, omitted entirely when empty.
pub open spec fn request_record_bytes(name: Seq<char>) -> Seq<u8> {
    if name.len() == 0 {
        Seq::<u8>::empty()
    } else {
        seq![0x0au8] + varint_bytes(encode_utf8(name).len() as u64) + encode_utf8(name)
    }
}

/// A request is encodable when its record stays under the sanity cap.
pub open spec fn request_encodable(name: Seq<char>) -> bool {
    request_record_bytes(name).len() < MAX_RECORD_LEN
}

/// A whole request frame.
pub open spec fn request_frame_bytes(name: Seq<char>) -> Seq<u8> {
    u32_le_bytes(request_record_bytes(name).len() as u32) + request_record_bytes(name)
}

/// Parses a request record, which must be consumed exactly.
pub open spec fn parse_request_record(bytes: Seq<u8>) -> Option<Seq<char>> {
    if bytes.len() == 0 {
        Some(Seq::<char>::empty())
    } else if bytes[0] == 0x0a {
        match parse_varint(bytes.drop_first()) {
            None => None,
            Some((l, n)) => {
                let content = bytes.skip(1 + n);
                if content.len() == l && valid_utf8(content) && decode_utf8(content).len() != 0 {
                    Some(decode_utf8(content))
                } else {
                    None
                }
            },
        }
    } else {
        None
    }
}

/// The outcome of looking for one frame at the head of a request stream.
pub enum EndpointParse<T> {
    /// The stream is empty: clean end of requests.
    Eof,
    /// The stream ends inside a frame.
    Truncated,
    /// The declared length is over the cap, or the record does not parse.
    Malformed,
    /// A record, and how many bytes of the stream its frame occupies.
    Parsed(T, int),
}

/// Parses one request frame at the head of `bytes`.
pub open spec fn parse_request_frame(bytes: Seq<u8>) -> EndpointParse<Seq<char>> {
    if bytes.len() == 0 {
        EndpointParse::Eof
    } else if bytes.len() < 4 {
        EndpointParse::Truncated
    } else {
        let l = u32_from_le(bytes[0], bytes[1], bytes[2], bytes[3]) as int;
        if l >= MAX_RECORD_LEN {
            EndpointParse::Malformed
        } else if bytes.len() < 4 + l {
            EndpointParse::Truncated
        } else {
            match parse_request_record(bytes.subrange(4, 4 + l)) {
                None => EndpointParse::Malformed,
                Some(name) => EndpointParse::Parsed(name, 4 + l),
            }
        }
    }
}

/// Encodes one file request frame. Rejects a name of pathological
/// length.
pub fn encode_file_request(name: &str) -> (r: Result<Vec<u8>, Error>)
    ensures
        match r {
            Ok(v) => request_encodable(name@) && v@ == request_frame_bytes(name@),
            Err(e) => e == Error::MalformedFrame && !request_encodable(name@),
        },
{
    let mut record: Vec<u8> = Vec::new();
    let mut bytes = name.as_bytes_vec();
    if bytes.len() > 0 {
        record.push(0x0au8);
        encode_varint_into(&mut record, bytes.len() as u64);
        record.append(&mut bytes);
    }
    assert(record@ =~= request_record_bytes(name@));
    if record.len() >= MAX_RECORD_LEN {
        return Err(Error::MalformedFrame);
    }
    let mut out: Vec<u8> = Vec::new();
    push_u32_le(&mut out, record.len() as u32);
    out.append(&mut record);
    assert(out@ =~= request_frame_bytes(name@));
    Ok(out)
}

/// Looks for one request frame at `pos` in `buf`: `Ok(None)` at the exact
/// end of the buffer, otherwise the requested name and the frame's length
/// in bytes.
pub fn decode_file_request(buf: &Vec<u8>, pos: usize) -> (r: Result<Option<(String, usize)>, Error>)
    requires
        pos <= buf@.len(),
    ensures
        ({
            let tail = buf@.skip(pos as int);
            match r {
                Ok(None) => parse_request_frame(tail) is Eof,
                Ok(Some((name, n))) => {
                    &&& parse_request_frame(tail) == EndpointParse::Parsed(name@, n as int)
                    &&& pos + n <= buf@.len()
                    &&& n >= 4
                },
                Err(e) => {
                    ||| e == Error::TruncatedFrame && parse_request_frame(tail) is Truncated
                    ||| e == Error::MalformedFrame && parse_request_frame(tail) is Malformed
                },
            }
        }),
{
    let ghost tail = buf@.skip(pos as int);
    let len = buf.len();
    if pos == len {
        return Ok(None);
    }
    if len - pos < 4 {
        return Err(Error::TruncatedFrame);
    }
    let b0 = buf[pos];
    let b1 = buf[pos + 1];
    let b2 = buf[pos + 2];
    let b3 = buf[pos + 3];
    assert(tail[0] == b0 && tail[1] == b1 && tail[2] == b2 && tail[3] == b3);
    let l: u32 = b0 as u32 + 256 * (b1 as u32) + 65536 * (b2 as u32) + 16777216 * (b3 as u32);
    assert(l == u32_from_le(b0, b1, b2, b3));
    if l >= MAX_RECORD_LEN as u32 {
        return Err(Error::MalformedFrame);
    }
    let l = l as usize;
    if len - (pos + 4) < l {
        return Err(Error::TruncatedFrame);
    }
    let rec = copy_range(buf, pos + 4, l);
    assert(rec@ =~= tail.subrange(4, 4 + l as int));
    if l == 0 {
        return Ok(Some((String::new(), 4)));
    }
    if rec[0] != 0x0a {
        return Err(Error::MalformedFrame);
    }
    assert(rec@.drop_first() =~= rec@.skip(1));
    match decode_varint(&rec, 1) {
        None => Err(Error::MalformedFrame),
        Some((content_len, n)) => {
            let content_start = 1 + n;
            let have = rec.len() - content_start;
            assert(rec@.skip(1 + n as int) =~= rec@.skip(content_start as int));
            if have as u64 != content_len {
                return Err(Error::MalformedFrame);
            }
            let content = copy_range(&rec, content_start, have);
            assert(content@ =~= rec@.skip(content_start as int));
            match string_from_utf8(content) {
                None => Err(Error::MalformedFrame),
                Some(name) => {
                    if name.as_str().unicode_len() == 0 {
                        return Err(Error::MalformedFrame);
                    }
                    Ok(Some((name, 4 + l)))
                },
            }
        },
    }
}

/// The decoder inverts the encoder: at the head of a stream starting with
/// the frame of an encodable nonempty name, parsing finds that name and
/// consumes exactly its frame. (An empty name travels as the empty
/// record; the server treats it as the end of requests.)
pub proof fn lemma_parse_request_round_trip(name: Seq<char>, rest: Seq<u8>)
    requires
        request_encodable(name),
        name.len() > 0,
    ensures
        parse_request_frame(request_frame_bytes(name) + rest) == EndpointParse::Parsed(
            name,
            request_frame_bytes(name).len() as int,
        ),
{
    let record = request_record_bytes(name);
    let l = record.len() as u32;
    let header = u32_le_bytes(l);
    let bytes = request_frame_bytes(name) + rest;
    assert(bytes =~= header + record + rest);
    assert(bytes[0] == header[0] && bytes[1] == header[1] && bytes[2] == header[2] && bytes[3]
        == header[3]);
    lemma_u32_le_round_trip(l);
    assert(bytes.len() >= 4 + l);
    assert(bytes.subrange(4, 4 + l as int) =~= record);
    let content = encode_utf8(name);
    assert(record[0] == 0x0a);
    assert(record.drop_first() =~= varint_bytes(content.len() as u64) + content);
    lemma_parse_varint_of_encoding(content.len() as u64, content);
    let n = varint_bytes(content.len() as u64).len() as int;
    assert(record.skip(1 + n) =~= content);
    encode_utf8_valid_utf8(name);
    encode_utf8_decode_utf8(name);
}

// ---------------------------------------------------------------------------
// Replies: `{ exists }`
// ---------------------------------------------------------------------------

/// The record of a file reply: one boolean field, omitted when false.
pub open spec fn reply_record_bytes(exists: bool) -> Seq<u8> {
    if exists {
        seq![0x08u8, 1u8]
    } else {
        Seq::<u8>::empty()
    }
}

/// A whole reply frame.
pub open spec fn reply_frame_bytes(exists: bool) -> Seq<u8> {
    u32_le_bytes(reply_record_bytes(exists).len() as u32) + reply_record_bytes(exists)
}

/// Parses a reply record, which must be consumed exactly.
pub open spec fn parse_reply_record(bytes: Seq<u8>) -> Option<bool> {
    if bytes.len() == 0 {
        Some(false)
    } else if bytes.len() == 2 && bytes[0] == 0x08 && bytes[1] == 1 {
        Some(true)
    } else {
        None
    }
}

/// Parses one reply frame at the head of `bytes`.
pub open spec fn parse_reply_frame(bytes: Seq<u8>) -> EndpointParse<bool> {
    if bytes.len() == 0 {
        EndpointParse::Eof
    } else if bytes.len() < 4 {
        EndpointParse::Truncated
    } else {
        let l = u32_from_le(bytes[0], bytes[1], bytes[2], bytes[3]) as int;
        if l >= MAX_RECORD_LEN {
            EndpointParse::Malformed
        } else if bytes.len() < 4 + l {
            EndpointParse::Truncated
        } else {
            match parse_reply_record(bytes.subrange(4, 4 + l)) {
                None => EndpointParse::Malformed,
                Some(exists) => EndpointParse::Parsed(exists, 4 + l),
            }
        }
    }
}

/// Encodes one file reply frame.
pub fn encode_file_reply(exists: bool) -> (r: Vec<u8>)
    ensures
        r@ == reply_frame_bytes(exists),
{
    let mut record: Vec<u8> = Vec::new();
    if exists {
        record.push(0x08u8);
        record.push(1u8);
    }
    assert(record@ =~= reply_record_bytes(exists));
    let mut out: Vec<u8> = Vec::new();
    push_u32_le(&mut out, record.len() as u32);
    out.append(&mut record);
    assert(out@ =~= reply_frame_bytes(exists));
    out
}

/// Looks for one reply frame at `pos` in `buf`.
pub fn decode_file_reply(buf: &Vec<u8>, pos: usize) -> (r: Result<Option<(bool, usize)>, Error>)
    requires
        pos <= buf@.len(),
    ensures
        ({
            let tail = buf@.skip(pos as int);
            match r {
                Ok(None) => parse_reply_frame(tail) is Eof,
                Ok(Some((exists, n))) => {
                    &&& parse_reply_frame(tail) == EndpointParse::Parsed(exists, n as int)
                    &&& pos + n <= buf@.len()
                    &&& n >= 4
                },
                Err(e) => {
                    ||| e == Error::TruncatedFrame && parse_reply_frame(tail) is Truncated
                    ||| e == Error::MalformedFrame && parse_reply_frame(tail) is Malformed
                },
            }
        }),
{
    let ghost tail = buf@.skip(pos as int);
    let len = buf.len();
    if pos == len {
        return Ok(None);
    }
    if len - pos < 4 {
        return Err(Error::TruncatedFrame);
    }
    let b0 = buf[pos];
    let b1 = buf[pos + 1];
    let b2 = buf[pos + 2];
    let b3 = buf[pos + 3];
    assert(tail[0] == b0 && tail[1] == b1 && tail[2] == b2 && tail[3] == b3);
    let l: u32 = b0 as u32 + 256 * (b1 as u32) + 65536 * (b2 as u32) + 16777216 * (b3 as u32);
    assert(l == u32_from_le(b0, b1, b2, b3));
    if l >= MAX_RECORD_LEN as u32 {
        return Err(Error::MalformedFrame);
    }
    let l = l as usize;
    if len - (pos + 4) < l {
        return Err(Error::TruncatedFrame);
    }
    let rec = copy_range(buf, pos + 4, l);
    assert(rec@ =~= tail.subrange(4, 4 + l as int));
    if l == 0 {
        Ok(Some((false, 4)))
    } else if l == 2 {
        if rec[0] == 0x08 && rec[1] == 1 {
            Ok(Some((true, 6)))
        } else {
            Err(Error::MalformedFrame)
        }
    } else {
        Err(Error::MalformedFrame)
    }
}

/// The reply decoder inverts the reply encoder.
pub proof fn lemma_parse_reply_round_trip(exists: bool, rest: Seq<u8>)
    ensures
        parse_reply_frame(reply_frame_bytes(exists) + rest) == EndpointParse::Parsed(
            exists,
            reply_frame_bytes(exists).len() as int,
        ),
{
    let record = reply_record_bytes(exists);
    let l = record.len() as u32;
    let header = u32_le_bytes(l);
    let bytes = reply_frame_bytes(exists) + rest;
    assert(bytes =~= header + record + rest);
    assert(bytes[0] == header[0] && bytes[1] == header[1] && bytes[2] == header[2] && bytes[3]
        == header[3]);
    lemma_u32_le_round_trip(l);
    assert(bytes.len() >= 4 + l);
    assert(bytes.subrange(4, 4 + l as int) =~= record);
}

} // verus!
