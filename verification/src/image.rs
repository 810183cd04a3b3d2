//! The chunked wire format of the shard streams.
//!
//! A shard stream is a sequence of marker frames, each optionally followed
//! by raw payload bytes. A frame is a 4-byte little-endian length `L`
//! (`L < 10240`), then `L` bytes holding a marker record. The record has two
//! fields in a protobuf-style encoding: the sequence number (field 1, a
//! varint, omitted when zero) and exactly one body variant (filename as a
//! length-delimited UTF-8 string, data length as a varint, or one of the two
//! end markers as a boolean varint).
//!
//! [`frame_bytes`] is the specification of the encoder and [`parse_frame`]
//! the specification of the decoder; [`lemma_parse_frame_round_trip`] proves
//! that the decoder inverts the encoder on every encodable marker.

use vstd::prelude::*;
use vstd::utf8::{encode_utf8, decode_utf8, valid_utf8, encode_utf8_valid_utf8, encode_utf8_decode_utf8};
use vstd::arithmetic::div_mod::{lemma_fundamental_div_mod, lemma_div_denominator};
use vstd::string::StrSliceExecFns;
use crate::error::Error;
use crate::util::{copy_range, string_from_utf8};

verus! {

/// Sanity cap: no marker record is ever this long.
pub const MAX_RECORD_LEN: usize = 10240;

/// The body of a chunk marker.
#[derive(Debug, PartialEq)]
pub enum MarkerBody {
    /// Subsequent `FileData` markers with higher sequence numbers belong to
    /// this file, until the next `Filename` marker in sequence order.
    Filename(String),
    /// This many raw payload bytes follow the frame on the same shard.
    FileData(u32),
    /// End of the current file.
    FileEof,
    /// End of the entire image; terminal and unique.
    ImageEof,
}

/// A chunk marker: a globally unique sequence number and one body variant.
#[derive(Debug, PartialEq)]
pub struct Marker {
    pub seq: u64,
    pub body: MarkerBody,
}

/// The mathematical value of a marker body, with the filename as a
/// character sequence.
pub enum SpecMarkerBody {
    Filename(Seq<char>),
    FileData(u32),
    FileEof,
    ImageEof,
}

/// The mathematical value of a marker.
pub struct SpecMarker {
    pub seq: u64,
    pub body: SpecMarkerBody,
}

impl View for MarkerBody {
    type V = SpecMarkerBody;

    open spec fn view(&self) -> SpecMarkerBody {
        match self {
            MarkerBody::Filename(name) => SpecMarkerBody::Filename(name@),
            MarkerBody::FileData(size) => SpecMarkerBody::FileData(*size),
            MarkerBody::FileEof => SpecMarkerBody::FileEof,
            MarkerBody::ImageEof => SpecMarkerBody::ImageEof,
        }
    }
}

impl View for Marker {
    type V = SpecMarker;

    open spec fn view(&self) -> SpecMarker {
        SpecMarker { seq: self.seq, body: self.body@ }
    }
}

// ---------------------------------------------------------------------------
// Encoder specification
// ---------------------------------------------------------------------------

/// Little-endian base-128 varint, minimal length.
pub open spec fn varint_bytes(n: u64) -> Seq<u8>
    decreases n,
{
    if n < 128 {
        seq![n as u8]
    } else {
        seq![(128 + n % 128) as u8] + varint_bytes(n / 128)
    }
}

/// The four little-endian bytes of a 32-bit length.
pub open spec fn u32_le_bytes(n: u32) -> Seq<u8> {
    seq![
        (n % 256) as u8,
        ((n / 256) % 256) as u8,
        ((n / 65536) % 256) as u8,
        (n / 16777216) as u8,
    ]
}

/// The 32-bit value of four little-endian bytes.
pub open spec fn u32_from_le(b0: u8, b1: u8, b2: u8, b3: u8) -> u32 {
    (b0 + 256 * b1 + 65536 * b2 + 16777216 * b3) as u32
}

/// Field 1: the sequence number, omitted when zero.
pub open spec fn seq_field_bytes(seq: u64) -> Seq<u8> {
    if seq == 0 {
        Seq::<u8>::empty()
    } else {
        seq![8u8] + varint_bytes(seq)
    }
}

/// The single body field.
pub open spec fn body_field_bytes(body: SpecMarkerBody) -> Seq<u8> {
    match body {
        SpecMarkerBody::Filename(name) => seq![0x12u8] + varint_bytes(
            encode_utf8(name).len() as u64,
        ) + encode_utf8(name),
        SpecMarkerBody::FileData(size) => seq![0x18u8] + varint_bytes(size as u64),
        SpecMarkerBody::FileEof => seq![0x20u8, 1u8],
        SpecMarkerBody::ImageEof => seq![0x28u8, 1u8],
    }
}

/// The marker record: sequence field then body field.
pub open spec fn record_bytes(m: SpecMarker) -> Seq<u8> {
    seq_field_bytes(m.seq) + body_field_bytes(m.body)
}

/// A marker is encodable when its record stays under the sanity cap.
pub open spec fn encodable(m: SpecMarker) -> bool {
    record_bytes(m).len() < MAX_RECORD_LEN
}

/// A whole frame: the record length in four little-endian bytes, then the
/// record.
pub open spec fn frame_bytes(m: SpecMarker) -> Seq<u8> {
    u32_le_bytes(record_bytes(m).len() as u32) + record_bytes(m)
}

// ---------------------------------------------------------------------------
// Decoder specification
// ---------------------------------------------------------------------------

/// Parses a minimal varint at the head of `bytes`, yielding its value and
/// the number of bytes it occupies. Rejects paddings and values beyond
/// 64 bits.
pub open spec fn parse_varint(bytes: Seq<u8>) -> Option<(u64, int)>
    decreases bytes.len(),
{
    if bytes.len() == 0 {
        None
    } else if bytes[0] < 128 {
        Some((bytes[0] as u64, 1))
    } else {
        match parse_varint(bytes.drop_first()) {
            None => None,
            Some((v, n)) => {
                if v == 0 {
                    // a continuation of value zero would not be minimal
                    None
                } else if v > (0xffff_ffff_ffff_ffffu64 - (bytes[0] - 128)) as u64 / 128 {
                    None
                } else {
                    Some((((v as int) * 128 + (bytes[0] - 128)) as u64, n + 1))
                }
            },
        }
    }
}

/// Parses the body field, which must fill `bytes` exactly.
pub open spec fn parse_body(bytes: Seq<u8>) -> Option<SpecMarkerBody> {
    if bytes.len() == 0 {
        None
    } else if bytes[0] == 0x12 {
        match parse_varint(bytes.drop_first()) {
            None => None,
            Some((l, n)) => {
                let content = bytes.skip(1 + n);
                if content.len() == l && valid_utf8(content) {
                    Some(SpecMarkerBody::Filename(decode_utf8(content)))
                } else {
                    None
                }
            },
        }
    } else if bytes[0] == 0x18 {
        match parse_varint(bytes.drop_first()) {
            None => None,
            Some((v, n)) => {
                if v <= 0xffff_ffffu64 && bytes.len() == 1 + n {
                    Some(SpecMarkerBody::FileData(v as u32))
                } else {
                    None
                }
            },
        }
    } else if bytes[0] == 0x20 {
        if bytes.len() == 2 && bytes[1] == 1 {
            Some(SpecMarkerBody::FileEof)
        } else {
            None
        }
    } else if bytes[0] == 0x28 {
        if bytes.len() == 2 && bytes[1] == 1 {
            Some(SpecMarkerBody::ImageEof)
        } else {
            None
        }
    } else {
        None
    }
}

/// Parses a whole record: an optional sequence field, then the body, with
/// nothing left over.
pub open spec fn parse_record(bytes: Seq<u8>) -> Option<SpecMarker> {
    if bytes.len() == 0 {
        None
    } else if bytes[0] == 8 {
        match parse_varint(bytes.drop_first()) {
            None => None,
            Some((s, n)) => {
                if s == 0 {
                    // an explicit zero would not be minimal
                    None
                } else {
                    match parse_body(bytes.skip(1 + n)) {
                        None => None,
                        Some(b) => Some(SpecMarker { seq: s, body: b }),
                    }
                }
            },
        }
    } else {
        match parse_body(bytes) {
            None => None,
            Some(b) => Some(SpecMarker { seq: 0, body: b }),
        }
    }
}

/// The outcome of looking for one frame at the head of a shard stream.
pub enum FrameParse {
    /// The stream is empty: clean end of stream.
    Eof,
    /// The stream ends inside the length header or inside the declared
    /// record length.
    Truncated,
    /// The declared length is over the cap, or the record does not parse.
    Malformed,
    /// A marker, and how many bytes of the stream its frame occupies.
    Parsed(SpecMarker, int),
}

/// Parses one frame at the head of `bytes`.
pub open spec fn parse_frame(bytes: Seq<u8>) -> FrameParse {
    if bytes.len() == 0 {
        FrameParse::Eof
    } else if bytes.len() < 4 {
        FrameParse::Truncated
    } else {
        let l = u32_from_le(bytes[0], bytes[1], bytes[2], bytes[3]) as int;
        if l >= MAX_RECORD_LEN {
            FrameParse::Malformed
        } else if bytes.len() < 4 + l {
            FrameParse::Truncated
        } else {
            match parse_record(bytes.subrange(4, 4 + l)) {
                None => FrameParse::Malformed,
                Some(m) => FrameParse::Parsed(m, 4 + l),
            }
        }
    }
}

// ---------------------------------------------------------------------------
// Encoder
// ---------------------------------------------------------------------------

/// Appends the minimal varint encoding of `n`.
pub(crate) fn encode_varint_into(out: &mut Vec<u8>, n: u64)
    ensures
        final(out)@ == old(out)@ + varint_bytes(n),
{
    let mut x = n;
    while x >= 128
        invariant
            out@ + varint_bytes(x) == old(out)@ + varint_bytes(n),
        decreases x,
    {
        let ghost x0 = x;
        out.push((x % 128 + 128) as u8);
        x = x / 128;
        proof {
            assert(varint_bytes(x0) =~= seq![(128 + x0 % 128) as u8] + varint_bytes(x0 / 128));
            assert(out@ + varint_bytes(x) =~= old(out)@ + varint_bytes(n));
        }
    }
    out.push(x as u8);
    proof {
        assert(varint_bytes(x) =~= seq![x as u8]);
        assert(out@ =~= old(out)@ + varint_bytes(n));
    }
}

/// Appends the four little-endian bytes of `n`.
pub(crate) fn push_u32_le(out: &mut Vec<u8>, n: u32)
    ensures
        final(out)@ == old(out)@ + u32_le_bytes(n),
{
    out.push((n % 256) as u8);
    out.push(((n / 256) % 256) as u8);
    out.push(((n / 65536) % 256) as u8);
    out.push((n / 16777216) as u8);
    assert(out@ =~= old(out)@ + u32_le_bytes(n));
}

/// Encodes one marker as a frame: the record length then the record.
/// Rejects a marker whose record would break the sanity cap (a filename
/// of pathological length).
pub fn encode_marker(m: &Marker) -> (r: Result<Vec<u8>, Error>)
    ensures
        match r {
            Ok(v) => encodable(m@) && v@ == frame_bytes(m@),
            Err(e) => e == Error::MalformedFrame && !encodable(m@),
        },
{
    let mut record: Vec<u8> = Vec::new();
    if m.seq > 0 {
        record.push(8u8);
        encode_varint_into(&mut record, m.seq);
    }
    assert(record@ =~= seq_field_bytes(m@.seq));
    let ghost seq_part = record@;
    match &m.body {
        MarkerBody::Filename(name) => {
            record.push(0x12u8);
            let mut bytes = name.as_str().as_bytes_vec();
            encode_varint_into(&mut record, bytes.len() as u64);
            record.append(&mut bytes);
            assert(record@ =~= seq_part + body_field_bytes(m@.body));
        },
        MarkerBody::FileData(size) => {
            record.push(0x18u8);
            encode_varint_into(&mut record, *size as u64);
            assert(record@ =~= seq_part + body_field_bytes(m@.body));
        },
        MarkerBody::FileEof => {
            record.push(0x20u8);
            record.push(1u8);
            assert(record@ =~= seq_part + body_field_bytes(m@.body));
        },
        MarkerBody::ImageEof => {
            record.push(0x28u8);
            record.push(1u8);
            assert(record@ =~= seq_part + body_field_bytes(m@.body));
        },
    }
    assert(record@ == record_bytes(m@));
    if record.len() >= MAX_RECORD_LEN {
        return Err(Error::MalformedFrame);
    }
    let mut out: Vec<u8> = Vec::new();
    push_u32_le(&mut out, record.len() as u32);
    out.append(&mut record);
    assert(out@ =~= frame_bytes(m@));
    Ok(out)
}

// ---------------------------------------------------------------------------
// Decoder
// ---------------------------------------------------------------------------

proof fn lemma_varint_result_fits(v: u64, low: u64)
    requires
        low < 128,
        v <= (0xffff_ffff_ffff_ffffu64 - low) / 128,
    ensures
        (v as int) * 128 + low <= 0xffff_ffff_ffff_ffff,
{
    assert((v as int) * 128 + low <= 0xffff_ffff_ffff_ffff) by (nonlinear_arith)
        requires
            low < 128,
            v <= (0xffff_ffff_ffff_ffffu64 - low) / 128,
    ;
}

/// Reads a minimal varint at `pos`.
pub(crate) fn decode_varint(buf: &Vec<u8>, pos: usize) -> (r: Option<(u64, usize)>)
    requires
        pos <= buf@.len(),
    ensures
        match r {
            None => parse_varint(buf@.skip(pos as int)) is None,
            Some((v, n)) => {
                &&& parse_varint(buf@.skip(pos as int)) == Some((v, n as int))
                &&& pos + n <= buf@.len()
                &&& n >= 1
            },
        },
    decreases buf@.len() - pos,
{
    let ghost tail = buf@.skip(pos as int);
    if pos == buf.len() {
        return None;
    }
    let b = buf[pos];
    assert(tail[0] == b);
    if b < 128 {
        return Some((b as u64, 1));
    }
    assert(tail.drop_first() =~= buf@.skip(pos as int + 1));
    match decode_varint(buf, pos + 1) {
        None => None,
        Some((v, n)) => {
            if v == 0 {
                None
            } else if v > (0xffff_ffff_ffff_ffffu64 - ((b - 128) as u64)) / 128 {
                None
            } else {
                proof {
                    lemma_varint_result_fits(v, (b - 128) as u64);
                }
                Some((v * 128 + (b - 128) as u64, n + 1))
            }
        },
    }
}

/// Decodes the record held in `rec`, which must be consumed exactly.
fn decode_record(rec: &Vec<u8>) -> (r: Option<Marker>)
    ensures
        match r {
            Some(m) => parse_record(rec@) == Some(m@),
            None => parse_record(rec@) is None,
        },
{
    if rec.len() == 0 {
        return None;
    }
    let first = rec[0];
    let (seq, body_start): (u64, usize) = if first == 8 {
        assert(rec@.drop_first() =~= rec@.skip(1));
        match decode_varint(rec, 1) {
            None => {
                return None;
            },
            Some((s, n)) => {
                if s == 0 {
                    return None;
                }
                (s, 1 + n)
            },
        }
    } else {
        (0, 0)
    };
    let ghost body = rec@.skip(body_start as int);
    if body_start >= rec.len() {
        return None;
    }
    let tag = rec[body_start];
    assert(body[0] == tag);
    let parsed: Option<MarkerBody> = if tag == 0x12 {
        assert(body.drop_first() =~= rec@.skip(body_start as int + 1));
        match decode_varint(rec, body_start + 1) {
            None => None,
            Some((l, n)) => {
                let content_start = body_start + 1 + n;
                let content_len = rec.len() - content_start;
                assert(body.skip(1 + n as int) =~= rec@.skip(content_start as int));
                if content_len as u64 == l {
                    let content = copy_range(rec, content_start, content_len);
                    assert(content@ =~= rec@.skip(content_start as int));
                    match string_from_utf8(content) {
                        Some(name) => Some(MarkerBody::Filename(name)),
                        None => None,
                    }
                } else {
                    None
                }
            },
        }
    } else if tag == 0x18 {
        assert(body.drop_first() =~= rec@.skip(body_start as int + 1));
        match decode_varint(rec, body_start + 1) {
            None => None,
            Some((v, n)) => {
                if v <= 0xffff_ffffu64 && body_start + 1 + n == rec.len() {
                    Some(MarkerBody::FileData(v as u32))
                } else {
                    None
                }
            },
        }
    } else if tag == 0x20 {
        if rec.len() - body_start == 2 && rec[body_start + 1] == 1 {
            assert(body[1] == rec@[body_start as int + 1]);
            Some(MarkerBody::FileEof)
        } else {
            None
        }
    } else if tag == 0x28 {
        if rec.len() - body_start == 2 && rec[body_start + 1] == 1 {
            assert(body[1] == rec@[body_start as int + 1]);
            Some(MarkerBody::ImageEof)
        } else {
            None
        }
    } else {
        None
    };
    match parsed {
        Some(b) => Some(Marker { seq, body: b }),
        None => None,
    }
}

/// Looks for one frame at `pos` in `buf`.
///
/// Returns `Ok(None)` at the exact end of the buffer, `Ok(Some((m, n)))`
/// when a frame occupying `n` bytes decodes to marker `m`,
/// `Err(TruncatedFrame)` when the buffer ends inside a frame, and
/// `Err(MalformedFrame)` when the declared length is over the cap or the
/// record does not parse.
pub fn decode_marker(buf: &Vec<u8>, pos: usize) -> (r: Result<Option<(Marker, usize)>, Error>)
    requires
        pos <= buf@.len(),
    ensures
        ({
            let tail = buf@.skip(pos as int);
            match r {
                Ok(None) => parse_frame(tail) is Eof,
                Ok(Some((m, n))) => {
                    &&& parse_frame(tail) == FrameParse::Parsed(m@, n as int)
                    &&& pos + n <= buf@.len()
                    &&& n >= 4
                },
                Err(e) => {
                    ||| e == Error::TruncatedFrame && parse_frame(tail) is Truncated
                    ||| e == Error::MalformedFrame && parse_frame(tail) is Malformed
                },
            }
        }),
{
    let ghost tail = buf@.skip(pos as int);
    let len = buf.len();
    if pos == len {
        return Ok(None);
    }
    if len - pos < 4 {
        return Err(Error::TruncatedFrame);
    }
    let b0 = buf[pos];
    let b1 = buf[pos + 1];
    let b2 = buf[pos + 2];
    let b3 = buf[pos + 3];
    assert(tail[0] == b0 && tail[1] == b1 && tail[2] == b2 && tail[3] == b3);
    let l: u32 = b0 as u32 + 256 * (b1 as u32) + 65536 * (b2 as u32) + 16777216 * (b3 as u32);
    assert(l == u32_from_le(b0, b1, b2, b3));
    if l >= MAX_RECORD_LEN as u32 {
        return Err(Error::MalformedFrame);
    }
    let l = l as usize;
    if len - (pos + 4) < l {
        return Err(Error::TruncatedFrame);
    }
    let rec = copy_range(buf, pos + 4, l);
    assert(rec@ =~= tail.subrange(4, 4 + l as int));
    match decode_record(&rec) {
        None => Err(Error::MalformedFrame),
        Some(m) => Ok(Some((m, 4 + l))),
    }
}

// ---------------------------------------------------------------------------
// Round trip: the decoder inverts the encoder
// ---------------------------------------------------------------------------

pub(crate) proof fn lemma_parse_varint_of_encoding(n: u64, rest: Seq<u8>)
    ensures
        parse_varint(varint_bytes(n) + rest) == Some((n, varint_bytes(n).len() as int)),
    decreases n,
{
    let bytes = varint_bytes(n) + rest;
    if n < 128 {
        assert(bytes[0] == n as u8);
    } else {
        lemma_fundamental_div_mod(n as int, 128);
        assert(bytes[0] == (128 + n % 128) as u8);
        assert(bytes.drop_first() =~= varint_bytes(n / 128) + rest);
        lemma_parse_varint_of_encoding(n / 128, rest);
        let v = n / 128;
        let low = n % 128;
        assert(v >= 1);
        assert(v <= (0xffff_ffff_ffff_ffffu64 - low) as u64 / 128) by (nonlinear_arith)
            requires
                (v as int) * 128 + low == n,
                low < 128,
                n <= 0xffff_ffff_ffff_ffffu64,
        ;
        assert(parse_varint(bytes) == Some((((v as int) * 128 + low) as u64, varint_bytes(v).len() as int + 1)));
        assert(varint_bytes(n).len() == varint_bytes(v).len() + 1);
    }
}

proof fn lemma_parse_body_of_encoding(body: SpecMarkerBody)
    requires
        (body matches SpecMarkerBody::Filename(name) ==> encode_utf8(name).len()
            < MAX_RECORD_LEN),
    ensures
        parse_body(body_field_bytes(body)) == Some(body),
{
    let bytes = body_field_bytes(body);
    match body {
        SpecMarkerBody::Filename(name) => {
            let content = encode_utf8(name);
            let l = content.len() as u64;
            assert(bytes[0] == 0x12);
            assert(bytes.drop_first() =~= varint_bytes(l) + content);
            lemma_parse_varint_of_encoding(l, content);
            let n = varint_bytes(l).len() as int;
            assert(bytes.skip(1 + n) =~= content);
            encode_utf8_valid_utf8(name);
            encode_utf8_decode_utf8(name);
        },
        SpecMarkerBody::FileData(size) => {
            assert(bytes[0] == 0x18);
            assert(bytes.drop_first() =~= varint_bytes(size as u64) + Seq::<u8>::empty());
            lemma_parse_varint_of_encoding(size as u64, Seq::<u8>::empty());
            assert(bytes.len() == 1 + varint_bytes(size as u64).len());
        },
        SpecMarkerBody::FileEof => {
            assert(bytes[0] == 0x20 && bytes[1] == 1 && bytes.len() == 2);
        },
        SpecMarkerBody::ImageEof => {
            assert(bytes[0] == 0x28 && bytes[1] == 1 && bytes.len() == 2);
        },
    }
}

proof fn lemma_parse_record_of_encoding(m: SpecMarker)
    requires
        (m.body matches SpecMarkerBody::Filename(name) ==> encode_utf8(name).len()
            < MAX_RECORD_LEN),
    ensures
        parse_record(record_bytes(m)) == Some(m),
{
    let bytes = record_bytes(m);
    lemma_parse_body_of_encoding(m.body);
    if m.seq == 0 {
        assert(bytes =~= body_field_bytes(m.body));
        match m.body {
            SpecMarkerBody::Filename(_) => assert(bytes[0] == 0x12),
            SpecMarkerBody::FileData(_) => assert(bytes[0] == 0x18),
            SpecMarkerBody::FileEof => assert(bytes[0] == 0x20),
            SpecMarkerBody::ImageEof => assert(bytes[0] == 0x28),
        }
    } else {
        assert(bytes[0] == 8);
        assert(bytes.drop_first() =~= varint_bytes(m.seq) + body_field_bytes(m.body));
        lemma_parse_varint_of_encoding(m.seq, body_field_bytes(m.body));
        let n = varint_bytes(m.seq).len() as int;
        assert(bytes.skip(1 + n) =~= body_field_bytes(m.body));
    }
}

pub(crate) proof fn lemma_u32_le_round_trip(n: u32)
    ensures
        u32_from_le(
            (n % 256) as u8,
            ((n / 256) % 256) as u8,
            ((n / 65536) % 256) as u8,
            (n / 16777216) as u8,
        ) == n,
{
    lemma_fundamental_div_mod(n as int, 256);
    lemma_fundamental_div_mod(n as int / 256, 256);
    lemma_fundamental_div_mod(n as int / 65536, 256);
    lemma_div_denominator(n as int, 256, 256);
    lemma_div_denominator(n as int, 65536, 256);
}

/// The filename field of an encodable marker stays under the cap.
proof fn lemma_encodable_filename_bound(m: SpecMarker)
    requires
        encodable(m),
    ensures
        (m.body matches SpecMarkerBody::Filename(name) ==> encode_utf8(name).len()
            < MAX_RECORD_LEN),
{
    if let SpecMarkerBody::Filename(name) = m.body {
        assert(record_bytes(m).len() >= body_field_bytes(m.body).len());
        assert(body_field_bytes(m.body).len() >= encode_utf8(name).len());
    }
}

/// The decoder inverts the encoder: at the head of any stream that starts
/// with the frame of an encodable marker, parsing finds exactly that marker
/// and consumes exactly its frame.
pub proof fn lemma_parse_frame_round_trip(m: SpecMarker, rest: Seq<u8>)
    requires
        encodable(m),
    ensures
        parse_frame(frame_bytes(m) + rest) == FrameParse::Parsed(
            m,
            frame_bytes(m).len() as int,
        ),
{
    let record = record_bytes(m);
    let l = record.len() as u32;
    let header = u32_le_bytes(l);
    let bytes = frame_bytes(m) + rest;
    assert(bytes =~= header + record + rest);
    assert(bytes[0] == header[0] && bytes[1] == header[1] && bytes[2] == header[2] && bytes[3]
        == header[3]);
    lemma_u32_le_round_trip(l);
    assert(u32_from_le(bytes[0], bytes[1], bytes[2], bytes[3]) == l);
    assert(bytes.len() >= 4 + l);
    assert(bytes.subrange(4, 4 + l as int) =~= record);
    lemma_encodable_filename_bound(m);
    lemma_parse_record_of_encoding(m);
    assert(frame_bytes(m).len() == 4 + l);
}

/// On one shard stream, a `FileData` marker's payload follows its frame
/// contiguously: parsing the stream finds the marker, and the declared
/// number of bytes right behind the frame are exactly the payload, before
/// anything else.
pub proof fn lemma_payload_follows_frame(m: SpecMarker, payload: Seq<u8>, rest: Seq<u8>)
    requires
        encodable(m),
        (m.body matches SpecMarkerBody::FileData(size) && payload.len() == size),
    ensures
        ({
            let stream = frame_bytes(m) + payload + rest;
            let n = frame_bytes(m).len() as int;
            &&& parse_frame(stream) == FrameParse::Parsed(m, n)
            &&& stream.subrange(n, n + payload.len() as int) == payload
        }),
{
    lemma_parse_frame_round_trip(m, payload + rest);
    let stream = frame_bytes(m) + payload + rest;
    let n = frame_bytes(m).len() as int;
    assert(stream =~= frame_bytes(m) + (payload + rest));
    assert(stream.subrange(n, n + payload.len() as int) =~= payload);
}

} // verus!
