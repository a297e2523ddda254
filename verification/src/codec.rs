//! Records, frames and their binary form.
//!
//! A frame is laid out as
//!
//! ```text
//! [schema: u8][kind: u8][payload length: u32][payload][checksum: u32]
//! ```
//!
//! with every multi-byte field little-endian. The checksum covers everything
//! before it. The payload's layout, and so its length, is fixed by the pair
//! of schema and kind; the known pairs are the two markers and the basic
//! record under schema 1, and the extended record under schema 2.
//!
//! Coordinates, speed and heading are IEEE-754 double precision numbers,
//! held and written as their 64 bits. Timestamps are unsigned 64-bit counts
//! of milliseconds since the start of the session.

use vstd::prelude::*;
use crate::checksum::{checksum, checksum_of};
use crate::framing::lemma_frame_roundtrip;
use crate::wire::{
    get_u16, get_u32, get_u64, le_u16, le_u32, le_u64, put_u16, put_u32, put_u64, u16_le, u32_le,
    u64_le,
};

verus! {

/// Schema of the markers and of a record without auxiliary fields.
pub const SCHEMA_BASIC: u8 = 1;

/// Schema of a record with auxiliary fields.
pub const SCHEMA_EXTENDED: u8 = 2;

/// Kind of a frame that opens a session.
pub const KIND_START: u8 = 1;

/// Kind of a frame that closes a session.
pub const KIND_STOP: u8 = 2;

/// Kind of a frame that carries a record.
pub const KIND_RECORD: u8 = 3;

/// Bytes before the payload: schema, kind and payload length.
pub const HEADER_LEN: usize = 6;

/// Bytes after the payload: the checksum.
pub const CHECKSUM_LEN: usize = 4;

/// Payload bytes of a marker: the session identifier.
pub const MARKER_PAYLOAD_LEN: usize = 8;

/// Payload bytes of a record without auxiliary fields.
pub const BASIC_PAYLOAD_LEN: usize = 24;

/// Payload bytes of a record with auxiliary fields.
pub const EXTENDED_PAYLOAD_LEN: usize = 48;

/// Auxiliary sensor fields of a record.
#[derive(Clone, Copy, Debug, PartialEq, Eq)]
pub struct Aux {
    /// Speed over ground, as the bits of a double.
    pub speed_bits: u64,
    /// Heading, as the bits of a double.
    pub heading_bits: u64,
    /// Raw readings of the four sensor channels.
    pub channels: [u16; 4],
}

/// One timestamped observation.
#[derive(Clone, Copy, Debug, PartialEq, Eq)]
pub struct Record {
    /// Milliseconds since the start of the session.
    pub timestamp: u64,
    /// Latitude, as the bits of a double.
    pub latitude_bits: u64,
    /// Longitude, as the bits of a double.
    pub longitude_bits: u64,
    /// Auxiliary fields; a record that has them is written under the
    /// extended schema.
    pub aux: Option<Aux>,
}

/// What one frame of the log says.
#[derive(Clone, Copy, Debug, PartialEq, Eq)]
pub enum Frame {
    /// The session with this identifier begins.
    Start(u64),
    /// The session with this identifier ends.
    Stop(u64),
    /// A record of the open session.
    Record(Record),
}

/// Why bytes could not be decoded.
#[derive(Clone, Copy, Debug, PartialEq, Eq)]
pub enum DecodeError {
    /// The bytes end before the frame does.
    Truncated,
    /// The bytes are not those of any frame: an unknown schema or kind, a
    /// payload length that does not fit them, or a checksum that does not
    /// match.
    Corrupt,
}

/// The payload of a record: timestamp, latitude, longitude, then the
/// auxiliary fields if there are any.
pub open spec fn record_payload(r: Record) -> Seq<u8> {
    let base = u64_le(r.timestamp) + u64_le(r.latitude_bits) + u64_le(r.longitude_bits);
    match r.aux {
        None => base,
        Some(a) => base + u64_le(a.speed_bits) + u64_le(a.heading_bits) + u16_le(a.channels[0])
            + u16_le(a.channels[1]) + u16_le(a.channels[2]) + u16_le(a.channels[3]),
    }
}

/// The record whose payload under `schema` is `p`.
pub open spec fn payload_record(schema: u8, p: Seq<u8>) -> Record {
    Record {
        timestamp: le_u64(p.subrange(0, 8)),
        latitude_bits: le_u64(p.subrange(8, 16)),
        longitude_bits: le_u64(p.subrange(16, 24)),
        aux: if schema == SCHEMA_EXTENDED {
            Some(
                Aux {
                    speed_bits: le_u64(p.subrange(24, 32)),
                    heading_bits: le_u64(p.subrange(32, 40)),
                    channels: [
                        le_u16(p.subrange(40, 42)),
                        le_u16(p.subrange(42, 44)),
                        le_u16(p.subrange(44, 46)),
                        le_u16(p.subrange(46, 48)),
                    ],
                },
            )
        } else {
            None
        },
    }
}

/// The payload length that the pair of schema and kind fixes, if the pair
/// is a known one.
pub open spec fn payload_len(schema: u8, kind: u8) -> Option<nat> {
    if schema == SCHEMA_BASIC && (kind == KIND_START || kind == KIND_STOP) {
        Some(MARKER_PAYLOAD_LEN as nat)
    } else if schema == SCHEMA_BASIC && kind == KIND_RECORD {
        Some(BASIC_PAYLOAD_LEN as nat)
    } else if schema == SCHEMA_EXTENDED && kind == KIND_RECORD {
        Some(EXTENDED_PAYLOAD_LEN as nat)
    } else {
        None
    }
}

/// The frame of a known pair of schema and kind whose payload is `p`.
pub open spec fn payload_frame(schema: u8, kind: u8, p: Seq<u8>) -> Frame {
    if kind == KIND_START {
        Frame::Start(le_u64(p))
    } else if kind == KIND_STOP {
        Frame::Stop(le_u64(p))
    } else {
        Frame::Record(payload_record(schema, p))
    }
}

impl Frame {
    /// The schema under which the frame is written.
    pub open spec fn schema(self) -> u8 {
        match self {
            Frame::Record(r) => if r.aux is Some {
                SCHEMA_EXTENDED
            } else {
                SCHEMA_BASIC
            },
            _ => SCHEMA_BASIC,
        }
    }

    /// The kind byte of the frame.
    pub open spec fn kind(self) -> u8 {
        match self {
            Frame::Start(_) => KIND_START,
            Frame::Stop(_) => KIND_STOP,
            Frame::Record(_) => KIND_RECORD,
        }
    }

    /// The payload of the frame.
    pub open spec fn payload(self) -> Seq<u8> {
        match self {
            Frame::Start(id) => u64_le(id),
            Frame::Stop(id) => u64_le(id),
            Frame::Record(r) => record_payload(r),
        }
    }

    /// Header and payload: what the checksum covers.
    pub open spec fn body(self) -> Seq<u8> {
        seq![self.schema(), self.kind()] + u32_le(self.payload().len() as u32) + self.payload()
    }

    /// The bytes of the frame.
    pub open spec fn encoding(self) -> Seq<u8> {
        self.body() + u32_le(checksum(self.body()))
    }

    /// The number of bytes of the frame.
    pub open spec fn encoded_len(self) -> nat {
        match self {
            Frame::Record(r) => if r.aux is Some {
                (HEADER_LEN + EXTENDED_PAYLOAD_LEN + CHECKSUM_LEN) as nat
            } else {
                (HEADER_LEN + BASIC_PAYLOAD_LEN + CHECKSUM_LEN) as nat
            },
            _ => (HEADER_LEN + MARKER_PAYLOAD_LEN + CHECKSUM_LEN) as nat,
        }
    }
}

/// What the bytes `b` hold at their start: a frame and its length, or the
/// reason why there is none.
///
/// Fewer bytes than a header are `Truncated`. A header that names no known
/// pair of schema and kind, or whose payload length is not the one the pair
/// fixes, is `Corrupt`; so a damaged length is never mistaken for a frame
/// that was cut short. A sound header with fewer bytes behind it than
/// payload and checksum take is `Truncated`, and a checksum that does not
/// match is `Corrupt`.
#[verifier::opaque]
pub open spec fn parse_frame(b: Seq<u8>) -> Result<(Frame, nat), DecodeError> {
    if b.len() < HEADER_LEN {
        Err(DecodeError::Truncated)
    } else {
        match payload_len(b[0], b[1]) {
            None => Err(DecodeError::Corrupt),
            Some(len) => {
                let n = len as int;
                if le_u32(b.subrange(2, 6)) != n {
                    Err(DecodeError::Corrupt)
                } else if b.len() < HEADER_LEN + n + CHECKSUM_LEN {
                    Err(DecodeError::Truncated)
                } else if le_u32(b.subrange(6 + n, 10 + n)) != checksum(b.subrange(0, 6 + n)) {
                    Err(DecodeError::Corrupt)
                } else {
                    Ok((payload_frame(b[0], b[1], b.subrange(6, 6 + n)), (10 + n) as nat))
                }
            },
        }
    }
}

/// What the bytes `b` hold at their start, read as a record. A marker is no
/// record, and is `Corrupt`.
pub open spec fn parse_record(b: Seq<u8>) -> Result<Record, DecodeError> {
    match parse_frame(b) {
        Ok((Frame::Record(r), _)) => Ok(r),
        Ok(_) => Err(DecodeError::Corrupt),
        Err(e) => Err(e),
    }
}

/// The length of a frame's payload is the one its schema and kind fix, and
/// the frame takes ten bytes more.
pub proof fn lemma_encoding_len(f: Frame)
    ensures
        payload_len(f.schema(), f.kind()) == Some(f.payload().len()),
        f.body().len() == HEADER_LEN + f.payload().len(),
        f.encoding().len() == f.encoded_len(),
        f.encoded_len() == HEADER_LEN + f.payload().len() + CHECKSUM_LEN,
{
}

/// Writes the payload of `r` behind what `out` holds.
fn put_record(out: &mut Vec<u8>, r: &Record)
    ensures
        final(out)@ == old(out)@ + record_payload(*r),
{
    put_u64(out, r.timestamp);
    put_u64(out, r.latitude_bits);
    put_u64(out, r.longitude_bits);
    match r.aux {
        None => {
            assert(out@ =~= old(out)@ + record_payload(*r));
        },
        Some(a) => {
            put_u64(out, a.speed_bits);
            put_u64(out, a.heading_bits);
            put_u16(out, a.channels[0]);
            put_u16(out, a.channels[1]);
            put_u16(out, a.channels[2]);
            put_u16(out, a.channels[3]);
            assert(out@ =~= old(out)@ + record_payload(*r));
        },
    }
}

/// The number of bytes that `frame` takes in the log.
pub fn frame_len(frame: &Frame) -> (n: usize)
    ensures
        n == frame.encoded_len(),
{
    match frame {
        Frame::Record(r) => if r.aux.is_some() {
            HEADER_LEN + EXTENDED_PAYLOAD_LEN + CHECKSUM_LEN
        } else {
            HEADER_LEN + BASIC_PAYLOAD_LEN + CHECKSUM_LEN
        },
        _ => HEADER_LEN + MARKER_PAYLOAD_LEN + CHECKSUM_LEN,
    }
}

/// Encodes one frame. The bytes decode to the frame again.
pub fn encode_frame(frame: &Frame) -> (out: Vec<u8>)
    ensures
        out@ == frame.encoding(),
        out@.len() == frame.encoded_len(),
        parse_frame(out@) == Ok::<(Frame, nat), DecodeError>((*frame, frame.encoded_len())),
{
    let mut out: Vec<u8> = Vec::new();
    match frame {
        Frame::Start(id) => {
            out.push(SCHEMA_BASIC);
            out.push(KIND_START);
            put_u32(&mut out, MARKER_PAYLOAD_LEN as u32);
            put_u64(&mut out, *id);
        },
        Frame::Stop(id) => {
            out.push(SCHEMA_BASIC);
            out.push(KIND_STOP);
            put_u32(&mut out, MARKER_PAYLOAD_LEN as u32);
            put_u64(&mut out, *id);
        },
        Frame::Record(r) => {
            if r.aux.is_some() {
                out.push(SCHEMA_EXTENDED);
                out.push(KIND_RECORD);
                put_u32(&mut out, EXTENDED_PAYLOAD_LEN as u32);
            } else {
                out.push(SCHEMA_BASIC);
                out.push(KIND_RECORD);
                put_u32(&mut out, BASIC_PAYLOAD_LEN as u32);
            }
            put_record(&mut out, r);
        },
    }
    proof {
        lemma_encoding_len(*frame);
        assert(out@ =~= frame.body());
    }
    let sum = checksum_of(out.as_slice(), 0, out.len());
    proof {
        assert(out@.subrange(0, out@.len() as int) =~= out@);
    }
    put_u32(&mut out, sum);
    proof {
        lemma_frame_roundtrip(*frame, Seq::empty());
        assert(frame.encoding() + Seq::<u8>::empty() =~= frame.encoding());
    }
    out
}

/// Encodes one record as a frame. The bytes decode to the record again.
pub fn encode(record: &Record) -> (out: Vec<u8>)
    ensures
        out@ == Frame::Record(*record).encoding(),
        parse_record(out@) == Ok::<Record, DecodeError>(*record),
{
    encode_frame(&Frame::Record(*record))
}

/// The payload length that the pair of schema and kind fixes.
fn known_payload_len(schema: u8, kind: u8) -> (n: Option<usize>)
    ensures
        match n {
            Some(v) => payload_len(schema, kind) == Some(v as nat),
            None => payload_len(schema, kind) is None,
        },
{
    if schema == SCHEMA_BASIC && (kind == KIND_START || kind == KIND_STOP) {
        Some(MARKER_PAYLOAD_LEN)
    } else if schema == SCHEMA_BASIC && kind == KIND_RECORD {
        Some(BASIC_PAYLOAD_LEN)
    } else if schema == SCHEMA_EXTENDED && kind == KIND_RECORD {
        Some(EXTENDED_PAYLOAD_LEN)
    } else {
        None
    }
}

/// Reads a record from its payload.
fn read_record(schema: u8, p: &[u8]) -> (r: Record)
    requires
        payload_len(schema, KIND_RECORD) == Some(p@.len()),
    ensures
        r == payload_record(schema, p@),
{
    let timestamp = get_u64(p, 0);
    let latitude_bits = get_u64(p, 8);
    let longitude_bits = get_u64(p, 16);
    let aux = if schema == SCHEMA_EXTENDED {
        let speed_bits = get_u64(p, 24);
        let heading_bits = get_u64(p, 32);
        let c0 = get_u16(p, 40);
        let c1 = get_u16(p, 42);
        let c2 = get_u16(p, 44);
        let c3 = get_u16(p, 46);
        Some(Aux { speed_bits, heading_bits, channels: [c0, c1, c2, c3] })
    } else {
        None
    };
    Record { timestamp, latitude_bits, longitude_bits, aux }
}

/// Decodes the frame that starts at `pos`, and says where the next one
/// starts. Reads nothing beyond `buf`.
pub fn decode_frame(buf: &[u8], pos: usize) -> (r: Result<(Frame, usize), DecodeError>)
    requires
        pos <= buf.len(),
    ensures
        match r {
            Ok((f, next)) => {
                &&& pos < next <= buf.len()
                &&& parse_frame(buf@.skip(pos as int)) == Ok::<(Frame, nat), DecodeError>(
                    (f, (next - pos) as nat),
                )
            },
            Err(e) => parse_frame(buf@.skip(pos as int)) == Err::<(Frame, nat), DecodeError>(e),
        },
{
    let ghost b = buf@.skip(pos as int);
    proof {
        reveal(parse_frame);
    }
    let avail = buf.len() - pos;
    if avail < HEADER_LEN {
        return Err(DecodeError::Truncated);
    }
    let schema = buf[pos];
    let kind = buf[pos + 1];
    let n = match known_payload_len(schema, kind) {
        None => {
            return Err(DecodeError::Corrupt);
        },
        Some(n) => n,
    };
    let declared = get_u32(buf, pos + 2);
    proof {
        assert(buf@.subrange(pos + 2, pos + 6) =~= b.subrange(2, 6));
    }
    if declared as usize != n {
        return Err(DecodeError::Corrupt);
    }
    if avail < HEADER_LEN + n + CHECKSUM_LEN {
        return Err(DecodeError::Truncated);
    }
    let stored = get_u32(buf, pos + HEADER_LEN + n);
    let computed = checksum_of(buf, pos, pos + HEADER_LEN + n);
    proof {
        assert(buf@.subrange(pos + HEADER_LEN + n, pos + HEADER_LEN + n + 4) =~= b.subrange(
            6 + n,
            10 + n,
        ));
        assert(buf@.subrange(pos as int, pos + HEADER_LEN + n) =~= b.subrange(0, 6 + n));
    }
    if stored != computed {
        return Err(DecodeError::Corrupt);
    }
    let payload = &buf[pos + HEADER_LEN..pos + HEADER_LEN + n];
    proof {
        assert(payload@ =~= b.subrange(6, 6 + n));
    }
    let frame = if kind == KIND_START {
        let id = get_u64(payload, 0);
        assert(payload@.subrange(0, 8) =~= payload@);
        Frame::Start(id)
    } else if kind == KIND_STOP {
        let id = get_u64(payload, 0);
        assert(payload@.subrange(0, 8) =~= payload@);
        Frame::Stop(id)
    } else {
        Frame::Record(read_record(schema, payload))
    };
    Ok((frame, pos + HEADER_LEN + n + CHECKSUM_LEN))
}

/// Decodes the record whose frame starts `buf`. Never reads beyond `buf`;
/// what follows the frame is not looked at.
pub fn decode(buf: &[u8]) -> (r: Result<Record, DecodeError>)
    ensures
        r == parse_record(buf@),
{
    proof {
        assert(buf@.skip(0) =~= buf@);
    }
    match decode_frame(buf, 0) {
        Ok((Frame::Record(record), _)) => Ok(record),
        Ok(_) => Err(DecodeError::Corrupt),
        Err(e) => Err(e),
    }
}

} // verus!
