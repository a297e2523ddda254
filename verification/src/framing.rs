//! What holds of every frame and of every run of bytes read as one.

use vstd::prelude::*;
use crate::checksum::{checksum, differ_only_at, lemma_checksum_detects_change};
use crate::codec::{
    lemma_encoding_len, parse_frame, payload_len, payload_record, record_payload, DecodeError,
    Frame, Record, HEADER_LEN, KIND_RECORD, SCHEMA_EXTENDED,
};
use crate::wire::{
    lemma_u16_bytes, lemma_u16_roundtrip, lemma_u32_bytes, lemma_u32_roundtrip, lemma_u64_bytes,
    lemma_u64_roundtrip, u16_le, u32_le, u64_le,
};

verus! {

/// A record is read back from its payload as it was written.
pub proof fn lemma_record_payload_roundtrip(r: Record)
    ensures
        payload_record(Frame::Record(r).schema(), record_payload(r)) == r,
{
    let p = record_payload(r);
    let back = payload_record(Frame::Record(r).schema(), p);
    lemma_u64_roundtrip(r.timestamp);
    lemma_u64_roundtrip(r.latitude_bits);
    lemma_u64_roundtrip(r.longitude_bits);
    match r.aux {
        None => {
            assert(p.subrange(0, 8) =~= u64_le(r.timestamp));
            assert(p.subrange(8, 16) =~= u64_le(r.latitude_bits));
            assert(p.subrange(16, 24) =~= u64_le(r.longitude_bits));
        },
        Some(a) => {
            assert(p.subrange(0, 8) =~= u64_le(r.timestamp));
            assert(p.subrange(8, 16) =~= u64_le(r.latitude_bits));
            assert(p.subrange(16, 24) =~= u64_le(r.longitude_bits));
            lemma_u64_roundtrip(a.speed_bits);
            lemma_u64_roundtrip(a.heading_bits);
            lemma_u16_roundtrip(a.channels[0]);
            lemma_u16_roundtrip(a.channels[1]);
            lemma_u16_roundtrip(a.channels[2]);
            lemma_u16_roundtrip(a.channels[3]);
            assert(p.subrange(24, 32) =~= u64_le(a.speed_bits));
            assert(p.subrange(32, 40) =~= u64_le(a.heading_bits));
            assert(p.subrange(40, 42) =~= u16_le(a.channels[0]));
            assert(p.subrange(42, 44) =~= u16_le(a.channels[1]));
            assert(p.subrange(44, 46) =~= u16_le(a.channels[2]));
            assert(p.subrange(46, 48) =~= u16_le(a.channels[3]));
            assert(back.aux->0.channels@ =~= a.channels@);
            assert(back.aux->0.channels == a.channels);
        },
    }
}

/// A payload of the right length is the payload of the record read from it.
pub proof fn lemma_record_payload_canonical(schema: u8, p: Seq<u8>)
    requires
        payload_len(schema, KIND_RECORD) == Some(p.len()),
    ensures
        Frame::Record(payload_record(schema, p)).schema() == schema,
        record_payload(payload_record(schema, p)) == p,
{
    let r = payload_record(schema, p);
    lemma_u64_bytes(p.subrange(0, 8));
    lemma_u64_bytes(p.subrange(8, 16));
    lemma_u64_bytes(p.subrange(16, 24));
    if schema == SCHEMA_EXTENDED {
        lemma_u64_bytes(p.subrange(24, 32));
        lemma_u64_bytes(p.subrange(32, 40));
        lemma_u16_bytes(p.subrange(40, 42));
        lemma_u16_bytes(p.subrange(42, 44));
        lemma_u16_bytes(p.subrange(44, 46));
        lemma_u16_bytes(p.subrange(46, 48));
        assert(p =~= p.subrange(0, 8) + p.subrange(8, 16) + p.subrange(16, 24) + p.subrange(
            24,
            32,
        ) + p.subrange(32, 40) + p.subrange(40, 42) + p.subrange(42, 44) + p.subrange(44, 46)
            + p.subrange(46, 48));
    } else {
        assert(p =~= p.subrange(0, 8) + p.subrange(8, 16) + p.subrange(16, 24));
    }
}

/// A frame is read back as it was written, whatever follows it.
pub proof fn lemma_frame_roundtrip(f: Frame, rest: Seq<u8>)
    ensures
        parse_frame(f.encoding() + rest) == Ok::<(Frame, nat), DecodeError>((f, f.encoded_len())),
{
    reveal(parse_frame);
    let b = f.encoding() + rest;
    let n = f.payload().len() as int;
    lemma_encoding_len(f);
    lemma_u32_roundtrip(n as u32);
    lemma_u32_roundtrip(checksum(f.body()));
    assert(b.subrange(2, 6) =~= u32_le(n as u32));
    assert(b.subrange(0, 6 + n) =~= f.body());
    assert(b.subrange(6 + n, 10 + n) =~= u32_le(checksum(f.body())));
    assert(b.subrange(6, 6 + n) =~= f.payload());
    match f {
        Frame::Start(id) => {
            lemma_u64_roundtrip(id);
        },
        Frame::Stop(id) => {
            lemma_u64_roundtrip(id);
        },
        Frame::Record(r) => {
            lemma_record_payload_roundtrip(r);
        },
    }
}

/// Bytes that hold a frame at their start begin with that frame's encoding.
pub proof fn lemma_frame_canonical(b: Seq<u8>)
    requires
        parse_frame(b) is Ok,
    ensures
        parse_frame(b)->Ok_0.1 == parse_frame(b)->Ok_0.0.encoded_len(),
        parse_frame(b)->Ok_0.1 <= b.len(),
        b.subrange(0, parse_frame(b)->Ok_0.1 as int) == parse_frame(b)->Ok_0.0.encoding(),
{
    reveal(parse_frame);
    let (f, len) = parse_frame(b)->Ok_0;
    let n = len - 10;
    let p = b.subrange(6, 6 + n);
    lemma_u32_bytes(b.subrange(2, 6));
    lemma_u32_bytes(b.subrange(6 + n, 10 + n));
    if b[1] == KIND_RECORD {
        lemma_record_payload_canonical(b[0], p);
    } else {
        lemma_u64_bytes(p);
    }
    assert(f.payload() == p);
    assert(f.schema() == b[0] && f.kind() == b[1]);
    lemma_encoding_len(f);
    assert(f.body() =~= b.subrange(0, 6 + n));
    assert(b.subrange(0, len as int) =~= f.encoding());
}

/// What follows a frame does not change how the frame is read.
pub proof fn lemma_frame_prefix_stable(a: Seq<u8>, rest: Seq<u8>)
    requires
        parse_frame(a) is Ok,
    ensures
        parse_frame(a + rest) == parse_frame(a),
{
    reveal(parse_frame);
    let b = a + rest;
    let n = parse_frame(a)->Ok_0.1 - 10;
    assert(b.subrange(2, 6) =~= a.subrange(2, 6));
    assert(b.subrange(0, 6 + n) =~= a.subrange(0, 6 + n));
    assert(b.subrange(6 + n, 10 + n) =~= a.subrange(6 + n, 10 + n));
    assert(b.subrange(6, 6 + n) =~= a.subrange(6, 6 + n));
}

/// A frame that was cut short, anywhere, reads as `Truncated`.
pub proof fn lemma_cut_frame_truncated(f: Frame, k: int)
    requires
        0 <= k < f.encoded_len(),
    ensures
        parse_frame(f.encoding().subrange(0, k)) == Err::<(Frame, nat), DecodeError>(
            DecodeError::Truncated,
        ),
{
    reveal(parse_frame);
    let b = f.encoding().subrange(0, k);
    let n = f.payload().len() as int;
    lemma_encoding_len(f);
    if k >= HEADER_LEN {
        lemma_u32_roundtrip(n as u32);
        assert(b.subrange(2, 6) =~= u32_le(n as u32));
    }
}

/// A frame in which one byte of the payload or of the checksum was changed
/// reads as `Corrupt`, whatever follows it.
pub proof fn lemma_damaged_frame_corrupt(f: Frame, i: int, v: u8, rest: Seq<u8>)
    requires
        HEADER_LEN <= i < f.encoded_len(),
        v != f.encoding()[i],
    ensures
        parse_frame(f.encoding().update(i, v) + rest) == Err::<(Frame, nat), DecodeError>(
            DecodeError::Corrupt,
        ),
{
    reveal(parse_frame);
    let good = f.encoding();
    let b = good.update(i, v) + rest;
    let n = f.payload().len() as int;
    lemma_encoding_len(f);
    lemma_u32_roundtrip(n as u32);
    lemma_u32_roundtrip(checksum(f.body()));
    assert(b.subrange(2, 6) =~= u32_le(n as u32));
    let body = b.subrange(0, 6 + n);
    let sum = b.subrange(6 + n, 10 + n);
    if i < 6 + n {
        assert(sum =~= u32_le(checksum(f.body())));
        assert(differ_only_at(f.body(), body, i));
        lemma_checksum_detects_change(f.body(), body, i);
    } else {
        assert(body =~= f.body());
        let was = u32_le(checksum(f.body()));
        lemma_u32_bytes(sum);
        assert(sum[i - (6 + n)] == v);
        assert(was[i - (6 + n)] == good[i]);
        assert(sum != was);
    }
}

} // verus!
