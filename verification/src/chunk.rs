//! The on-disk framing of a chunk.
//!
//! A chunk is a varint size prefix, `size` payload bytes, and a four-byte
//! little-endian CRC-32 checksum covering the size prefix and the payload.

use crate::common::{crc32_of, CRC_SZ};
use crate::varint::{spec_varint, spec_varint_parse, lemma_varint_len, lemma_varint_roundtrip, encode_varint};
use vstd::bytes::{spec_u32_to_le_bytes, spec_u32_from_le_bytes};
use vstd::prelude::*;

verus! {

/// The framed bytes of a chunk with the given payload.
pub open spec fn spec_frame(payload: Seq<u8>) -> Seq<u8> {
    let sp = spec_varint(payload.len() as u64) + payload;
    sp + spec_u32_to_le_bytes(crc32_of(sp))
}

/// Parse the chunk that starts at `pos`: its payload and the position just
/// past its checksum.  The checksum is not validated here.
pub open spec fn spec_chunk_parse(data: Seq<u8>, pos: int) -> Option<(Seq<u8>, int)> {
    match spec_varint_parse(data, pos) {
        Some((sz, p1)) => if p1 + sz + CRC_SZ <= data.len() {
            Some((data.subrange(p1, p1 + sz), p1 + sz + CRC_SZ))
        } else {
            None
        },
        None => None,
    }
}

/// Whether the stored checksum of the chunk at `pos` matches the covered
/// bytes.  Meaningful only when the chunk parses.
pub open spec fn spec_chunk_crc_ok(data: Seq<u8>, pos: int) -> bool {
    match spec_varint_parse(data, pos) {
        Some((sz, p1)) => data.subrange(p1 + sz, p1 + sz + CRC_SZ) == spec_u32_to_le_bytes(
            crc32_of(data.subrange(pos, p1 + sz)),
        ),
        None => false,
    }
}

/// A frame is at least `1 + payload + 4` bytes and at most nine more.
pub proof fn lemma_frame_len(payload: Seq<u8>)
    requires
        payload.len() <= u64::MAX,
    ensures
        payload.len() + 5 <= spec_frame(payload).len() <= payload.len() + 13,
{
    lemma_varint_len(payload.len() as u64);
    vstd::bytes::lemma_auto_spec_u32_to_from_le_bytes();
}

/// A frame laid down at `pos` parses back to its payload with a valid
/// checksum, whatever stands before or after it.
pub proof fn lemma_frame_parse(data: Seq<u8>, pos: int, payload: Seq<u8>)
    requires
        payload.len() <= u64::MAX,
        0 <= pos,
        pos + spec_frame(payload).len() <= data.len(),
        data.subrange(pos, pos + spec_frame(payload).len() as int) == spec_frame(payload),
    ensures
        spec_chunk_parse(data, pos) == Some(
            (payload, pos + spec_frame(payload).len() as int),
        ),
        spec_chunk_crc_ok(data, pos),
{
    let sz = payload.len() as u64;
    let vi = spec_varint(sz);
    let sp = vi + payload;
    let crc = spec_u32_to_le_bytes(crc32_of(sp));
    let frame = spec_frame(payload);
    lemma_varint_len(sz);
    vstd::bytes::lemma_auto_spec_u32_to_from_le_bytes();
    assert(frame.len() == vi.len() + payload.len() + CRC_SZ);
    assert(data.subrange(pos, pos + vi.len() as int) =~= vi) by {
        assert forall|i: int| 0 <= i < vi.len() implies data[pos + i] == vi[i] by {
            assert(data[pos + i] == frame[i]);
        }
    }
    lemma_varint_roundtrip(data, pos, sz);
    let p1 = pos + vi.len() as int;
    assert(spec_varint_parse(data, pos) == Some((sz, p1)));
    assert(p1 + sz + CRC_SZ <= data.len());
    assert(data.subrange(p1, p1 + sz) =~= payload) by {
        assert forall|i: int| 0 <= i < payload.len() implies data[p1 + i] == payload[i] by {
            assert(data[p1 + i] == frame[vi.len() + i]);
            assert(frame[vi.len() + i] == sp[vi.len() + i]);
        }
    }
    assert(data.subrange(pos, p1 + sz) =~= sp) by {
        assert forall|i: int| 0 <= i < sp.len() implies data[pos + i] == sp[i] by {
            assert(data[pos + i] == frame[i]);
        }
    }
    assert(data.subrange(p1 + sz, p1 + sz + CRC_SZ) =~= crc) by {
        assert forall|i: int| 0 <= i < CRC_SZ implies data[p1 + sz + i] == crc[i] by {
            assert(data[p1 + sz + i] == frame[sp.len() + i]);
        }
    }
}

/// Build the framed bytes of a payload.
pub fn frame_chunk(payload: &Vec<u8>) -> (r: Vec<u8>)
    ensures
        r@ == spec_frame(payload@),
{
    let mut buf: Vec<u8> = Vec::new();
    encode_varint(&mut buf, payload.len() as u64);
    buf.extend_from_slice(payload.as_slice());
    assert(buf@ == spec_varint(payload@.len() as u64) + payload@);
    let crc = match crate::common::checksum(buf.as_slice()) {
        Some(c) => c,
        None => 0,
    };
    let mut tail = vstd::bytes::u32_to_le_bytes(crc);
    buf.append(&mut tail);
    buf
}

} // verus!
