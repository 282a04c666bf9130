//! Variable-length encoding of unsigned 64-bit values.
//!
//! A value below 251 is a single byte.  Larger values are a tag byte (251,
//! 252 or 253) followed by the value as two, four or eight little-endian
//! bytes.  The encoding is deterministic and self-delimiting.

use vstd::bytes::*;
use vstd::prelude::*;

verus! {

/// The canonical encoding of a value.
pub open spec fn spec_varint(v: u64) -> Seq<u8> {
    if v <= 250 {
        seq![v as u8]
    } else if v <= 0xffff {
        seq![251u8] + spec_u16_to_le_bytes(v as u16)
    } else if v <= 0xffff_ffff {
        seq![252u8] + spec_u32_to_le_bytes(v as u32)
    } else {
        seq![253u8] + spec_u64_to_le_bytes(v)
    }
}

/// Parse a varint at position `pos`; on success, the value and the
/// position just past the varint.
pub open spec fn spec_varint_parse(data: Seq<u8>, pos: int) -> Option<(u64, int)> {
    if 0 <= pos < data.len() {
        let b = data[pos];
        if b <= 250 {
            Some((b as u64, pos + 1))
        } else if b == 251 && pos + 3 <= data.len() {
            Some((spec_u16_from_le_bytes(data.subrange(pos + 1, pos + 3)) as u64, pos + 3))
        } else if b == 252 && pos + 5 <= data.len() {
            Some((spec_u32_from_le_bytes(data.subrange(pos + 1, pos + 5)) as u64, pos + 5))
        } else if b == 253 && pos + 9 <= data.len() {
            Some((spec_u64_from_le_bytes(data.subrange(pos + 1, pos + 9)), pos + 9))
        } else {
            None
        }
    } else {
        None
    }
}

/// An encoded varint is between one and nine bytes long.
pub proof fn lemma_varint_len(v: u64)
    ensures
        1 <= spec_varint(v).len() <= 9,
        v <= 250 ==> spec_varint(v).len() == 1,
{
    vstd::bytes::lemma_auto_spec_u16_to_from_le_bytes();
    vstd::bytes::lemma_auto_spec_u32_to_from_le_bytes();
    vstd::bytes::lemma_auto_spec_u64_to_from_le_bytes();
}

/// Parsing an encoding laid down at `pos` recovers the value, wherever the
/// encoding stands and whatever follows it.
pub proof fn lemma_varint_roundtrip(data: Seq<u8>, pos: int, v: u64)
    requires
        0 <= pos,
        pos + spec_varint(v).len() <= data.len(),
        data.subrange(pos, pos + spec_varint(v).len() as int) == spec_varint(v),
    ensures
        spec_varint_parse(data, pos) == Some((v, pos + spec_varint(v).len() as int)),
{
    vstd::bytes::lemma_auto_spec_u16_to_from_le_bytes();
    vstd::bytes::lemma_auto_spec_u32_to_from_le_bytes();
    vstd::bytes::lemma_auto_spec_u64_to_from_le_bytes();
    let enc = spec_varint(v);
    assert(data[pos] == enc[0]);
    if v <= 250 {
    } else if v <= 0xffff {
        assert(data.subrange(pos + 1, pos + 3) =~= enc.subrange(1, 3));
        assert(enc.subrange(1, 3) =~= spec_u16_to_le_bytes(v as u16));
    } else if v <= 0xffff_ffff {
        assert(data.subrange(pos + 1, pos + 5) =~= enc.subrange(1, 5));
        assert(enc.subrange(1, 5) =~= spec_u32_to_le_bytes(v as u32));
    } else {
        assert(data.subrange(pos + 1, pos + 9) =~= enc.subrange(1, 9));
        assert(enc.subrange(1, 9) =~= spec_u64_to_le_bytes(v));
    }
}

/// Append the encoding of `v` to `buf`.
pub fn encode_varint(buf: &mut Vec<u8>, v: u64)
    ensures
        final(buf)@ == old(buf)@ + spec_varint(v),
{
    proof {
        vstd::bytes::lemma_auto_spec_u16_to_from_le_bytes();
        vstd::bytes::lemma_auto_spec_u32_to_from_le_bytes();
        vstd::bytes::lemma_auto_spec_u64_to_from_le_bytes();
    }
    if v <= 250 {
        buf.push(v as u8);
        proof {
            assert(buf@ =~= old(buf)@ + spec_varint(v));
        }
    } else if v <= 0xffff {
        buf.push(251);
        let mut tail = u16_to_le_bytes(v as u16);
        buf.append(&mut tail);
        proof {
            assert(buf@ =~= old(buf)@ + spec_varint(v));
        }
    } else if v <= 0xffff_ffff {
        buf.push(252);
        let mut tail = u32_to_le_bytes(v as u32);
        buf.append(&mut tail);
        proof {
            assert(buf@ =~= old(buf)@ + spec_varint(v));
        }
    } else {
        buf.push(253);
        let mut tail = u64_to_le_bytes(v);
        buf.append(&mut tail);
        proof {
            assert(buf@ =~= old(buf)@ + spec_varint(v));
        }
    }
}

/// Parse a varint from `data` at position `pos`.
pub fn decode_varint(data: &Vec<u8>, pos: usize) -> (r: Option<(u64, usize)>)
    ensures
        match r {
            Some((v, end)) => spec_varint_parse(data@, pos as int) == Some((v, end as int)),
            None => spec_varint_parse(data@, pos as int) is None,
        },
{
    if pos >= data.len() {
        return None;
    }
    let b = data[pos];
    if b <= 250 {
        Some((b as u64, pos + 1))
    } else if b == 251 && data.len() - pos >= 3 {
        let v = u16_from_le_bytes(vstd::slice::slice_subrange(data.as_slice(), pos + 1, pos + 3));
        Some((v as u64, pos + 3))
    } else if b == 252 && data.len() - pos >= 5 {
        let v = u32_from_le_bytes(vstd::slice::slice_subrange(data.as_slice(), pos + 1, pos + 5));
        Some((v as u64, pos + 5))
    } else if b == 253 && data.len() - pos >= 9 {
        let v = u64_from_le_bytes(vstd::slice::slice_subrange(data.as_slice(), pos + 1, pos + 9));
        Some((v as u64, pos + 9))
    } else {
        None
    }
}

} // verus!
