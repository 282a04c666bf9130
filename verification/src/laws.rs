//! Laws of the chunk file format.
//!
//! `Writer::push` appends `spec_frame(payload)` to the image and returns
//! the image length before the append as the identifier; these lemmas
//! state what a reader recovers from such an image.

use crate::chunk::{lemma_frame_len, lemma_frame_parse, spec_frame};
use crate::common::{spec_header, CHECKPOINT_SZ};
use crate::reader::{spec_header_ok, spec_lookup, spec_root};
use crate::varint::lemma_varint_len;
use vstd::bytes::{spec_u64_from_le_bytes, spec_u64_to_le_bytes};
use vstd::prelude::*;

verus! {

/// Round-trip: a payload pushed at the end of an image is what `lookup`
/// returns for the identifier the push handed out, whatever chunks are
/// appended after it — as long as at least a checkpoint follows, so that
/// the identifier lies inside the chunk region.
pub proof fn lemma_chunk_roundtrip(data: Seq<u8>, payload: Seq<u8>, suffix: Seq<u8>)
    requires
        8 <= data.len() <= u64::MAX,
        payload.len() <= u64::MAX,
        spec_frame(payload).len() + suffix.len() > CHECKPOINT_SZ,
    ensures
        spec_lookup(data + spec_frame(payload) + suffix, data.len() as u64) == Ok::<
            Seq<u8>,
            crate::common::Error,
        >(payload),
{
    let frame = spec_frame(payload);
    let full = data + frame + suffix;
    let pos = data.len() as int;
    lemma_frame_len(payload);
    assert(full.subrange(pos, pos + frame.len() as int) =~= frame);
    lemma_frame_parse(full, pos, payload);
}

/// Checkpoint: `root` of an image that ends with a checkpoint chunk for
/// root identifier `r` returns exactly `r`.
pub proof fn lemma_checkpoint_root(data: Seq<u8>, r: u64)
    requires
        data.len() >= 8,
    ensures
        spec_root(data + spec_frame(spec_u64_to_le_bytes(r))) == Ok::<
            u64,
            crate::common::Error,
        >(r),
{
    vstd::bytes::lemma_auto_spec_u64_to_from_le_bytes();
    vstd::bytes::lemma_auto_spec_u32_to_from_le_bytes();
    let payload = spec_u64_to_le_bytes(r);
    let frame = spec_frame(payload);
    lemma_varint_len(8);
    assert(frame.len() == 13);
    let full = data + frame;
    let pos = data.len() as int;
    assert(full.subrange(pos, pos + frame.len() as int) =~= frame);
    lemma_frame_parse(full, pos, payload);
    assert(full.len() - CHECKPOINT_SZ == pos);
    assert(spec_u64_from_le_bytes(payload) == r);
}

/// Identifier monotonicity: each push returns the image length before its
/// append, and a frame is never empty, so successive pushes return
/// strictly increasing identifiers.
pub proof fn lemma_id_monotonic(data: Seq<u8>, payload: Seq<u8>)
    requires
        data.len() >= 8,
        payload.len() <= u64::MAX,
    ensures
        data.len() < (data + spec_frame(payload)).len(),
{
    lemma_frame_len(payload);
}

/// Header: appending chunks never disturbs the header, so every image
/// grown from `Writer::new` still begins with the header bytes.
pub proof fn lemma_header_preserved(data: Seq<u8>, suffix: Seq<u8>)
    requires
        spec_header_ok(data),
    ensures
        spec_header_ok(data + suffix),
{
    assert((data + suffix).subrange(0, 8) =~= data.subrange(0, 8));
}

} // verus!
