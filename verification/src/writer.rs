//! Writer for chunk files.
//!
//! The writer builds the file image in memory: the caller takes the bytes
//! at the end and writes them out.  Identifiers equal the image length
//! observed immediately before each append, so an identifier is the
//! chunk's starting offset.

use crate::chunk::{frame_chunk, spec_frame};
use crate::common::{header_bytes, spec_header, Error, Id};
use vstd::bytes::spec_u64_to_le_bytes;
use vstd::prelude::*;

verus! {

/// Writer for chunk files.
///
/// The writer can start a fresh file or append to the image of an
/// existing one.
pub struct Writer {
    /// The file image.
    buf: Vec<u8>,
}

impl View for Writer {
    type V = Seq<u8>;

    closed spec fn view(&self) -> Seq<u8> {
        self.buf@
    }
}

impl Writer {
    /// The image holds at least the header region, so every identifier
    /// handed out is at least 8.
    pub open spec fn wf(&self) -> bool {
        self@.len() >= 8
    }

    /// Start a fresh file: the image is the 8-byte header.
    pub fn new() -> (w: Writer)
        ensures
            w@ == spec_header(),
            w.wf(),
    {
        Writer { buf: header_bytes() }
    }

    /// Open the image of an existing file for appending.  An empty image
    /// receives the header; a non-empty image shorter than the header is
    /// rejected.
    pub fn append_to(data: Vec<u8>) -> (r: Result<Writer, Error>)
        ensures
            r matches Ok(w) ==> w@ == (if data@.len() == 0 {
                spec_header()
            } else {
                data@
            }) && w.wf(),
            r is Ok <==> (data@.len() == 0 || data@.len() >= 8),
            r matches Err(e) ==> e == Error::InvalidHeader,
    {
        if data.len() == 0 {
            Ok(Writer::new())
        } else if data.len() < 8 {
            Err(Error::InvalidHeader)
        } else {
            Ok(Writer { buf: data })
        }
    }

    /// The current length of the image.
    pub fn len(&self) -> (r: usize)
        ensures
            r == self@.len(),
    {
        self.buf.len()
    }

    /// Append a chunk with the given payload.  The returned identifier is
    /// the image length immediately before the append.
    pub fn push(&mut self, payload: &Vec<u8>) -> (id: Id)
        requires
            old(self).wf(),
        ensures
            final(self)@ == old(self)@ + spec_frame(payload@),
            id@ == old(self)@.len(),
            id@ >= 8,
            final(self).wf(),
    {
        let id = Id::from_usize(self.buf.len());
        let mut chunk = frame_chunk(payload);
        self.buf.append(&mut chunk);
        id
    }

    /// Append a checkpoint chunk: its payload is the eight-byte
    /// little-endian encoding of the root identifier.  A file can only be
    /// read back after a checkpoint stands at its end.
    pub fn checkpoint(&mut self, root: Id)
        requires
            old(self).wf(),
        ensures
            final(self)@ == old(self)@ + spec_frame(spec_u64_to_le_bytes(root@)),
            final(self)@.len() == old(self)@.len() + 13,
            final(self).wf(),
    {
        let bytes = root.to_le_bytes();
        let mut payload: Vec<u8> = Vec::new();
        payload.extend_from_slice(bytes.as_slice());
        proof {
            vstd::bytes::lemma_auto_spec_u64_to_from_le_bytes();
            vstd::bytes::lemma_auto_spec_u32_to_from_le_bytes();
            crate::varint::lemma_varint_len(8);
            assert(payload@ =~= spec_u64_to_le_bytes(root@));
        }
        let _ = self.push(&payload);
    }

    /// Give up the writer and take the file image.
    pub fn into_bytes(self) -> (r: Vec<u8>)
        ensures
            r@ == self@,
    {
        self.buf
    }
}

} // verus!
