//! Chunk identifiers, the error taxonomy and the checksum of a chunk.

use vstd::prelude::*;

verus! {

/// Length in bytes of the file header.
pub const HEADER_SZ: usize = 8;

/// Length in bytes of a chunk checksum.
pub const CRC_SZ: usize = 4;

/// On-disk length of a checkpoint chunk: a one-byte size prefix, an
/// eight-byte payload and the checksum.
pub const CHECKPOINT_SZ: usize = 13;

/// The header bytes: ASCII `loam0000`.
pub open spec fn spec_header() -> Seq<u8> {
    seq![0x6cu8, 0x6fu8, 0x61u8, 0x6du8, 0x30u8, 0x30u8, 0x30u8, 0x30u8]
}

/// Build the header bytes.
pub fn header_bytes() -> (r: Vec<u8>)
    ensures
        r@ == spec_header(),
{
    let mut r: Vec<u8> = Vec::new();
    r.push(0x6c);
    r.push(0x6f);
    r.push(0x61);
    r.push(0x6d);
    r.push(0x30);
    r.push(0x30);
    r.push(0x30);
    r.push(0x30);
    proof {
        assert(r@ =~= spec_header());
    }
    r
}

/// Chunk identifier: the byte offset where the chunk starts.  Zero is
/// reserved to mean "absent".
#[derive(Clone, Copy, Debug, PartialEq, Eq, Structural)]
pub struct Id(u64);

impl View for Id {
    type V = u64;

    closed spec fn view(&self) -> u64 {
        self.0
    }
}

/// The Id with the given value, for use in specifications.
pub closed spec fn spec_id(v: u64) -> Id {
    Id(v)
}

/// `spec_id` builds the Id whose view is the given value.
pub proof fn lemma_spec_id(v: u64)
    ensures
        spec_id(v)@ == v,
{
}

/// Two Ids with the same value are the same Id.
pub proof fn lemma_id_eq(a: Id, b: Id)
    requires
        a@ == b@,
    ensures
        a == b,
{
}

impl Id {
    /// The identifier value.
    pub fn value(self) -> (r: u64)
        ensures
            r == self@,
    {
        self.0
    }

    /// Create a new Id.
    pub fn new(id: u64) -> (r: Self)
        ensures
            r@ == id,
    {
        Id(id)
    }

    /// Check if the Id is valid (non-zero).
    pub fn is_valid(self) -> (r: bool)
        ensures
            r == (self@ > 0),
    {
        self.0 > 0
    }

    /// Read an Id from its little-endian encoding.
    pub fn from_le_bytes(bytes: [u8; 8]) -> (r: Self)
        ensures
            r@ == vstd::bytes::spec_u64_from_le_bytes(bytes@),
    {
        let v = vstd::bytes::u64_from_le_bytes(bytes.as_slice());
        Id(v)
    }

    /// Write the Id as its little-endian encoding.
    pub fn to_le_bytes(self) -> (r: [u8; 8])
        ensures
            r@ == vstd::bytes::spec_u64_to_le_bytes(self@),
    {
        proof {
            vstd::bytes::lemma_auto_spec_u64_to_from_le_bytes();
        }
        let v = vstd::bytes::u64_to_le_bytes(self.0);
        let r: [u8; 8] = [v[0], v[1], v[2], v[3], v[4], v[5], v[6], v[7]];
        proof {
            assert(r@ =~= vstd::bytes::spec_u64_to_le_bytes(self.0));
        }
        r
    }

    /// Create an Id from a byte offset.
    pub fn from_usize(id: usize) -> (r: Self)
        ensures
            r@ == id,
    {
        Id(id as u64)
    }

    /// The Id as a byte offset.
    pub fn to_usize(self) -> (r: usize)
        requires
            self@ <= usize::MAX,
        ensures
            r == self@,
    {
        self.0 as usize
    }
}

/// Errors for reading or writing chunk files and R-trees.
#[derive(Clone, Copy, Debug, PartialEq, Eq, Structural)]
pub enum Error {
    /// A payload could not be decoded.
    Codec,
    /// File shorter than the header, or wrong magic bytes.
    InvalidHeader,
    /// File lacks a trailing checkpoint, or its payload is malformed; also
    /// returned when finishing an empty bulk build.
    InvalidCheckpoint,
    /// The checksum of the chunk at the Id does not validate.
    InvalidCrc(Id),
    /// The Id is zero or outside the valid chunk region of the file.
    InvalidId(Id),
}

/// The CRC-32 (IEEE) checksum of a byte sequence.  The result depends on
/// the bytes alone.
pub uninterp spec fn crc32_of(b: Seq<u8>) -> u32;

/// Compute the checksum appended to each chunk.
///
/// Relies on crc32fast::hash: the CRC-32 (IEEE) checksum of the bytes.
#[verifier::external_body]
pub fn checksum(buf: &[u8]) -> (r: Option<u32>)
    ensures
        r == Some(crc32_of(buf@)),
{
    Some(crc32fast::hash(buf))
}

} // verus!
