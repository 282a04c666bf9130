//! Reader for chunk files.
//!
//! The reader works over the file image as plain bytes; the caller opens
//! or maps the file and hands the bytes in.

use crate::chunk::{spec_chunk_crc_ok, spec_chunk_parse};
use crate::common::{checksum, spec_header, Error, Id, CHECKPOINT_SZ, CRC_SZ, HEADER_SZ};
use crate::varint::decode_varint;
use vstd::bytes::{spec_u32_from_le_bytes, spec_u64_from_le_bytes, u32_from_le_bytes, u64_from_le_bytes};
use vstd::prelude::*;
use vstd::slice::{slice_subrange, slice_to_vec};

verus! {

/// The image begins with the 8-byte header.
pub open spec fn spec_header_ok(data: Seq<u8>) -> bool {
    data.len() >= 8 && data.subrange(0, 8) == spec_header()
}

/// An identifier lies in the chunk region: at or past the header, and
/// strictly before the trailing checkpoint chunk.
pub open spec fn spec_in_region(data: Seq<u8>, id: u64) -> bool {
    8 <= id && id + CHECKPOINT_SZ < data.len()
}

/// What `lookup` returns for each identifier.
pub open spec fn spec_lookup(data: Seq<u8>, id: u64) -> Result<Seq<u8>, Error> {
    if !spec_in_region(data, id) {
        Err(Error::InvalidId(crate::common::spec_id(id)))
    } else {
        match spec_chunk_parse(data, id as int) {
            Some((p, end)) => if spec_chunk_crc_ok(data, id as int) {
                Ok(p)
            } else {
                Err(Error::InvalidCrc(crate::common::spec_id(id)))
            },
            None => Err(Error::Codec),
        }
    }
}

/// What `root` returns: the chunk parsed from the trailing
/// `CHECKPOINT_SZ` bytes, if it carries a valid eight-byte payload.
pub open spec fn spec_root(data: Seq<u8>) -> Result<u64, Error> {
    if data.len() < HEADER_SZ + CHECKPOINT_SZ {
        Err(Error::InvalidCheckpoint)
    } else {
        let base = data.len() - CHECKPOINT_SZ;
        match spec_chunk_parse(data, base) {
            Some((p, end)) => if p.len() != 8 {
                Err(Error::InvalidCheckpoint)
            } else if spec_chunk_crc_ok(data, base) {
                Ok(spec_u64_from_le_bytes(p))
            } else {
                Err(Error::InvalidCrc(crate::common::spec_id(base as u64)))
            },
            None => Err(Error::InvalidCheckpoint),
        }
    }
}

/// Reader for chunk files.
pub struct Reader {
    /// The file image.
    data: Vec<u8>,
}

impl View for Reader {
    type V = Seq<u8>;

    closed spec fn view(&self) -> Seq<u8> {
        self.data@
    }
}

/// Parse the chunk at `base`: the payload, the end position, and whether
/// the stored checksum validates.
fn read_chunk(data: &Vec<u8>, base: usize) -> (r: Option<(Vec<u8>, usize, bool)>)
    ensures
        match spec_chunk_parse(data@, base as int) {
            Some((p, end)) => r matches Some((v, e, ok)) && v@ == p && e == end && ok
                == spec_chunk_crc_ok(data@, base as int),
            None => r is None,
        },
{
    match decode_varint(data, base) {
        None => None,
        Some((sz, p1)) => {
            let len = data.len();
            if len - p1 < CRC_SZ {
                return None;
            }
            if sz > (len - p1 - CRC_SZ) as u64 {
                return None;
            }
            let szu = sz as usize;
            let pend = p1 + szu;
            let covered = slice_subrange(data.as_slice(), base, pend);
            let computed = match checksum(covered) {
                Some(c) => c,
                None => 0,
            };
            let stored = u32_from_le_bytes(slice_subrange(data.as_slice(), pend, pend + CRC_SZ));
            let ok = computed == stored;
            proof {
                vstd::bytes::lemma_auto_spec_u32_to_from_le_bytes();
                let pi = p1 as int;
                let stored_bytes = data@.subrange(pi + sz, pi + sz + CRC_SZ);
                let want = vstd::bytes::spec_u32_to_le_bytes(
                    crate::common::crc32_of(data@.subrange(base as int, pi + sz)),
                );
                assert(stored_bytes.len() == 4);
                if stored_bytes == want {
                    assert(spec_u32_from_le_bytes(stored_bytes) == computed);
                } else {
                    if spec_u32_from_le_bytes(stored_bytes) == computed {
                        assert(vstd::bytes::spec_u32_to_le_bytes(
                            spec_u32_from_le_bytes(stored_bytes),
                        ) == stored_bytes);
                        assert(stored_bytes == want);
                    }
                }
            }
            let payload = slice_to_vec(slice_subrange(data.as_slice(), p1, pend));
            Some((payload, pend + CRC_SZ, ok))
        },
    }
}

impl Reader {
    /// Open a reader over the image of a file; the header is verified.
    ///
    /// The caller must not let another process mutate the underlying
    /// file while its bytes are being taken.
    pub fn new(data: Vec<u8>) -> (r: Result<Reader, Error>)
        ensures
            r matches Ok(rd) ==> rd@ == data@ && spec_header_ok(data@),
            r is Ok <==> spec_header_ok(data@),
            r matches Err(e) ==> e == Error::InvalidHeader,
    {
        if data.len() < 8 {
            return Err(Error::InvalidHeader);
        }
        let header = header_ok_check(&data);
        if header {
            Ok(Reader { data })
        } else {
            Err(Error::InvalidHeader)
        }
    }

    /// A placeholder reader over a single zero byte.
    pub fn new_empty() -> (r: Reader)
        ensures
            r@ == seq![0u8],
    {
        let mut data: Vec<u8> = Vec::new();
        data.push(0);
        proof {
            assert(data@ =~= seq![0u8]);
        }
        Reader { data }
    }

    /// The length of the image.
    pub fn len(&self) -> (r: usize)
        ensures
            r == self@.len(),
    {
        self.data.len()
    }

    /// Get the root chunk identifier from the trailing checkpoint.
    pub fn root(&self) -> (r: Result<Id, Error>)
        ensures
            r matches Ok(id) ==> spec_root(self@) == Ok::<u64, Error>(id@),
            r matches Err(e) ==> spec_root(self@) == Err::<u64, Error>(e),
    {
        let len = self.data.len();
        if len < HEADER_SZ + CHECKPOINT_SZ {
            return Err(Error::InvalidCheckpoint);
        }
        let base = len - CHECKPOINT_SZ;
        match read_chunk(&self.data, base) {
            None => Err(Error::InvalidCheckpoint),
            Some((payload, _end, ok)) => {
                if payload.len() != 8 {
                    Err(Error::InvalidCheckpoint)
                } else if !ok {
                    let cid = Id::new(base as u64);
                    proof {
                        crate::common::lemma_spec_id(base as u64);
                        crate::common::lemma_id_eq(cid, crate::common::spec_id(base as u64));
                    }
                    Err(Error::InvalidCrc(cid))
                } else {
                    let v = u64_from_le_bytes(payload.as_slice());
                    Ok(Id::new(v))
                }
            },
        }
    }

    /// Get the payload of the chunk starting at `id`.
    ///
    /// Fails with `InvalidId` when `id` lies outside the chunk region,
    /// with `InvalidCrc` when the stored checksum does not validate, and
    /// with `Codec` when no chunk parses at `id`.
    pub fn lookup(&self, id: Id) -> (r: Result<Vec<u8>, Error>)
        ensures
            r matches Ok(p) ==> spec_lookup(self@, id@) == Ok::<Seq<u8>, Error>(p@),
            r matches Err(e) ==> spec_lookup(self@, id@) == Err::<Seq<u8>, Error>(e),
    {
        proof {
            crate::common::lemma_spec_id(id@);
            crate::common::lemma_id_eq(id, crate::common::spec_id(id@));
        }
        let v = id.value();
        let len = self.data.len();
        if !(v >= 8 && len > CHECKPOINT_SZ && v < (len - CHECKPOINT_SZ) as u64) {
            return Err(Error::InvalidId(id));
        }
        let base = id.to_usize();
        match read_chunk(&self.data, base) {
            None => Err(Error::Codec),
            Some((payload, _end, ok)) => {
                if ok {
                    Ok(payload)
                } else {
                    Err(Error::InvalidCrc(id))
                }
            },
        }
    }
}

/// Compare the first eight bytes of the image with the header.
fn header_ok_check(data: &Vec<u8>) -> (r: bool)
    requires
        data@.len() >= 8,
    ensures
        r == spec_header_ok(data@),
{
    let h = crate::common::header_bytes();
    let mut i: usize = 0;
    while i < 8
        invariant
            0 <= i <= 8,
            data@.len() >= 8,
            h@ == spec_header(),
            forall|j: int| 0 <= j < i ==> data@[j] == spec_header()[j],
        decreases 8 - i,
    {
        if data[i] != h[i] {
            assert(data@.subrange(0, 8) != spec_header()) by {
                assert(data@.subrange(0, 8)[i as int] != spec_header()[i as int]);
            }
            return false;
        }
        i += 1;
    }
    proof {
        assert(data@.subrange(0, 8) =~= spec_header());
    }
    true
}

} // verus!
