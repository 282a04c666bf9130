//! Tests for the chunk file layer: header, framing, checkpoint, lookup
//! and checksum behaviour.

use rosewood::common::checksum;
use rosewood::common::Error;
use rosewood::common::Id;
use rosewood::reader::Reader;
use rosewood::writer::Writer;

fn build_two_chunk_file() -> Vec<u8> {
    let mut w = Writer::new();
    let id1 = w.push(&b"Root".to_vec());
    assert_eq!(id1.value(), 8);
    let id2 = w.push(&42u64.to_le_bytes().to_vec());
    assert_eq!(id2.value(), 17);
    w.checkpoint(id1);
    w.into_bytes()
}

#[test]
fn header_bytes_fixed() {
    let w = Writer::new();
    let bytes = w.into_bytes();
    assert_eq!(bytes, vec![0x6c, 0x6f, 0x61, 0x6d, 0x30, 0x30, 0x30, 0x30]);
    assert_eq!(&bytes[..], b"loam0000");
}

#[test]
fn chunk_roundtrip() {
    let bytes = build_two_chunk_file();
    let r = Reader::new(bytes).unwrap();
    let root = r.root().unwrap();
    assert_eq!(root.value(), 8);
    let payload = r.lookup(root).unwrap();
    assert_eq!(payload, b"Root".to_vec());
    let payload2 = r.lookup(Id::new(17)).unwrap();
    assert_eq!(payload2, 42u64.to_le_bytes().to_vec());
}

#[test]
fn id_monotonic() {
    let mut w = Writer::new();
    let mut last: u64 = 0;
    for i in 0..10u8 {
        let before = w.len() as u64;
        let id = w.push(&vec![i; (i as usize) + 1]);
        assert_eq!(id.value(), before);
        assert!(id.value() > last);
        last = id.value();
    }
}

#[test]
fn checkpoint_sets_root() {
    let mut w = Writer::new();
    let _ = w.push(&vec![1, 2, 3]);
    let id = w.push(&vec![4, 5]);
    w.checkpoint(id);
    let bytes = w.into_bytes();
    let r = Reader::new(bytes).unwrap();
    assert_eq!(r.root().unwrap().value(), id.value());
}

#[test]
fn header_too_short_rejected() {
    assert_eq!(Reader::new(vec![0x6c, 0x6f]).err(), Some(Error::InvalidHeader));
    let mut bad = b"loam0000".to_vec();
    bad[4] = b'1';
    assert_eq!(Reader::new(bad).err(), Some(Error::InvalidHeader));
}

#[test]
fn append_to_short_file_rejected() {
    assert!(Writer::append_to(vec![1, 2, 3]).is_err());
    assert!(Writer::append_to(Vec::new()).is_ok());
    let grown = Writer::append_to(build_two_chunk_file()).unwrap();
    assert!(grown.len() > 8);
}

#[test]
fn append_continues_a_file() {
    let bytes = build_two_chunk_file();
    let mut w = Writer::append_to(bytes).unwrap();
    let id3 = w.push(&b"more".to_vec());
    w.checkpoint(id3);
    let r = Reader::new(w.into_bytes()).unwrap();
    assert_eq!(r.root().unwrap().value(), id3.value());
    assert_eq!(r.lookup(id3).unwrap(), b"more".to_vec());
    // the earlier chunks are still in place
    assert_eq!(r.lookup(Id::new(8)).unwrap(), b"Root".to_vec());
}

#[test]
fn missing_checkpoint() {
    let mut w = Writer::new();
    let _ = w.push(&vec![9]);
    let bytes = w.into_bytes();
    let r = Reader::new(bytes).unwrap();
    assert_eq!(r.root().err(), Some(Error::InvalidCheckpoint));
}

#[test]
fn lookup_out_of_region() {
    let bytes = build_two_chunk_file();
    let r = Reader::new(bytes).unwrap();
    assert_eq!(r.lookup(Id::new(0)).err(), Some(Error::InvalidId(Id::new(0))));
    assert_eq!(r.lookup(Id::new(7)).err(), Some(Error::InvalidId(Id::new(7))));
    let len = r.len() as u64;
    let beyond = Id::new(len);
    assert_eq!(r.lookup(beyond).err(), Some(Error::InvalidId(beyond)));
}

#[test]
fn crc_detects_payload_flip() {
    // first chunk: varint size at 8, payload at 9..13, crc at 13..17
    let mut bytes = build_two_chunk_file();
    bytes[10] ^= 0x01;
    let r = Reader::new(bytes).unwrap();
    assert_eq!(r.lookup(Id::new(8)).err(), Some(Error::InvalidCrc(Id::new(8))));
}

#[test]
fn crc_detects_crc_flip() {
    let mut bytes = build_two_chunk_file();
    bytes[16] ^= 0x80;
    let r = Reader::new(bytes).unwrap();
    assert_eq!(r.lookup(Id::new(8)).err(), Some(Error::InvalidCrc(Id::new(8))));
}

#[test]
fn crc_detects_every_single_bit_flip() {
    let clean = build_two_chunk_file();
    // the first chunk occupies bytes [8, 17)
    for byte in 8..17usize {
        for bit in 0..8u8 {
            let mut bytes = clean.clone();
            bytes[byte] ^= 1 << bit;
            let r = Reader::new(bytes).unwrap();
            let res = r.lookup(Id::new(8));
            assert!(res.is_err(), "flip at byte {byte} bit {bit} went unnoticed");
            if byte > 8 {
                // payload or checksum flips always surface as a checksum error
                assert_eq!(res.err(), Some(Error::InvalidCrc(Id::new(8))));
            }
        }
    }
}

#[test]
fn checksum_known_value() {
    assert_eq!(checksum(b"123456789"), Some(0xCBF4_3926));
    assert_ne!(checksum(b"123456788"), Some(0xCBF4_3926));
}

#[test]
fn id_encoding() {
    let id = Id::new(0x0102_0304_0506_0708);
    let bytes = id.to_le_bytes();
    assert_eq!(bytes, [8, 7, 6, 5, 4, 3, 2, 1]);
    assert_eq!(Id::from_le_bytes(bytes).value(), id.value());
    assert!(id.is_valid());
    assert!(!Id::new(0).is_valid());
    assert_eq!(Id::from_usize(77).to_usize(), 77);
}
