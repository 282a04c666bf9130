//! Persistent storage for spatially indexed geometric data.
//!
//! The bottom layer is an append-only chunk store: a file that starts with a
//! fixed eight-byte header, continues with self-delimiting chunks (a varint
//! size prefix, the payload, and a CRC-32 checksum), and ends with a
//! checkpoint chunk whose payload is the identifier of the root chunk.
//!
//! The top layer is a bulk-loaded R-tree over two-dimensional geometry,
//! built with the Overlap Minimizing Top-down algorithm and queried by
//! axis-aligned bounding box.
//!
//! The library works on in-memory byte buffers; opening, mapping, syncing
//! and renaming files is left to the caller.
#![allow(unused_imports)]

pub mod common;
pub mod varint;
pub mod chunk;
pub mod writer;
pub mod reader;
pub mod laws;
pub mod bbox;
pub mod node;
pub mod gis;
pub mod codec;
pub mod tree;
pub mod rtree;
pub mod bulk;

pub use bulk::BulkWriter;
pub use common::{checksum, Error, Id};
pub use reader::Reader;
pub use rtree::RTree;
pub use writer::Writer;
