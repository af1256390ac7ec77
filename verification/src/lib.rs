//! Chunk streaming and editing engine for a tile-based 2D world.
//!
//! The world is partitioned into fixed-size 32x32 chunks of 8 tile layers,
//! each addressed by an `(x, y, group)` coordinate triple.  This crate holds
//! the verified core: chunk identity and key derivation, the textual chunk
//! file format, the in-memory chunk cache with dirty tracking and eviction,
//! the nine-slot render neighborhood, and tileset selection.  All file and
//! screen I/O stays outside; the persistence backing store is an explicit
//! [`store::FileStore`] value that a thin shell keeps in step with a real
//! data directory.

pub mod codec;
pub mod coord;
pub mod digits;
pub mod map;
pub mod map_data;
pub mod store;
pub mod tileset;
