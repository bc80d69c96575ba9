//! A minimal key-less object store.
//!
//! Variable-length byte content lives in a flat *content store*; a separate
//! *directory store* holds fixed-width records that map a dense numeric slot
//! id to the content's byte range. The store layer models absolute-offset
//! reads and writes over a growable byte arena; the index layer provides the
//! record codec, the first-fit free-space allocator, and the directory
//! operations (create, save, free, update, enumerate, reset).
//!
//! The design assumes a single logical writer per pair of stores: the
//! allocate/write-content/persist-record sequence is not atomic, so callers
//! that share a store pair across threads must serialize every mutating call
//! (and keep reads from racing an in-flight write) behind one lock or a
//! single-owner thread. There is no transactional boundary across the two
//! stores, no crash consistency, and no compaction beyond free-slot reuse.

pub mod index;
pub mod store;
