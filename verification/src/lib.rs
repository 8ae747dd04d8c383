//! EMBR: a solid, seekable, deduplicating archive container.
//!
//! The format's advantage over ZIP comes from the container, not from a novel
//! compression algorithm:
//!
//! * **Solid blocks.** ZIP compresses each file independently, so a folder of
//!   2,500 Python files re-learns the same vocabulary 2,500 times. EMBR packs
//!   many files into one large block with a shared dictionary.
//! * **Large windows.** DEFLATE looks back 32 KB; EMBR asks zstd for up to
//!   128 MB, so near-identical files far apart in the archive still match.
//! * **Sorted layout.** Files are grouped by type before packing, which is free
//!   and materially improves what the solid block can find.
//! * **Whole-file dedup.** Byte-identical files are stored once.
//! * **A fast lane.** Already-compressed media is still packed solid, but at
//!   a cheap level, since high effort there provably buys nothing.
//!
//! Everything here is seekable: the index at the tail records each block's
//! offset, so extracting one file decodes only the blocks it touches.
//!
//! The library does no I/O of its own. Files are read, and an archive's bytes
//! are written and read back, through functions that the caller hands in, and
//! what they were asked and given is on record; what is to be done to the file
//! system comes out as steps. What an archive holds, and that what was put in is
//! what comes out, is stated in [`laws`], [`layout`], [`walk`], [`placement`],
//! [`passes`], [`tree`] and [`success`].

use vstd::prelude::*;

pub mod bytes;
pub mod classify;
pub mod codec;
pub mod coder;
pub mod contents;
pub mod digest;
pub mod error;
pub mod extract;
pub mod fetching;
pub mod index;
pub mod laws;
pub mod layout;
pub mod order;
pub mod pack;
pub mod passes;
pub mod paths;
pub mod placement;
pub mod plan;
pub mod raw;
pub mod reader;
pub mod reading;
pub mod report;
pub mod seen;
pub mod select;
pub mod stream;
pub mod success;
pub mod text;
pub mod tree;
pub mod walk;
pub mod writer;

pub use codec::Codec;
pub use error::{Cause, Error, Fault};
pub use extract::{ExtractOptions, ExtractStats};
pub use index::{Entry, Index, Kind, Segment};
pub use reader::Archive;
pub use writer::{create, WriteOptions, WriteStats, DEFAULT_BLOCK_SIZE};

verus! {

/// Version of this library.
pub const VERSION: &'static str = "0.1.0";

} // verus!
