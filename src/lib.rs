//! Columnar in-memory arrays: shared buffers and bitmaps, the array shapes built on them,
//! growables that copy runs of slots into new arrays, filtering by runs of set bits, and the
//! description of arrays handed across a foreign boundary.

// Memory: shared buffers, bitmaps and the accounting of allocations.
pub mod allocation;
pub mod bitmap;
pub mod buffer;

// Types and errors.
pub mod error;
pub mod types;

// Array shapes.
pub mod array;
pub mod binary;
pub mod boolean;
pub mod list_iter;
pub mod nested;
pub mod primitive;
pub mod record_batch;
pub mod utf8;

// Runs of set bits and the kernels built on growables.
pub mod cast;
pub mod filter;
pub mod growable;
pub mod growable_binary;
pub mod runs;
pub mod slices;
pub mod take;

// The foreign interface.
pub mod ffi;
