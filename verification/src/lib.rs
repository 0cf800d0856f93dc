//! A memory allocator for blocks of fixed size.
//!
//! A [`block::AllocBlock`] is divided into chunks. The first chunk holds one
//! descriptor for each chunk. The other chunks are handed out in runs of a
//! power of two of chunks by a buddy allocator, and single chunks are handed out
//! in parts of equal size to serve small requests.
//!
//! A block is changed through an exclusive reference. A descriptor that was
//! loaded from a block may be outdated by the time it is used: replacing it
//! in the block fails with [`error::AllocError::Retry`] in that case. Between
//! loading and replacing a descriptor within one call nothing can come, so no
//! call on a block as a whole ever ends with that error.
pub mod bits;
pub mod block;
pub mod buddy;
pub mod defs;
pub mod descriptors;
pub mod error;
pub mod laws;
pub mod layout;
pub mod requests;
