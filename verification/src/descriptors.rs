//! Chunk descriptors: what the first chunk of a block says about each chunk.
pub mod alloc_desc;
pub mod compound_desc;
pub mod desc_storage;
pub mod free_desc;
pub mod meta_desc;
pub mod parts_desc;
pub mod raw_desc;
