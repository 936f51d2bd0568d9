//! Writing multi-pack index files: the merge of several pack indices into one
//! sorted, deduplicated, chunked lookup file with a trailing checksum.
pub mod attributes;
pub mod bytes;
pub mod chunk_table;
pub mod easy;
pub mod hash;
pub mod interrupt;
pub mod multi_index;
pub mod permutation;
