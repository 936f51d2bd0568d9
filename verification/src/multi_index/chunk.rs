//! The chunks of a multi-pack index: for each its identifier, its size and its bytes.
pub mod fanout;
pub mod index_names;
pub mod large_offsets;
pub mod lookup;
pub mod offsets;
