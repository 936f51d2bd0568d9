//! The multi-pack index: one lookup file over the objects of several packs.
pub mod chunk;
pub mod collect;
pub mod entry;
pub mod merge;
pub mod paths;
pub mod write;
