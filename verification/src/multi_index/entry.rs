//! The record of one object in one pack, and the order in which such records are merged.
use crate::bytes::{lemma_lex_total, lemma_lex_transitive, lex_lt, lex_relation, Relation};
use crate::hash::ObjectId;
use vstd::prelude::*;

verus! {

/// Where one object lies in one pack.
#[derive(Clone, Copy, Debug)]
pub struct Entry {
    /// The name of the object.
    pub id: ObjectId,
    /// The position of the pack's index file among all index files, in the order of their paths.
    pub pack_index: u32,
    /// The offset of the object's first byte in the pack.
    pub pack_offset: u64,
    /// When the pack's index file was last modified, in nanoseconds since the
    /// Unix epoch. It decides between packs that hold the same object and is never written.
    pub index_mtime: i128,
}

/// The merge order on entries: by identifier ascending, then by modification
/// time descending, then by pack ascending.
pub open spec fn entry_before(a: Entry, b: Entry) -> bool {
    ||| lex_lt(a.id@, b.id@)
    ||| (a.id@ == b.id@ && a.index_mtime > b.index_mtime)
    ||| (a.id@ == b.id@ && a.index_mtime == b.index_mtime && a.pack_index < b.pack_index)
}

/// Two entries that the merge order does not tell apart.
pub open spec fn same_rank(a: Entry, b: Entry) -> bool {
    a.id@ == b.id@ && a.index_mtime == b.index_mtime && a.pack_index == b.pack_index
}

/// The merge order made total: entries of the same rank are ordered by where
/// they stood in the input, `i` for `a` and `j` for `b`.
pub open spec fn ranked_before(a: Entry, i: int, b: Entry, j: int) -> bool {
    entry_before(a, b) || (same_rank(a, b) && i < j)
}

/// Of two entries, exactly one comes first or they are of the same rank.
pub proof fn lemma_entry_trichotomy(a: Entry, b: Entry)
    ensures
        entry_before(a, b) || entry_before(b, a) || same_rank(a, b),
        !(entry_before(a, b) && entry_before(b, a)),
        !(entry_before(a, b) && same_rank(a, b)),
{
    lemma_lex_total(a.id@, b.id@);
}

/// The total order is transitive.
pub proof fn lemma_ranked_transitive(a: Entry, i: int, b: Entry, j: int, c: Entry, k: int)
    requires
        ranked_before(a, i, b, j),
        ranked_before(b, j, c, k),
    ensures
        ranked_before(a, i, c, k),
{
    lemma_lex_total(a.id@, b.id@);
    lemma_lex_total(b.id@, c.id@);
    lemma_lex_total(a.id@, c.id@);
    if lex_lt(a.id@, b.id@) && lex_lt(b.id@, c.id@) {
        lemma_lex_transitive(a.id@, b.id@, c.id@);
    }
}

/// An entry that comes before another has no greater identifier.
pub proof fn lemma_ranked_id(a: Entry, i: int, b: Entry, j: int)
    requires
        ranked_before(a, i, b, j),
    ensures
        a.id@ == b.id@ || lex_lt(a.id@, b.id@),
        !lex_lt(b.id@, a.id@),
{
    lemma_lex_total(a.id@, b.id@);
}

impl Entry {
    /// Decides whether `self` comes before `other` in the merge order.
    pub fn precedes(&self, other: &Entry) -> (r: bool)
        ensures
            r == entry_before(*self, *other),
    {
        proof {
            lemma_lex_total(self.id@, other.id@);
        }
        match lex_relation(self.id.as_slice(), other.id.as_slice()) {
            Relation::Before => true,
            Relation::After => false,
            Relation::Same => {
                if self.index_mtime != other.index_mtime {
                    self.index_mtime > other.index_mtime
                } else {
                    self.pack_index < other.pack_index
                }
            },
        }
    }

    /// Decides whether two entries name the same object.
    pub fn same_object(&self, other: &Entry) -> (r: bool)
        ensures
            r == (self.id@ == other.id@),
    {
        match lex_relation(self.id.as_slice(), other.id.as_slice()) {
            Relation::Same => true,
            _ => false,
        }
    }
}

} // verus!
