//! The lookup chunk: the identifiers of all objects, ascending, one behind the other.
use crate::bytes::{lex_lt, put_bytes};
use crate::chunk_table::Id;
use crate::hash::{kind_len, Kind};
use crate::multi_index::entry::Entry;
use vstd::prelude::*;

verus! {

/// The identifier of the chunk, `OIDL`.
pub const ID: Id = [0x4f, 0x49, 0x44, 0x4c];

/// The bytes of the chunk for the given entries.
pub open spec fn lookup_bytes(entries: Seq<Entry>) -> Seq<u8>
    decreases entries.len(),
{
    if entries.len() == 0 {
        Seq::empty()
    } else {
        lookup_bytes(entries.drop_last()) + entries.last().id@
    }
}

/// The chunk has the size that is planned for it.
pub proof fn lemma_lookup_len(entries: Seq<Entry>)
    ensures
        lookup_bytes(entries).len() == entries.len() * 20,
    decreases entries.len(),
{
    if entries.len() > 0 {
        lemma_lookup_len(entries.drop_last());
    }
}

/// The chunk for the first `k` entries is the beginning of the chunk for all.
pub proof fn lemma_lookup_prefix(entries: Seq<Entry>, k: int)
    requires
        0 <= k <= entries.len(),
    ensures
        lookup_bytes(entries.take(k)).len() == k * 20,
        lookup_bytes(entries).len() >= k * 20,
        lookup_bytes(entries).subrange(0, k * 20) == lookup_bytes(entries.take(k)),
    decreases entries.len() - k,
{
    lemma_lookup_len(entries);
    lemma_lookup_len(entries.take(k));
    if k < entries.len() {
        let t = entries.drop_last();
        assert(t.take(k) =~= entries.take(k));
        lemma_lookup_prefix(t, k);
        assert(lookup_bytes(entries).subrange(0, k * 20) =~= lookup_bytes(t).subrange(0, k * 20));
    } else {
        assert(entries.take(k) =~= entries);
        assert(lookup_bytes(entries).subrange(0, k * 20) =~= lookup_bytes(entries));
    }
}

/// The identifier of the entry at place `k` stands at place `k` of the chunk.
pub proof fn lemma_lookup_slot(entries: Seq<Entry>, k: int)
    requires
        0 <= k < entries.len(),
    ensures
        lookup_bytes(entries).len() >= (k + 1) * 20,
        lookup_bytes(entries).subrange(k * 20, (k + 1) * 20) == entries[k].id@,
{
    lemma_lookup_prefix(entries, k + 1);
    let t = entries.take(k + 1);
    lemma_lookup_len(t.drop_last());
    assert(t.last() == entries[k]);
    assert(lookup_bytes(t).subrange(k * 20, (k + 1) * 20) =~= entries[k].id@);
    assert(lookup_bytes(entries).subrange(k * 20, (k + 1) * 20) =~= lookup_bytes(
        entries,
    ).subrange(0, (k + 1) * 20).subrange(k * 20, (k + 1) * 20));
}

/// The identifier at place `k` of the chunk.
pub open spec fn lookup_read(entries: Seq<Entry>, k: int) -> Seq<u8> {
    lookup_bytes(entries).subrange(k * 20, (k + 1) * 20)
}

/// Where the identifiers of the entries ascend strictly, so do those in the
/// chunk: an earlier place holds a smaller identifier, and none stands twice.
pub proof fn lemma_lookup_ascends(entries: Seq<Entry>, k1: int, k2: int)
    requires
        forall|i: int, j: int|
            0 <= i < j < entries.len() ==> lex_lt(
                #[trigger] entries[i].id@,
                #[trigger] entries[j].id@,
            ),
        0 <= k1 < k2 < entries.len(),
    ensures
        lex_lt(lookup_read(entries, k1), lookup_read(entries, k2)),
        lookup_read(entries, k1) != lookup_read(entries, k2),
{
    lemma_lookup_slot(entries, k1);
    lemma_lookup_slot(entries, k2);
    assert(lex_lt(entries[k1].id@, entries[k2].id@));
    crate::bytes::lemma_lex_irreflexive(entries[k1].id@);
}

/// The number of bytes that the chunk takes for `entries` identifiers of the given kind.
pub fn storage_size(entries: usize, object_hash: Kind) -> (r: u64)
    requires
        entries * kind_len(object_hash) <= u64::MAX,
    ensures
        r == entries * kind_len(object_hash),
{
    entries as u64 * object_hash.len_in_bytes() as u64
}

/// Appends the chunk for the given entries to `out`.
pub fn write(entries: &Vec<Entry>, out: &mut Vec<u8>)
    ensures
        final(out)@ == old(out)@ + lookup_bytes(entries@),
{
    let ghost before = out@;
    let mut i: usize = 0;
    assert(entries@.take(0) =~= Seq::empty());
    assert(out@ =~= before + lookup_bytes(entries@.take(0)));
    while i < entries.len()
        invariant
            i <= entries.len(),
            out@ == before + lookup_bytes(entries@.take(i as int)),
        decreases entries.len() - i,
    {
        proof {
            assert(entries@.take(i + 1).drop_last() =~= entries@.take(i as int));
            assert(entries@.take(i + 1).last() == entries@[i as int]);
        }
        put_bytes(out, entries[i].id.as_slice());
        i += 1;
        assert(out@ =~= before + lookup_bytes(entries@.take(i as int)));
    }
    assert(entries@.take(entries.len() as int) =~= entries@);
}

} // verus!
