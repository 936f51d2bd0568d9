//! The fanout chunk: for each value of a leading byte the number of objects
//! whose identifier begins with that byte or a smaller one.
use crate::bytes::{be_u32, put_u32};
use crate::chunk_table::Id;
use crate::multi_index::entry::Entry;
use vstd::prelude::*;

verus! {

/// The identifier of the chunk, `OIDF`.
pub const ID: Id = [0x4f, 0x49, 0x44, 0x46];

/// The size of the chunk: 256 counts of four bytes.
pub const SIZE: usize = 1024;

/// The number of entries whose identifier begins with a byte that is at most `b`.
pub open spec fn count_le(entries: Seq<Entry>, b: int) -> nat
    decreases entries.len(),
{
    if entries.len() == 0 {
        0
    } else if entries.last().id@[0] <= b {
        count_le(entries.drop_last(), b) + 1
    } else {
        count_le(entries.drop_last(), b)
    }
}

/// The number of entries whose identifier begins with the byte `b`.
pub open spec fn count_eq(entries: Seq<Entry>, b: int) -> nat
    decreases entries.len(),
{
    if entries.len() == 0 {
        0
    } else if entries.last().id@[0] == b {
        count_eq(entries.drop_last(), b) + 1
    } else {
        count_eq(entries.drop_last(), b)
    }
}

/// The first `slots` counts of the chunk.
pub open spec fn fanout_prefix(entries: Seq<Entry>, slots: nat) -> Seq<u8>
    decreases slots,
{
    if slots == 0 {
        Seq::empty()
    } else {
        fanout_prefix(entries, (slots - 1) as nat) + be_u32(count_le(entries, slots - 1) as u32)
    }
}

/// The bytes of the chunk for the given entries.
pub open spec fn fanout_bytes(entries: Seq<Entry>) -> Seq<u8> {
    fanout_prefix(entries, 256)
}

/// The counts are bounded by the number of entries, ascend with the byte, and
/// the last one counts every entry.
pub proof fn lemma_counts(entries: Seq<Entry>, b: int)
    ensures
        count_eq(entries, b) <= entries.len(),
        count_le(entries, b) <= entries.len(),
        count_le(entries, b) == count_le(entries, b - 1) + count_eq(entries, b),
        b < 0 ==> count_le(entries, b) == 0,
        b >= 255 ==> count_le(entries, b) == entries.len(),
    decreases entries.len(),
{
    if entries.len() > 0 {
        lemma_counts(entries.drop_last(), b);
    }
}

/// The first `slots` counts take four bytes each.
pub proof fn lemma_fanout_prefix_len(entries: Seq<Entry>, slots: nat)
    ensures
        fanout_prefix(entries, slots).len() == 4 * slots,
    decreases slots,
{
    if slots > 0 {
        lemma_fanout_prefix_len(entries, (slots - 1) as nat);
    }
}

/// The chunk has the size that is planned for it.
pub proof fn lemma_fanout_len(entries: Seq<Entry>)
    ensures
        fanout_bytes(entries).len() == SIZE,
{
    lemma_fanout_prefix_len(entries, 256);
}

proof fn lemma_fanout_prefix_slot(entries: Seq<Entry>, slots: nat, b: int)
    requires
        0 <= b < slots,
    ensures
        fanout_prefix(entries, slots).len() == 4 * slots,
        fanout_prefix(entries, slots).subrange(4 * b, 4 * b + 4) == be_u32(
            count_le(entries, b) as u32,
        ),
    decreases slots,
{
    lemma_fanout_prefix_len(entries, slots);
    lemma_fanout_prefix_len(entries, (slots - 1) as nat);
    if b < slots - 1 {
        lemma_fanout_prefix_slot(entries, (slots - 1) as nat, b);
        assert(fanout_prefix(entries, slots).subrange(4 * b, 4 * b + 4) =~= fanout_prefix(
            entries,
            (slots - 1) as nat,
        ).subrange(4 * b, 4 * b + 4));
    } else {
        assert(fanout_prefix(entries, slots).subrange(4 * b, 4 * b + 4) =~= be_u32(
            count_le(entries, b) as u32,
        ));
    }
}

/// Slot `b` of the chunk holds, as a big-endian number of four bytes, the
/// number of entries whose identifier begins with a byte that is at most `b`;
/// the last slot holds the number of all entries.
pub proof fn lemma_fanout_slot(entries: Seq<Entry>, b: int)
    requires
        0 <= b < 256,
    ensures
        fanout_bytes(entries).len() == 1024,
        fanout_bytes(entries).subrange(4 * b, 4 * b + 4) == be_u32(count_le(entries, b) as u32),
        count_le(entries, 255) == entries.len(),
        count_le(entries, b) <= entries.len(),
{
    lemma_fanout_prefix_slot(entries, 256, b);
    lemma_counts(entries, 255);
    lemma_counts(entries, b);
}

/// Appends the chunk for the given entries to `out`.
pub fn write(entries: &Vec<Entry>, out: &mut Vec<u8>)
    requires
        entries.len() <= u32::MAX,
    ensures
        final(out)@ == old(out)@ + fanout_bytes(entries@),
{
    let mut counts: Vec<u32> = Vec::with_capacity(256);
    let mut b: usize = 0;
    while b < 256
        invariant
            b <= 256,
            counts.len() == b,
            forall|k: int| 0 <= k < b ==> #[trigger] counts@[k] == 0,
        decreases 256 - b,
    {
        counts.push(0);
        b += 1;
    }
    let mut i: usize = 0;
    assert(entries@.take(0) =~= Seq::empty());
    while i < entries.len()
        invariant
            i <= entries.len(),
            entries.len() <= u32::MAX,
            counts.len() == 256,
            forall|k: int|
                0 <= k < 256 ==> #[trigger] counts@[k] == count_eq(entries@.take(i as int), k),
        decreases entries.len() - i,
    {
        let first = entries[i].id.first_byte() as usize;
        proof {
            let t = entries@.take(i + 1);
            assert(t.drop_last() =~= entries@.take(i as int));
            assert(t.last() == entries@[i as int]);
            lemma_counts(entries@.take(i as int), first as int);
            assert forall|k: int| 0 <= k < 256 implies count_eq(t, k) == count_eq(
                entries@.take(i as int),
                k,
            ) + if k == first {
                1nat
            } else {
                0nat
            } by {}
        }
        let c = counts[first];
        counts.set(first, c + 1);
        i += 1;
    }
    assert(entries@.take(entries.len() as int) =~= entries@);
    let ghost before = out@;
    let mut total: u32 = 0;
    let mut b: usize = 0;
    assert(out@ =~= before + fanout_prefix(entries@, 0));
    proof {
        lemma_counts(entries@, -1);
    }
    while b < 256
        invariant
            b <= 256,
            entries.len() <= u32::MAX,
            counts.len() == 256,
            forall|k: int| 0 <= k < 256 ==> #[trigger] counts@[k] == count_eq(entries@, k),
            total == count_le(entries@, b - 1),
            out@ == before + fanout_prefix(entries@, b as nat),
        decreases 256 - b,
    {
        proof {
            lemma_counts(entries@, b as int);
        }
        total = total + counts[b];
        put_u32(out, total);
        b += 1;
        assert(out@ =~= before + fanout_prefix(entries@, b as nat));
    }
}

} // verus!
