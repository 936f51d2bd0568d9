//! The chunk of large offsets: the offsets of 2^31 and more in full, in the
//! order of their entries.
use crate::bytes::{
    be_u32_value, be_u64, be_u64_value, lemma_be_u32_round_trip, lemma_be_u64_round_trip, put_u64,
};
use crate::chunk_table::Id;
use crate::multi_index::chunk::offsets::{
    is_large, large_count, large_place, lemma_large_count, lemma_offsets_slot, offset_field,
    offsets_bytes, HIGH_BIT, LARGE_OFFSET_THRESHOLD,
};
use crate::multi_index::entry::Entry;
use vstd::prelude::*;

verus! {

/// The identifier of the chunk, `LOFF`.
pub const ID: Id = [0x4c, 0x4f, 0x46, 0x46];

/// The bytes of the chunk for the given entries.
pub open spec fn large_offsets_bytes(entries: Seq<Entry>) -> Seq<u8>
    decreases entries.len(),
{
    if entries.len() == 0 {
        Seq::empty()
    } else if is_large(entries.last().pack_offset) {
        large_offsets_bytes(entries.drop_last()) + be_u64(entries.last().pack_offset)
    } else {
        large_offsets_bytes(entries.drop_last())
    }
}

/// The chunk has the size that is planned for it.
pub proof fn lemma_large_offsets_len(entries: Seq<Entry>)
    ensures
        large_offsets_bytes(entries).len() == large_count(entries) * 8,
    decreases entries.len(),
{
    if entries.len() > 0 {
        lemma_large_offsets_len(entries.drop_last());
    }
}

/// The chunk for the first `k` entries is the beginning of the chunk for all.
pub proof fn lemma_large_offsets_prefix(entries: Seq<Entry>, k: int)
    requires
        0 <= k <= entries.len(),
    ensures
        large_offsets_bytes(entries).len() >= large_place(entries, k) * 8,
        large_offsets_bytes(entries).subrange(0, large_place(entries, k) * 8)
            == large_offsets_bytes(entries.take(k)),
    decreases entries.len() - k,
{
    lemma_large_offsets_len(entries);
    lemma_large_count(entries, k);
    let n = large_place(entries, k) * 8;
    if k < entries.len() {
        let t = entries.drop_last();
        assert(t.take(k) =~= entries.take(k));
        lemma_large_offsets_prefix(t, k);
        lemma_large_offsets_len(t);
        assert(large_offsets_bytes(entries).subrange(0, n) =~= large_offsets_bytes(t).subrange(
            0,
            n,
        ));
    } else {
        assert(entries.take(k) =~= entries);
        assert(large_offsets_bytes(entries).subrange(0, n) =~= large_offsets_bytes(entries));
    }
}

/// The large offset of the entry at place `k` stands in the chunk at the
/// place that is the number of large offsets before it.
pub proof fn lemma_large_offsets_slot(entries: Seq<Entry>, k: int)
    requires
        0 <= k < entries.len(),
        is_large(entries[k].pack_offset),
    ensures
        large_offsets_bytes(entries).len() >= (large_place(entries, k) + 1) * 8,
        large_offsets_bytes(entries).subrange(
            large_place(entries, k) * 8,
            large_place(entries, k) * 8 + 8,
        ) == be_u64(entries[k].pack_offset),
{
    let t = entries.take(k + 1);
    let place = large_place(entries, k);
    let all = large_offsets_bytes(entries);
    assert(t.drop_last() =~= entries.take(k));
    assert(t.last() == entries[k]);
    assert(large_count(t) == place + 1);
    lemma_large_offsets_prefix(entries, k + 1);
    lemma_large_offsets_len(entries.take(k));
    assert(large_offsets_bytes(t).subrange(place * 8, place * 8 + 8) =~= be_u64(
        entries[k].pack_offset,
    ));
    assert(all.subrange(place * 8, place * 8 + 8) =~= all.subrange(0, (place + 1) * 8).subrange(
        place * 8,
        place * 8 + 8,
    ));
}

/// What the offset chunk holds for the entry at place `k`, read as a number.
pub open spec fn offset_read(entries: Seq<Entry>, k: int) -> int {
    be_u32_value(offsets_bytes(entries).subrange(k * 8 + 4, k * 8 + 8))
}

/// The pack ordinal that the offset chunk holds for the entry at place `k`.
pub open spec fn pack_read(entries: Seq<Entry>, k: int) -> int {
    be_u32_value(offsets_bytes(entries).subrange(k * 8, k * 8 + 4))
}

/// The eight bytes at the given place of the chunk of large offsets, read as a number.
pub open spec fn large_read(entries: Seq<Entry>, place: int) -> int {
    be_u64_value(large_offsets_bytes(entries).subrange(place * 8, place * 8 + 8))
}

/// Every offset can be read back from the two chunks. An offset below 2^31
/// stands in the offset chunk as it is, with the high bit clear. An offset of
/// 2^31 or more is marked there by the high bit, and the other 31 bits give
/// the place in the chunk of large offsets where it stands in full. The pack
/// ordinal stands before it in either case.
pub proof fn lemma_offset_round_trip(entries: Seq<Entry>, k: int)
    requires
        0 <= k < entries.len(),
        large_count(entries) <= HIGH_BIT,
    ensures
        pack_read(entries, k) == entries[k].pack_index,
        entries[k].pack_offset < 0x8000_0000 ==> offset_read(entries, k) == entries[k].pack_offset,
        entries[k].pack_offset >= 0x8000_0000 ==> {
            &&& offset_read(entries, k) >= 0x8000_0000
            &&& 0 <= offset_read(entries, k) - 0x8000_0000 < large_count(entries)
            &&& large_read(entries, offset_read(entries, k) - 0x8000_0000)
                == entries[k].pack_offset
        },
{
    lemma_offsets_slot(entries, k);
    lemma_large_count(entries, k);
    lemma_be_u32_round_trip(entries[k].pack_index);
    lemma_be_u32_round_trip(offset_field(entries, k) as u32);
    if is_large(entries[k].pack_offset) {
        lemma_large_offsets_slot(entries, k);
        lemma_be_u64_round_trip(entries[k].pack_offset);
    }
}

/// The number of entries whose offset goes to this chunk.
pub fn num_large_offsets(entries: &Vec<Entry>) -> (r: usize)
    ensures
        r == large_count(entries@),
{
    let mut count: usize = 0;
    let mut i: usize = 0;
    assert(entries@.take(0) =~= Seq::empty());
    while i < entries.len()
        invariant
            i <= entries.len(),
            count == large_count(entries@.take(i as int)),
            count <= i,
        decreases entries.len() - i,
    {
        proof {
            let t = entries@.take(i + 1);
            assert(t.drop_last() =~= entries@.take(i as int));
            assert(t.last() == entries@[i as int]);
        }
        if entries[i].pack_offset > LARGE_OFFSET_THRESHOLD {
            count += 1;
        }
        i += 1;
    }
    assert(entries@.take(entries.len() as int) =~= entries@);
    count
}

/// The number of bytes that the chunk takes for the given number of large offsets.
pub fn storage_size(large_offsets: usize) -> (r: u64)
    requires
        large_offsets * 8 <= u64::MAX,
    ensures
        r == large_offsets * 8,
{
    8 * large_offsets as u64
}

/// Appends the chunk for the given entries to `out`. `num_large_offsets` is
/// the number of offsets that the chunk was planned for.
pub fn write(entries: &Vec<Entry>, num_large_offsets: usize, out: &mut Vec<u8>)
    requires
        num_large_offsets == large_count(entries@),
    ensures
        final(out)@ == old(out)@ + large_offsets_bytes(entries@),
{
    let ghost before = out@;
    let mut left: usize = num_large_offsets;
    let mut i: usize = 0;
    assert(entries@.take(0) =~= Seq::empty());
    assert(out@ =~= before + large_offsets_bytes(entries@.take(0)));
    while i < entries.len() && left > 0
        invariant
            i <= entries.len(),
            left + large_count(entries@.take(i as int)) == large_count(entries@),
            out@ == before + large_offsets_bytes(entries@.take(i as int)),
        decreases entries.len() - i,
    {
        proof {
            let t = entries@.take(i + 1);
            assert(t.drop_last() =~= entries@.take(i as int));
            assert(t.last() == entries@[i as int]);
            lemma_large_count(entries@, i + 1);
        }
        let offset = entries[i].pack_offset;
        if offset > LARGE_OFFSET_THRESHOLD {
            put_u64(out, offset);
            left -= 1;
        }
        i += 1;
        assert(out@ =~= before + large_offsets_bytes(entries@.take(i as int)));
    }
    proof {
        lemma_rest_without_large(entries@, i as int);
    }
}

/// Where the first `k` entries hold all large offsets, they make up the whole chunk.
proof fn lemma_rest_without_large(entries: Seq<Entry>, k: int)
    requires
        0 <= k <= entries.len(),
        k < entries.len() ==> large_count(entries.take(k)) == large_count(entries),
    ensures
        large_offsets_bytes(entries.take(k)) == large_offsets_bytes(entries),
    decreases entries.len() - k,
{
    if k < entries.len() {
        let t = entries.drop_last();
        assert(t.take(k) =~= entries.take(k));
        lemma_large_count(t, k);
        lemma_rest_without_large(t, k);
    } else {
        assert(entries.take(k) =~= entries);
    }
}

} // verus!
