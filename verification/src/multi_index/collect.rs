//! Collecting the entries of all packs: each index file, as its reader hands
//! it over, gives one entry per object, tagged with the ordinal of its pack.
use crate::hash::ObjectId;
use crate::interrupt::is_triggered;
use crate::multi_index::chunk::offsets::{large_count, LARGE_OFFSET_THRESHOLD};
use crate::multi_index::entry::Entry;
use crate::multi_index::paths::{is_path_order, lemma_path_order_total, path_before};
use crate::multi_index::write::{Error, OpenError};
use crate::permutation::{is_permutation, lemma_permuted_sum, sum_over, sum_to};
use std::sync::atomic::AtomicBool;
use vstd::prelude::*;

verus! {

/// One object of a pack, as the pack's index lists it.
#[derive(Clone, Copy, Debug)]
pub struct IndexEntry {
    /// The name of the object.
    pub oid: ObjectId,
    /// The offset of the object's first byte in the pack.
    pub pack_offset: u64,
}

/// What the reader of a pack index hands over.
#[derive(Debug)]
pub struct PackIndex {
    /// When the index file was last modified, in nanoseconds since the Unix
    /// epoch, where the file system could tell.
    pub mtime: Option<i128>,
    /// The objects of the pack.
    pub objects: Vec<IndexEntry>,
}

/// What opening an index file gave.
pub type Opened = Result<PackIndex, OpenError>;

/// The modification time, or the epoch where none could be had.
pub open spec fn mtime_or_epoch(mtime: Option<i128>) -> i128 {
    match mtime {
        Some(t) => t,
        None => 0,
    }
}

/// The entries of the pack with ordinal `pack_index`.
pub open spec fn entries_of(pack_index: u32, index: PackIndex) -> Seq<Entry> {
    Seq::new(
        index.objects@.len(),
        |k: int|
            Entry {
                id: index.objects@[k].oid,
                pack_index,
                pack_offset: index.objects@[k].pack_offset,
                index_mtime: mtime_or_epoch(index.mtime),
            },
    )
}

/// The entries of the index files in the given order, the index file at
/// place `k` of `order` giving the entries of the pack with ordinal `k`.
pub open spec fn collected(indices: Seq<Opened>, order: Seq<usize>) -> Seq<Entry>
    decreases order.len(),
{
    if order.len() == 0 {
        Seq::empty()
    } else {
        collected(indices, order.drop_last()) + match indices[order.last() as int] {
            Ok(index) => entries_of((order.len() - 1) as u32, index),
            Err(_) => Seq::empty(),
        }
    }
}

/// Whether the index files at the first `n` places of `order` could be opened.
pub open spec fn opened_before(indices: Seq<Opened>, order: Seq<usize>, n: int) -> bool {
    forall|k: int| 0 <= k < n ==> (#[trigger] indices[order[k] as int]) is Ok
}

/// The number of objects of the index file at place `i`.
pub open spec fn objects_in(indices: Seq<Opened>, i: int) -> nat {
    match indices[i] {
        Ok(index) => index.objects@.len(),
        Err(_) => 0,
    }
}

/// The number of large offsets of the index file at place `i`.
pub open spec fn large_in(indices: Seq<Opened>, i: int) -> nat {
    match indices[i] {
        Ok(index) => large_count(entries_of(0, index)),
        Err(_) => 0,
    }
}

/// The number of objects in all index files.
pub open spec fn total_objects(indices: Seq<Opened>) -> nat {
    sum_to(indices.len(), |i: int| objects_in(indices, i))
}

/// The number of large offsets in all index files.
pub open spec fn total_large(indices: Seq<Opened>) -> nat {
    sum_to(indices.len(), |i: int| large_in(indices, i))
}

/// The positions that `order` lists, as mathematical integers.
pub open spec fn positions(order: Seq<usize>) -> Seq<int> {
    Seq::new(order.len(), |k: int| order[k] as int)
}

/// The number of large offsets of two sequences of entries adds up.
pub proof fn lemma_large_count_concat(a: Seq<Entry>, b: Seq<Entry>)
    ensures
        large_count(a + b) == large_count(a) + large_count(b),
    decreases b.len(),
{
    if b.len() == 0 {
        assert(a + b =~= a);
    } else {
        lemma_large_count_concat(a, b.drop_last());
        assert((a + b).drop_last() =~= a + b.drop_last());
        assert((a + b).last() == b.last());
    }
}

/// The ordinal of a pack does not change how many of its offsets are large.
proof fn lemma_large_count_of_pack(pack_index: u32, index: PackIndex, n: int)
    requires
        0 <= n <= index.objects@.len(),
    ensures
        large_count(entries_of(pack_index, index).take(n)) == large_count(
            entries_of(0, index).take(n),
        ),
    decreases n,
{
    if n > 0 {
        lemma_large_count_of_pack(pack_index, index, n - 1);
        assert(entries_of(pack_index, index).take(n).drop_last() =~= entries_of(
            pack_index,
            index,
        ).take(n - 1));
        assert(entries_of(0, index).take(n).drop_last() =~= entries_of(0, index).take(n - 1));
    }
}

proof fn lemma_collected_sums(indices: Seq<Opened>, order: Seq<usize>)
    requires
        forall|k: int| 0 <= k < order.len() ==> 0 <= #[trigger] order[k] < indices.len(),
    ensures
        collected(indices, order).len() == sum_over(
            positions(order),
            |i: int| objects_in(indices, i),
        ),
        large_count(collected(indices, order)) == sum_over(
            positions(order),
            |i: int| large_in(indices, i),
        ),
    decreases order.len(),
{
    if order.len() > 0 {
        let rest = order.drop_last();
        lemma_collected_sums(indices, rest);
        assert(positions(order).drop_last() =~= positions(rest));
        assert(positions(order).last() == order.last() as int);
        let last = match indices[order.last() as int] {
            Ok(index) => entries_of((order.len() - 1) as u32, index),
            Err(_) => Seq::empty(),
        };
        lemma_large_count_concat(collected(indices, rest), last);
        match indices[order.last() as int] {
            Ok(index) => {
                let n = index.objects@.len() as int;
                lemma_large_count_of_pack((order.len() - 1) as u32, index, n);
                assert(entries_of((order.len() - 1) as u32, index).take(n) =~= entries_of(
                    (order.len() - 1) as u32,
                    index,
                ));
                assert(entries_of(0, index).take(n) =~= entries_of(0, index));
            },
            Err(_) => {},
        }
    }
}

/// The order of the paths lists every position once.
pub proof fn lemma_order_positions(order: Seq<usize>, paths: Seq<Seq<u8>>)
    requires
        is_path_order(order, paths),
    ensures
        is_permutation(positions(order)),
{
    let p = positions(order);
    assert forall|i: int, j: int| 0 <= i < p.len() && 0 <= j < p.len() && i != j implies p[i]
        != p[j] by {
        lemma_path_order_total(paths, p[i], p[j]);
        if i < j {
            assert(path_before(paths, order[i] as int, order[j] as int));
        } else {
            assert(path_before(paths, order[j] as int, order[i] as int));
        }
    }
    assert forall|k: int| 0 <= k < p.len() implies 0 <= #[trigger] p[k] < p.len() by {
        assert(0 <= order[k] < paths.len());
    }
}

/// In whatever order the index files are read, they give as many entries and
/// as many large offsets as they hold together.
pub proof fn lemma_collected_totals(
    indices: Seq<Opened>,
    order: Seq<usize>,
    paths: Seq<Seq<u8>>,
)
    requires
        is_path_order(order, paths),
        paths.len() == indices.len(),
    ensures
        collected(indices, order).len() == total_objects(indices),
        large_count(collected(indices, order)) == total_large(indices),
{
    let p = positions(order);
    lemma_order_positions(order, paths);
    lemma_collected_sums(indices, order);
    lemma_permuted_sum(p, |i: int| objects_in(indices, i));
    lemma_permuted_sum(p, |i: int| large_in(indices, i));
}

/// Takes in one index file: where the caller was not interrupted and the
/// file could be opened, its entries are appended with the given ordinal.
/// An interruption goes before a failure to open.
pub fn collect_index(
    entries: &mut Vec<Entry>,
    pack_index: u32,
    opened: &Opened,
    should_interrupt: bool,
) -> (r: Result<(), Error>)
    ensures
        should_interrupt ==> r matches Err(Error::Interrupted),
        !should_interrupt && opened is Err ==> (r matches Err(Error::OpenIndex(e)) && e.message
            == opened->Err_0.message),
        !should_interrupt && opened is Ok ==> r is Ok,
        r is Err ==> final(entries)@ == old(entries)@,
        r is Ok ==> final(entries)@ == old(entries)@ + entries_of(pack_index, opened->Ok_0),
{
    if should_interrupt {
        return Err(Error::Interrupted);
    }
    match opened {
        Err(e) => Err(Error::OpenIndex(OpenError { message: e.message.clone() })),
        Ok(index) => {
            let ghost before = entries@;
            let ghost all = entries_of(pack_index, *index);
            let index_mtime = match index.mtime {
                Some(t) => t,
                None => 0,
            };
            entries.reserve(index.objects.len());
            let mut k: usize = 0;
            assert(entries@ =~= before + all.take(0));
            while k < index.objects.len()
                invariant
                    k <= index.objects.len(),
                    all == entries_of(pack_index, *index),
                    index_mtime == mtime_or_epoch(index.mtime),
                    entries@ == before + all.take(k as int),
                decreases index.objects.len() - k,
            {
                let e = index.objects[k];
                entries.push(
                    Entry { id: e.oid, pack_index, pack_offset: e.pack_offset, index_mtime },
                );
                k += 1;
                assert(entries@ =~= before + all.take(k as int));
            }
            assert(all.take(index.objects.len() as int) =~= all);
            Ok(())
        },
    }
}

/// None of the first `n` readings of the flag found it set.
pub open spec fn none_set(polls: Seq<bool>, n: int) -> bool {
    forall|j: int| 0 <= j < n ==> !#[trigger] polls[j]
}

/// The index file at place `k` of `order` is the first in that order that
/// could not be opened, and `message` is what its reader said.
pub open spec fn fails_first(indices: Seq<Opened>, order: Seq<usize>, k: int, message: String) -> bool {
    &&& 0 <= k < order.len()
    &&& opened_before(indices, order, k)
    &&& indices[order[k] as int] is Err
    &&& indices[order[k] as int]->Err_0.message == message
}

/// What taking in the index files gives, where `polls` holds what each
/// reading of the flag gave, in turn. The flag is read before each index
/// file until one reading finds it set or one index file is found unopened.
/// If a reading finds the flag set, the result is `Interrupted`. If an index
/// file is found unopened, the result is `OpenIndex` with its message.
/// Otherwise the result is the entries of all index files.
pub open spec fn collects(
    r: Result<Vec<Entry>, Error>,
    indices: Seq<Opened>,
    order: Seq<usize>,
    polls: Seq<bool>,
) -> bool {
    &&& polls.len() <= order.len()
    &&& none_set(polls, polls.len() - 1)
    &&& opened_before(indices, order, polls.len() - 1)
    &&& match r {
        Ok(entries) => {
            &&& polls.len() == order.len()
            &&& none_set(polls, polls.len() as int)
            &&& opened_before(indices, order, order.len() as int)
            &&& entries@ == collected(indices, order)
        },
        Err(Error::Interrupted) => polls.len() > 0 && polls.last(),
        Err(Error::OpenIndex(e)) => {
            &&& polls.len() > 0
            &&& !polls.last()
            &&& fails_first(indices, order, polls.len() - 1, e.message)
        },
        Err(Error::Io(_)) => false,
    }
}

/// Takes in all index files in the given order, reading the flag before
/// each, and tells what the readings gave.
pub(crate) fn collect_polling(
    indices: &Vec<Opened>,
    order: &Vec<usize>,
    should_interrupt: &AtomicBool,
) -> (r: (Result<Vec<Entry>, Error>, Ghost<Seq<bool>>))
    requires
        order.len() <= u32::MAX,
        forall|k: int| 0 <= k < order.len() ==> 0 <= #[trigger] order@[k] < indices.len(),
    ensures
        collects(r.0, indices@, order@, r.1@),
{
    let mut entries: Vec<Entry> = Vec::new();
    let ghost mut polls: Seq<bool> = Seq::empty();
    let mut k: usize = 0;
    assert(order@.take(0) =~= Seq::empty());
    while k < order.len()
        invariant
            k <= order.len() <= u32::MAX,
            forall|j: int| 0 <= j < order.len() ==> 0 <= #[trigger] order@[j] < indices.len(),
            opened_before(indices@, order@, k as int),
            polls.len() == k,
            none_set(polls, k as int),
            entries@ == collected(indices@, order@.take(k as int)),
        decreases order.len() - k,
    {
        let flag = is_triggered(should_interrupt);
        let i = order[k];
        proof {
            let t = order@.take(k + 1);
            assert(t.drop_last() =~= order@.take(k as int));
            assert(t.last() == order@[k as int]);
            polls = polls.push(flag);
        }
        match collect_index(&mut entries, k as u32, &indices[i], flag) {
            Ok(()) => {},
            Err(e) => {
                return (Err(e), Ghost(polls));
            },
        }
        k += 1;
    }
    assert(order@.take(order.len() as int) =~= order@);
    (Ok(entries), Ghost(polls))
}

/// Takes in all index files in the given order, reading the flag before
/// each. What comes back follows from what the readings gave.
pub fn collect_entries(indices: &Vec<Opened>, order: &Vec<usize>, should_interrupt: &AtomicBool) -> (r:
    Result<Vec<Entry>, Error>)
    requires
        order.len() <= u32::MAX,
        forall|k: int| 0 <= k < order.len() ==> 0 <= #[trigger] order@[k] < indices.len(),
    ensures
        exists|polls: Seq<bool>| #[trigger] collects(r, indices@, order@, polls),
{
    let (r, polls) = collect_polling(indices, order, should_interrupt);
    assert(collects(r, indices@, order@, polls@));
    r
}

/// The number of objects with a large offset in one index file.
pub fn count_large(index: &PackIndex) -> (r: usize)
    ensures
        r == large_count(entries_of(0, *index)),
{
    let ghost all = entries_of(0, *index);
    let mut count: usize = 0;
    let mut k: usize = 0;
    assert(all.take(0) =~= Seq::empty());
    while k < index.objects.len()
        invariant
            k <= index.objects.len(),
            all == entries_of(0, *index),
            count <= k,
            count == large_count(all.take(k as int)),
        decreases index.objects.len() - k,
    {
        proof {
            assert(all.take(k + 1).drop_last() =~= all.take(k as int));
        }
        if index.objects[k].pack_offset > LARGE_OFFSET_THRESHOLD {
            count += 1;
        }
        k += 1;
    }
    assert(all.take(index.objects.len() as int) =~= all);
    count
}

} // verus!
