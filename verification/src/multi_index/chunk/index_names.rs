//! The chunk of pack names: the file name of each index file, in the order of
//! the pack ordinals, each followed by a zero byte.
use crate::bytes::{byte_views, put_bytes};
use crate::chunk_table::Id;
use vstd::prelude::*;

verus! {

/// The identifier of the chunk, `PNAM`.
pub const ID: Id = [0x50, 0x4e, 0x41, 0x4d];

/// The bytes of the chunk for the given names.
pub open spec fn names_bytes(names: Seq<Seq<u8>>) -> Seq<u8>
    decreases names.len(),
{
    if names.len() == 0 {
        Seq::empty()
    } else {
        names_bytes(names.drop_last()) + names.last() + seq![0u8]
    }
}

/// The size of the chunk for the given names: for each its length and one more byte.
pub open spec fn names_size(names: Seq<Seq<u8>>) -> nat
    decreases names.len(),
{
    if names.len() == 0 {
        0
    } else {
        names_size(names.drop_last()) + names.last().len() + 1
    }
}

/// The chunk has the size that is planned for it.
pub proof fn lemma_names_len(names: Seq<Seq<u8>>)
    ensures
        names_bytes(names).len() == names_size(names),
    decreases names.len(),
{
    if names.len() > 0 {
        lemma_names_len(names.drop_last());
    }
}

/// The size of a chunk grows with the number of names.
pub proof fn lemma_names_size_monotonic(names: Seq<Seq<u8>>, k: int)
    requires
        0 <= k <= names.len(),
    ensures
        names_size(names.take(k)) <= names_size(names),
    decreases names.len() - k,
{
    if k < names.len() {
        assert(names.drop_last().take(k) =~= names.take(k));
        lemma_names_size_monotonic(names.drop_last(), k);
    } else {
        assert(names.take(k) =~= names);
    }
}

/// Names of at most `bound` bytes each take at most `bound + 1` bytes each in the chunk.
pub proof fn lemma_names_size_bound(names: Seq<Seq<u8>>, bound: nat)
    requires
        forall|i: int| 0 <= i < names.len() ==> (#[trigger] names[i]).len() <= bound,
    ensures
        names_size(names) <= names.len() * (bound + 1),
    decreases names.len(),
{
    if names.len() > 0 {
        let t = names.drop_last();
        assert forall|i: int| 0 <= i < t.len() implies (#[trigger] t[i]).len() <= bound by {
            assert(t[i] == names[i]);
        }
        lemma_names_size_bound(t, bound);
        assert(names.last() == names[names.len() - 1]);
        assert(names.len() * (bound + 1) == t.len() * (bound + 1) + (bound + 1)) by (nonlinear_arith)
            requires
                names.len() == t.len() + 1,
        ;
    }
}

/// The number of bytes that the chunk takes for the given names.
pub fn storage_size(names: &Vec<Vec<u8>>) -> (r: u64)
    requires
        names_size(byte_views(names@)) <= u64::MAX,
    ensures
        r == names_size(byte_views(names@)),
{
    let ghost all = byte_views(names@);
    let mut count: u64 = 0;
    let mut i: usize = 0;
    assert(all.take(0) =~= Seq::empty());
    while i < names.len()
        invariant
            i <= names.len(),
            all == byte_views(names@),
            names_size(all) <= u64::MAX,
            count == names_size(all.take(i as int)),
        decreases names.len() - i,
    {
        proof {
            assert(all.take(i + 1).drop_last() =~= all.take(i as int));
            assert(all.take(i + 1).last() == names@[i as int]@);
            lemma_names_size_monotonic(all, i + 1);
        }
        count = count + names[i].len() as u64 + 1;
        i += 1;
    }
    assert(all.take(names.len() as int) =~= all);
    count
}

/// Appends the chunk for the given names to `out`.
pub fn write(names: &Vec<Vec<u8>>, out: &mut Vec<u8>)
    ensures
        final(out)@ == old(out)@ + names_bytes(byte_views(names@)),
{
    let ghost all = byte_views(names@);
    let ghost before = out@;
    let mut i: usize = 0;
    assert(all.take(0) =~= Seq::empty());
    assert(out@ =~= before + names_bytes(all.take(0)));
    while i < names.len()
        invariant
            i <= names.len(),
            all == byte_views(names@),
            out@ == before + names_bytes(all.take(i as int)),
        decreases names.len() - i,
    {
        proof {
            assert(all.take(i + 1).drop_last() =~= all.take(i as int));
            assert(all.take(i + 1).last() == names@[i as int]@);
        }
        put_bytes(out, names[i].as_slice());
        out.push(0);
        i += 1;
        assert(out@ =~= before + names_bytes(all.take(i as int)));
    }
    assert(all.take(names.len() as int) =~= all);
}

} // verus!
