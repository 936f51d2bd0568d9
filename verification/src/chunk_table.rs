//! The chunk file format: a table of contents that names each chunk and gives
//! the offset of its first byte, followed by the chunks themselves.
//!
//! The table is laid out and the chunk sizes are policed by the `git_chunk`
//! crate; this module states what the crate's writer does.
use crate::bytes::be_u64;
use git_chunk::file::write::Chunk;
use git_chunk::file::Index;
use vstd::prelude::*;

verus! {

/// The four bytes that name a chunk.
pub type Id = [u8; 4];

/// The bytes that one entry of a table of contents takes: an identifier and an offset.
pub const ENTRY_SIZE: usize = 12;

/// A table of contents under construction or read from a file.
#[verifier::external_type_specification]
#[verifier::external_body]
pub struct ExIndex(git_chunk::file::Index);

/// A sink that knows which chunks are still to be written into it.
#[verifier::external_type_specification]
#[verifier::external_body]
#[verifier::reject_recursive_types(W)]
pub struct ExChunk<W>(git_chunk::file::write::Chunk<W>);

/// The error of an input or output operation.
#[verifier::external_type_specification]
#[verifier::external_body]
pub struct ExIoError(std::io::Error);

/// The chunks planned so far, each with its identifier and its size in bytes,
/// in the order of planning.
pub uninterp spec fn planned(index: Index) -> Seq<(Seq<u8>, u64)>;

/// Whether the table was made for writing, rather than decoded from a file.
pub uninterp spec fn for_writing(index: Index) -> bool;

/// All bytes that the sink below the chunk writer has received.
pub uninterp spec fn sink(writer: Chunk<Vec<u8>>) -> Seq<u8>;

/// The chunks that the writer has not announced yet, in the order in which it will.
pub uninterp spec fn pending(writer: Chunk<Vec<u8>>) -> Seq<(Seq<u8>, u64)>;

/// The chunk that the writer announced last, if it announced one and has more to say.
pub uninterp spec fn current(writer: Chunk<Vec<u8>>) -> Option<(Seq<u8>, u64)>;

/// The number of bytes written since the last announcement.
pub uninterp spec fn counted(writer: Chunk<Vec<u8>>) -> nat;

/// The sum of the sizes of the given chunks.
pub open spec fn total_size(plan: Seq<(Seq<u8>, u64)>) -> nat
    decreases plan.len(),
{
    if plan.len() == 0 {
        0
    } else {
        plan[0].1 as nat + total_size(plan.skip(1))
    }
}

/// Whether the plan holds a chunk of the given identifier.
pub open spec fn plans(plan: Seq<(Seq<u8>, u64)>, id: Seq<u8>) -> bool {
    exists|i: int| 0 <= i < plan.len() && (#[trigger] plan[i]).0 == id
}

/// The entries of a table of contents for `plan` whose first chunk starts at
/// `offset`: per chunk its identifier and the offset of its first byte, and at
/// the end four zero bytes with the offset of the first byte after the last chunk.
pub open spec fn entries_from(plan: Seq<(Seq<u8>, u64)>, offset: nat) -> Seq<u8>
    decreases plan.len(),
{
    if plan.len() == 0 {
        seq![0u8, 0u8, 0u8, 0u8] + be_u64(offset as u64)
    } else {
        plan[0].0 + be_u64(offset as u64) + entries_from(plan.skip(1), offset + plan[0].1 as nat)
    }
}

/// The bytes that a table of contents takes for `n` chunks.
pub open spec fn table_size(n: nat) -> nat {
    (ENTRY_SIZE * (n + 1)) as nat
}

/// The table of contents for `plan`, written at position `at` of a file: the
/// first chunk follows the table directly.
pub open spec fn table_of_contents(plan: Seq<(Seq<u8>, u64)>, at: nat) -> Seq<u8> {
    entries_from(plan, at + table_size(plan.len()))
}

/// Every identifier of the plan has four bytes.
pub open spec fn well_named(plan: Seq<(Seq<u8>, u64)>) -> bool {
    forall|d: int| 0 <= d < plan.len() ==> (#[trigger] plan[d]).0.len() == 4
}

/// The offset in the file of the first byte of chunk `d`, where the table of
/// contents starts at position `at`.
pub open spec fn chunk_offset(plan: Seq<(Seq<u8>, u64)>, at: nat, d: int) -> nat {
    at + table_size(plan.len()) + total_size(plan.take(d))
}

/// The entries of a table of contents take twelve bytes each.
pub proof fn lemma_entries_len(plan: Seq<(Seq<u8>, u64)>, offset: nat)
    requires
        well_named(plan),
    ensures
        entries_from(plan, offset).len() == table_size(plan.len()),
    decreases plan.len(),
{
    if plan.len() > 0 {
        let rest = plan.skip(1);
        assert forall|d: int| 0 <= d < rest.len() implies (#[trigger] rest[d]).0.len() == 4 by {
            assert(rest[d] == plan[d + 1]);
        }
        lemma_entries_len(rest, offset + plan[0].1 as nat);
    }
}

proof fn lemma_entries_slot(plan: Seq<(Seq<u8>, u64)>, offset: nat, d: int)
    requires
        well_named(plan),
        0 <= d <= plan.len(),
    ensures
        entries_from(plan, offset).len() == table_size(plan.len()),
        d < plan.len() ==> entries_from(plan, offset).subrange(12 * d, 12 * d + 4) == plan[d].0,
        d == plan.len() ==> entries_from(plan, offset).subrange(12 * d, 12 * d + 4) == seq![
            0u8,
            0u8,
            0u8,
            0u8,
        ],
        entries_from(plan, offset).subrange(12 * d + 4, 12 * d + 12) == be_u64(
            (offset + total_size(plan.take(d))) as u64,
        ),
    decreases plan.len(),
{
    lemma_entries_len(plan, offset);
    let all = entries_from(plan, offset);
    if plan.len() == 0 {
        assert(plan.take(0) =~= plan);
        assert(all.subrange(0, 4) =~= seq![0u8, 0u8, 0u8, 0u8]);
        assert(all.subrange(4, 12) =~= be_u64(offset as u64));
    } else if d == 0 {
        assert(plan.take(0).len() == 0);
        assert(all.subrange(0, 4) =~= plan[0].0);
        assert(all.subrange(4, 12) =~= be_u64(offset as u64));
    } else {
        let rest = plan.skip(1);
        let next = offset + plan[0].1 as nat;
        assert forall|k: int| 0 <= k < rest.len() implies (#[trigger] rest[k]).0.len() == 4 by {
            assert(rest[k] == plan[k + 1]);
        }
        lemma_entries_slot(rest, next, d - 1);
        let tail = entries_from(rest, next);
        assert(all =~= plan[0].0 + be_u64(offset as u64) + tail);
        assert(all.subrange(12 * d, 12 * d + 4) =~= tail.subrange(12 * (d - 1), 12 * (d - 1) + 4));
        assert(all.subrange(12 * d + 4, 12 * d + 12) =~= tail.subrange(
            12 * (d - 1) + 4,
            12 * (d - 1) + 12,
        ));
        assert(plan.take(d).skip(1) =~= rest.take(d - 1));
        assert(plan.take(d)[0] == plan[0]);
        if d < plan.len() {
            assert(rest[d - 1] == plan[d]);
        }
    }
}

/// Entry `d` of a table of contents names chunk `d` and gives the offset in
/// the file of its first byte; behind the last entry stand four zero bytes
/// and the offset of the first byte behind the last chunk.
pub proof fn lemma_table_entry(plan: Seq<(Seq<u8>, u64)>, at: nat, d: int)
    requires
        well_named(plan),
        0 <= d <= plan.len(),
    ensures
        table_of_contents(plan, at).len() == table_size(plan.len()),
        d < plan.len() ==> table_of_contents(plan, at).subrange(12 * d, 12 * d + 4) == plan[d].0,
        d == plan.len() ==> table_of_contents(plan, at).subrange(12 * d, 12 * d + 4) == seq![
            0u8,
            0u8,
            0u8,
            0u8,
        ],
        table_of_contents(plan, at).subrange(12 * d + 4, 12 * d + 12) == be_u64(
            chunk_offset(plan, at, d) as u64,
        ),
{
    lemma_entries_slot(plan, at + table_size(plan.len()), d);
}

/// `git_chunk::file::Index::for_writing`: an empty table, made for writing.
#[verifier::external_body]
pub(crate) fn new_index() -> (r: Index)
    ensures
        planned(r) == Seq::<(Seq<u8>, u64)>::empty(),
        for_writing(r),
{
    Index::for_writing()
}

/// `git_chunk::file::Index::plan_chunk`: appends a chunk to the plan. The
/// crate panics on a table not made for writing and on an identifier planned before.
#[verifier::external_body]
pub(crate) fn plan_chunk(index: &mut Index, id: Id, size: u64)
    requires
        for_writing(*old(index)),
        !plans(planned(*old(index)), id@),
    ensures
        planned(*final(index)) == planned(*old(index)).push((id@, size)),
        for_writing(*final(index)),
{
    index.plan_chunk(id, size)
}

/// `git_chunk::file::Index::num_chunks`: the number of chunks in the plan.
#[verifier::external_body]
pub(crate) fn num_chunks(index: &Index) -> (r: usize)
    ensures
        r == planned(*index).len(),
{
    index.num_chunks()
}

/// `git_chunk::file::Index::into_write` with a vector as sink: writes the
/// table of contents for the plan behind what `out` holds, where `at` is the
/// position in the file at which the table starts, and hands back a writer
/// that has announced nothing yet. The crate fails only where the sink
/// refuses a write, and a vector takes every write by growing. The crate
/// computes the offsets without checking for overflow, and panics on a table
/// not made for writing.
#[verifier::external_body]
pub(crate) fn into_write(index: Index, out: Vec<u8>, at: usize) -> (r: Result<
    Chunk<Vec<u8>>,
    std::io::Error,
>)
    requires
        for_writing(index),
        at + table_size(planned(index).len()) <= usize::MAX,
        at + table_size(planned(index).len()) + total_size(planned(index)) <= u64::MAX,
    ensures
        r is Ok,
        r matches Ok(w) ==> {
            &&& sink(w) == out@ + table_of_contents(planned(index), at as nat)
            &&& pending(w) == planned(index)
            &&& current(w) is None
            &&& counted(w) == 0
        },
{
    index.into_write(out, at)
}

/// `git_chunk::file::write::Chunk::next_chunk`: announces the next chunk of
/// the plan, or the end. The crate panics if the bytes written since the last
/// announcement are not exactly as many as that chunk was planned with.
#[verifier::external_body]
pub(crate) fn next_chunk(writer: &mut Chunk<Vec<u8>>) -> (r: Option<Id>)
    requires
        current(*old(writer)) matches Some(c) ==> counted(*old(writer)) == c.1,
    ensures
        sink(*final(writer)) == sink(*old(writer)),
        counted(*final(writer)) == 0,
        pending(*old(writer)).len() == 0 ==> {
            &&& r is None
            &&& current(*final(writer)) is None
            &&& pending(*final(writer)) == pending(*old(writer))
        },
        pending(*old(writer)).len() > 0 ==> {
            &&& r matches Some(id)
            &&& id@ == pending(*old(writer))[0].0
            &&& current(*final(writer)) == Some(pending(*old(writer))[0])
            &&& pending(*final(writer)) == pending(*old(writer)).skip(1)
        },
{
    writer.next_chunk()
}

/// `std::io::Write::write_all` on the chunk writer over a vector: all of
/// `buf` goes to the sink and is counted. The writer hands every write on to
/// the vector, which takes it by growing, so the call succeeds. The crate
/// counts without checking for overflow.
#[verifier::external_body]
pub(crate) fn write_all(writer: &mut Chunk<Vec<u8>>, buf: &[u8]) -> (r: Result<(), std::io::Error>)
    requires
        counted(*old(writer)) + buf@.len() <= usize::MAX,
    ensures
        r is Ok,
        sink(*final(writer)) == sink(*old(writer)) + buf@,
        counted(*final(writer)) == counted(*old(writer)) + buf@.len(),
        pending(*final(writer)) == pending(*old(writer)),
        current(*final(writer)) == current(*old(writer)),
{
    std::io::Write::write_all(writer, buf)
}

/// `git_chunk::file::write::Chunk::into_inner`: the sink with all that was written to it.
#[verifier::external_body]
pub(crate) fn into_inner(writer: Chunk<Vec<u8>>) -> (r: Vec<u8>)
    ensures
        r@ == sink(writer),
{
    writer.into_inner()
}

/// Whether two chunk identifiers are the same.
pub fn same_id(a: &Id, b: &Id) -> (r: bool)
    ensures
        r == (a@ == b@),
{
    let r = a[0] == b[0] && a[1] == b[1] && a[2] == b[2] && a[3] == b[3];
    proof {
        if r {
            assert(a@ =~= b@);
        }
    }
    r
}

} // verus!
