//! Writing a multi-pack index: the header, the table of contents, the chunks
//! and the checksum of all that.
use crate::bytes::{be_u32, byte_views, put_bytes, put_u32};
use crate::chunk_table::{
    counted, current, for_writing, into_inner, into_write, lemma_table_entry, new_index,
    next_chunk, num_chunks, pending, plan_chunk, planned, same_id, sink, table_of_contents,
    table_size, total_size, well_named, write_all,
};
use crate::hash::{kind_code, kind_len, sha1_of, Kind, ObjectId};
use crate::multi_index::chunk::fanout::{fanout_bytes, lemma_fanout_len};
use crate::multi_index::chunk::index_names::{
    lemma_names_len, lemma_names_size_monotonic, names_bytes, names_size,
};
use crate::multi_index::chunk::large_offsets::{large_offsets_bytes, lemma_large_offsets_len};
use crate::multi_index::chunk::lookup::{lemma_lookup_len, lookup_bytes};
use crate::multi_index::chunk::offsets::{
    large_count, lemma_large_count, lemma_offsets_len, offsets_bytes, HIGH_BIT,
};
use crate::multi_index::chunk::{fanout, index_names, large_offsets, lookup, offsets};
use crate::multi_index::chunk::index_names::lemma_names_size_bound;
use crate::multi_index::collect::{
    collect_polling, collected, count_large, fails_first, large_in, lemma_collected_totals,
    lemma_order_positions, none_set, objects_in, opened_before, positions, total_large,
    total_objects, Opened,
};
use crate::multi_index::entry::Entry;
use crate::multi_index::merge::{lemma_merge_unique, merge_entries, merged_from};
use crate::multi_index::paths::{
    all_have_file_names, check_file_names, file_name, file_names, is_path_order,
    lemma_file_name, lemma_order_ascends, lemma_path_order_unique, path_lt, sort_paths,
    sorted_file_names,
};
use crate::permutation::{lemma_positions_cover, lemma_sum_to_monotonic, sum_to};
use std::sync::atomic::AtomicBool;
use git_chunk::file::Index;
use vstd::pervasive::unreached;
use vstd::prelude::*;

verus! {

/// Why a multi-pack index could not be written.
#[derive(Debug)]
pub enum Error {
    /// The sink refused the bytes.
    Io(std::io::Error),
    /// The interrupt flag was found set between two index files.
    Interrupted,
    /// One of the index files could not be opened.
    OpenIndex(OpenError),
}

impl From<std::io::Error> for Error {
    fn from(err: std::io::Error) -> (r: Error) {
        Error::Io(err)
    }
}

impl vstd::std_specs::convert::FromSpecImpl<std::io::Error> for Error {
    open spec fn obeys_from_spec() -> bool {
        true
    }

    open spec fn from_spec(err: std::io::Error) -> Error {
        Error::Io(err)
    }
}

impl From<OpenError> for Error {
    fn from(err: OpenError) -> (r: Error) {
        Error::OpenIndex(err)
    }
}

impl vstd::std_specs::convert::FromSpecImpl<OpenError> for Error {
    open spec fn obeys_from_spec() -> bool {
        true
    }

    open spec fn from_spec(err: OpenError) -> Error {
        Error::OpenIndex(err)
    }
}

/// Why an index file could not be opened, in the words of its reader.
#[derive(Debug)]
pub struct OpenError {
    /// The reader's message.
    pub message: String,
}

/// How to write the multi-pack index.
#[derive(Clone, Copy, Debug)]
pub struct Options {
    /// The kind of hash by which the objects of the packs are named.
    pub object_hash: Kind,
}

/// What writing a multi-pack index gave.
pub struct Outcome<P> {
    /// The checksum at the end of the file: the digest of all bytes before it.
    pub multi_index_checksum: ObjectId,
    /// The progress value that was handed in.
    pub progress: P,
}

/// The versions of the file format.
#[derive(Clone, Copy, Debug, PartialEq, Eq, Structural)]
pub enum Version {
    /// The first and only version.
    V1,
}

/// The byte that stands for the given version in the header.
pub open spec fn version_code(version: Version) -> u8 {
    match version {
        Version::V1 => 1,
    }
}

impl Version {
    /// The byte that stands for this version in the header.
    pub fn code(&self) -> (r: u8)
        ensures
            r == version_code(*self),
    {
        match self {
            Version::V1 => 1,
        }
    }
}

/// The first four bytes of every multi-pack index, `MIDX`.
pub const SIGNATURE: [u8; 4] = [0x4d, 0x49, 0x44, 0x58];

/// The size of the header in bytes: the signature, one byte each for the
/// version, the kind of hash, the number of chunks and the number of base
/// files, and four bytes for the number of packs.
pub const HEADER_LEN: usize = 12;

/// The most bytes that the chunk of pack names may take.
pub const MAX_NAMES_SIZE: u64 = 0xffff_ffff_ffff;

/// The header of a multi-pack index with the given number of chunks and packs.
pub open spec fn header_bytes(num_chunks: u8, num_indices: u32, object_hash: Kind) -> Seq<u8> {
    SIGNATURE@ + seq![version_code(Version::V1), kind_code(object_hash), num_chunks, 0u8] + be_u32(
        num_indices,
    )
}

/// The chunks of a multi-pack index with their sizes, in the order in which
/// they are written: names, fanout, lookup, offsets, and large offsets where
/// there are any.
pub open spec fn plan_of(names: Seq<Seq<u8>>, entries: Seq<Entry>, object_hash: Kind) -> Seq<
    (Seq<u8>, u64),
> {
    let fixed = seq![
        (index_names::ID@, names_size(names) as u64),
        (fanout::ID@, fanout::SIZE as u64),
        (lookup::ID@, (entries.len() * kind_len(object_hash)) as u64),
        (offsets::ID@, (entries.len() * 8) as u64),
    ];
    if large_count(entries) > 0 {
        fixed.push((large_offsets::ID@, (large_count(entries) * 8) as u64))
    } else {
        fixed
    }
}

/// The bytes of the chunk with the given identifier.
pub open spec fn chunk_bytes(id: Seq<u8>, names: Seq<Seq<u8>>, entries: Seq<Entry>) -> Seq<u8> {
    if id == index_names::ID@ {
        names_bytes(names)
    } else if id == fanout::ID@ {
        fanout_bytes(entries)
    } else if id == lookup::ID@ {
        lookup_bytes(entries)
    } else if id == offsets::ID@ {
        offsets_bytes(entries)
    } else {
        large_offsets_bytes(entries)
    }
}

/// The bytes of the first `n` chunks of `plan`.
pub open spec fn chunks_written(
    plan: Seq<(Seq<u8>, u64)>,
    n: nat,
    names: Seq<Seq<u8>>,
    entries: Seq<Entry>,
) -> Seq<u8>
    decreases n,
{
    if n == 0 {
        Seq::empty()
    } else {
        chunks_written(plan, (n - 1) as nat, names, entries) + chunk_bytes(
            plan[n - 1].0,
            names,
            entries,
        )
    }
}

/// All chunks of a multi-pack index, one behind the other.
pub open spec fn all_chunks(names: Seq<Seq<u8>>, entries: Seq<Entry>) -> Seq<u8> {
    names_bytes(names) + fanout_bytes(entries) + lookup_bytes(entries) + offsets_bytes(entries)
        + large_offsets_bytes(entries)
}

/// A multi-pack index without its checksum: header, table of contents, chunks.
pub open spec fn content_bytes(names: Seq<Seq<u8>>, entries: Seq<Entry>, object_hash: Kind) -> Seq<
    u8,
> {
    let plan = plan_of(names, entries, object_hash);
    header_bytes(plan.len() as u8, names.len() as u32, object_hash) + table_of_contents(
        plan,
        HEADER_LEN as nat,
    ) + all_chunks(names, entries)
}

/// A multi-pack index: its content, then the digest of that content.
pub open spec fn file_bytes(names: Seq<Seq<u8>>, entries: Seq<Entry>, object_hash: Kind) -> Seq<u8> {
    content_bytes(names, entries, object_hash) + sha1_of(content_bytes(names, entries, object_hash))
}

/// What can be written as a multi-pack index: the numbers of packs and of
/// objects fit their four bytes, the places of large offsets their 31 bits,
/// and the names their chunk.
pub open spec fn writable(names: Seq<Seq<u8>>, entries: Seq<Entry>) -> bool {
    &&& names.len() <= u32::MAX
    &&& entries.len() <= u32::MAX
    &&& large_count(entries) <= HIGH_BIT
    &&& names_size(names) <= MAX_NAMES_SIZE
}

/// The longest path of an index file that is taken, in bytes.
pub const MAX_PATH_LEN: usize = 0xffff;

/// What can be merged into one multi-pack index: as many index files as
/// paths, no more of them than the four bytes of a pack ordinal can number,
/// each path of a bounded length and ending in a file name, and no more
/// objects and large offsets than the format has room for.
pub open spec fn within_limits(paths: Seq<Seq<u8>>, indices: Seq<Opened>) -> bool {
    &&& paths.len() == indices.len()
    &&& paths.len() <= u32::MAX
    &&& all_have_file_names(paths)
    &&& forall|i: int| 0 <= i < paths.len() ==> (#[trigger] paths[i]).len() <= MAX_PATH_LEN
    &&& total_objects(indices) <= u32::MAX
    &&& total_large(indices) <= HIGH_BIT
}

/// `after` is `before` with a multi-pack index behind it, whose packs are
/// numbered in the order `order` of their paths and whose objects are `entries`;
/// `checksum` is the checksum at its end.
pub open spec fn appends_index(
    before: Seq<u8>,
    after: Seq<u8>,
    checksum: Seq<u8>,
    paths: Seq<Seq<u8>>,
    indices: Seq<Opened>,
    object_hash: Kind,
    order: Seq<usize>,
    entries: Seq<Entry>,
) -> bool {
    &&& is_path_order(order, paths)
    &&& merged_from(entries, collected(indices, order))
    &&& writable(file_names(paths, order), entries)
    &&& after == before + file_bytes(file_names(paths, order), entries, object_hash)
    &&& checksum == sha1_of(content_bytes(file_names(paths, order), entries, object_hash))
}

/// `after` is `before` with the multi-pack index of the given index files behind it.
pub open spec fn index_appended(
    before: Seq<u8>,
    after: Seq<u8>,
    checksum: Seq<u8>,
    paths: Seq<Seq<u8>>,
    indices: Seq<Opened>,
    object_hash: Kind,
) -> bool {
    exists|order: Seq<usize>, entries: Seq<Entry>| #[trigger]
        appends_index(before, after, checksum, paths, indices, object_hash, order, entries)
}

/// In the order of the paths, the first index file that could not be opened
/// failed with `message`.
pub open spec fn open_failed(paths: Seq<Seq<u8>>, indices: Seq<Opened>, message: String) -> bool {
    exists|order: Seq<usize>, k: int|
        is_path_order(order, paths) && #[trigger] fails_first(indices, order, k, message)
}

/// What a run gives, where `order` is the order of the paths and `polls`
/// holds what each reading of the flag gave, in turn. The flag is read before
/// each index file until one reading finds it set or one index file is found
/// unopened. If a reading finds the flag set, the run is interrupted. If an
/// index file is found unopened, the run fails with its message. Otherwise
/// the multi-pack index is written.
pub open spec fn run_of<P>(
    r: Result<Outcome<P>, Error>,
    paths: Seq<Seq<u8>>,
    indices: Seq<Opened>,
    order: Seq<usize>,
    polls: Seq<bool>,
) -> bool {
    &&& is_path_order(order, paths)
    &&& polls.len() <= order.len()
    &&& none_set(polls, polls.len() - 1)
    &&& opened_before(indices, order, polls.len() - 1)
    &&& match r {
        Ok(_) => polls.len() == order.len() && none_set(polls, polls.len() as int),
        Err(Error::Interrupted) => polls.len() > 0 && polls.last(),
        Err(Error::OpenIndex(e)) => {
            &&& polls.len() > 0
            &&& !polls.last()
            &&& fails_first(indices, order, polls.len() - 1, e.message)
        },
        Err(Error::Io(_)) => false,
    }
}

/// Where there is an index file to read and every reading of the flag finds
/// it set, the run is interrupted: it ends at the first reading. Nothing is
/// written then, as for every run that fails.
pub proof fn lemma_set_flag_interrupts<P>(
    r: Result<Outcome<P>, Error>,
    paths: Seq<Seq<u8>>,
    indices: Seq<Opened>,
    order: Seq<usize>,
    polls: Seq<bool>,
)
    requires
        run_of(r, paths, indices, order, polls),
        paths.len() > 0,
        forall|j: int| 0 <= j < polls.len() ==> #[trigger] polls[j],
    ensures
        r matches Err(Error::Interrupted),
        polls.len() == 1,
{
    if polls.len() > 1 {
        assert(!polls[0]);
    }
    if polls.len() > 0 {
        assert(polls[polls.len() - 1]);
    }
}

/// Where no reading of the flag finds it set and every index file could be
/// opened, the multi-pack index is written.
pub proof fn lemma_clear_flag_writes<P>(
    r: Result<Outcome<P>, Error>,
    paths: Seq<Seq<u8>>,
    indices: Seq<Opened>,
    order: Seq<usize>,
    polls: Seq<bool>,
)
    requires
        run_of(r, paths, indices, order, polls),
        paths.len() == indices.len(),
        none_set(polls, polls.len() as int),
        all_opened(indices),
    ensures
        r is Ok,
{
    if polls.len() > 0 {
        assert(!polls[polls.len() - 1]);
        assert(0 <= order[polls.len() - 1] < paths.len());
    }
}

/// Every index file could be opened.
pub open spec fn all_opened(indices: Seq<Opened>) -> bool {
    forall|i: int| 0 <= i < indices.len() ==> (#[trigger] indices[i]) is Ok
}

/// Decides whether the index files at the given paths can be merged into one
/// multi-pack index.
pub fn check_limits(index_paths: &Vec<Vec<u8>>, indices: &Vec<Opened>) -> (r: bool)
    ensures
        r == within_limits(byte_views(index_paths@), indices@),
{
    let ghost paths = byte_views(index_paths@);
    if index_paths.len() != indices.len() || index_paths.len() > 0xffff_ffff {
        return false;
    }
    if !check_file_names(index_paths) {
        return false;
    }
    let mut i: usize = 0;
    while i < index_paths.len()
        invariant
            i <= index_paths.len(),
            paths == byte_views(index_paths@),
            forall|k: int| 0 <= k < i ==> (#[trigger] paths[k]).len() <= MAX_PATH_LEN,
        decreases index_paths.len() - i,
    {
        if index_paths[i].len() > MAX_PATH_LEN {
            assert(paths[i as int].len() > MAX_PATH_LEN);
            return false;
        }
        i += 1;
    }
    let ghost objects = |i: int| objects_in(indices@, i);
    let ghost large = |i: int| large_in(indices@, i);
    let mut num_objects: u64 = 0;
    let mut num_large: u64 = 0;
    let mut i: usize = 0;
    while i < indices.len()
        invariant
            i <= indices.len(),
            objects == |i: int| objects_in(indices@, i),
            large == |i: int| large_in(indices@, i),
            num_objects == sum_to(i as nat, objects) <= u32::MAX,
            num_large == sum_to(i as nat, large) <= HIGH_BIT,
        decreases indices.len() - i,
    {
        proof {
            lemma_sum_to_monotonic((i + 1) as nat, indices.len() as nat, objects);
            lemma_sum_to_monotonic((i + 1) as nat, indices.len() as nat, large);
        }
        match &indices[i] {
            Ok(index) => {
                let n = index.objects.len() as u64;
                let l = count_large(index) as u64;
                if n > 0xffff_ffff - num_objects || l > 0x8000_0000 - num_large {
                    return false;
                }
                num_objects = num_objects + n;
                num_large = num_large + l;
            },
            Err(_) => {},
        }
        i += 1;
    }
    true
}

/// The identifiers of the five chunks are all different.
pub proof fn lemma_ids_differ()
    ensures
        index_names::ID@ != fanout::ID@,
        index_names::ID@ != lookup::ID@,
        index_names::ID@ != offsets::ID@,
        index_names::ID@ != large_offsets::ID@,
        fanout::ID@ != lookup::ID@,
        fanout::ID@ != offsets::ID@,
        fanout::ID@ != large_offsets::ID@,
        lookup::ID@ != offsets::ID@,
        lookup::ID@ != large_offsets::ID@,
        offsets::ID@ != large_offsets::ID@,
{
    assert(index_names::ID@[0] == 0x50);
    assert(fanout::ID@[3] == 0x46 && fanout::ID@[1] == 0x49);
    assert(lookup::ID@[3] == 0x4c && lookup::ID@[1] == 0x49);
    assert(offsets::ID@[0] == 0x4f && offsets::ID@[1] == 0x4f);
    assert(large_offsets::ID@[0] == 0x4c);
}

/// Each chunk of the plan has the size that the plan gives for it, the plan
/// holds no chunk twice, and its chunks one behind the other are all chunks.
pub proof fn lemma_plan(names: Seq<Seq<u8>>, entries: Seq<Entry>, object_hash: Kind)
    requires
        writable(names, entries),
    ensures
        4 <= plan_of(names, entries, object_hash).len() <= 5,
        forall|d: int|
            0 <= d < plan_of(names, entries, object_hash).len() ==> chunk_bytes(
                (#[trigger] plan_of(names, entries, object_hash)[d]).0,
                names,
                entries,
            ).len() == plan_of(names, entries, object_hash)[d].1,
        chunks_written(
            plan_of(names, entries, object_hash),
            plan_of(names, entries, object_hash).len(),
            names,
            entries,
        ) == all_chunks(names, entries),
        total_size(plan_of(names, entries, object_hash)) <= MAX_NAMES_SIZE + 1024 + 36
            * 0x1_0000_0000,
{
    let plan = plan_of(names, entries, object_hash);
    lemma_ids_differ();
    lemma_names_len(names);
    lemma_fanout_len(entries);
    lemma_lookup_len(entries);
    lemma_offsets_len(entries);
    lemma_large_offsets_len(entries);
    lemma_large_count(entries, 0);
    reveal_with_fuel(chunks_written, 6);
    reveal_with_fuel(total_size, 6);
    assert(plan.skip(1).skip(1) =~= plan.skip(2));
    assert(plan.skip(2).skip(1) =~= plan.skip(3));
    assert(plan.skip(3).skip(1) =~= plan.skip(4));
    assert(plan.skip(1)[0] == plan[1]);
    assert(plan.skip(2)[0] == plan[2]);
    assert(plan.skip(3)[0] == plan[3]);
    if large_count(entries) > 0 {
        assert(plan.skip(4).skip(1) =~= plan.skip(5));
        assert(plan.skip(4)[0] == plan[4]);
        assert(chunks_written(plan, 5, names, entries) =~= all_chunks(names, entries));
    } else {
        assert(large_offsets_bytes(entries) =~= Seq::empty());
        assert(chunks_written(plan, 4, names, entries) =~= all_chunks(names, entries));
    }
}

/// Where the chunks begin in a multi-pack index: behind the header and the
/// table of contents.
pub open spec fn chunks_start(names: Seq<Seq<u8>>, entries: Seq<Entry>, object_hash: Kind) -> int {
    HEADER_LEN + table_size(plan_of(names, entries, object_hash).len())
}

/// Where each part of a multi-pack index stands. The header holds the
/// signature, the version, the kind of hash, the number of chunks, a zero
/// byte and the number of packs. The table of contents follows, then the
/// names of the packs in the order of their ordinals, the fanout, the
/// identifiers, the offsets and the large offsets.
pub proof fn lemma_layout(names: Seq<Seq<u8>>, entries: Seq<Entry>, object_hash: Kind)
    requires
        writable(names, entries),
    ensures
        ({
            let content = content_bytes(names, entries, object_hash);
            let plan = plan_of(names, entries, object_hash);
            let start = chunks_start(names, entries, object_hash);
            let fanout_at = start + names_size(names);
            let lookup_at = fanout_at + 1024;
            let offsets_at = lookup_at + entries.len() * 20;
            let large_at = offsets_at + entries.len() * 8;
            &&& content.len() == large_at + large_count(entries) * 8
            &&& content.subrange(0, 4) == SIGNATURE@
            &&& content[4] == version_code(Version::V1)
            &&& content[5] == kind_code(object_hash)
            &&& content[6] == plan.len()
            &&& content[7] == 0
            &&& content.subrange(8, 12) == be_u32(names.len() as u32)
            &&& content.subrange(12, start) == table_of_contents(plan, HEADER_LEN as nat)
            &&& content.subrange(start, fanout_at) == names_bytes(names)
            &&& content.subrange(fanout_at, lookup_at) == fanout_bytes(entries)
            &&& content.subrange(lookup_at, offsets_at) == lookup_bytes(entries)
            &&& content.subrange(offsets_at, large_at) == offsets_bytes(entries)
            &&& content.subrange(large_at, content.len() as int) == large_offsets_bytes(entries)
        }),
{
    let content = content_bytes(names, entries, object_hash);
    let plan = plan_of(names, entries, object_hash);
    let header = header_bytes(plan.len() as u8, names.len() as u32, object_hash);
    let toc = table_of_contents(plan, HEADER_LEN as nat);
    lemma_plan(names, entries, object_hash);
    lemma_names_len(names);
    lemma_fanout_len(entries);
    lemma_lookup_len(entries);
    lemma_offsets_len(entries);
    lemma_large_offsets_len(entries);
    assert(well_named(plan));
    lemma_table_entry(plan, HEADER_LEN as nat, 0);
    assert(header.len() == 12);
    let start = chunks_start(names, entries, object_hash);
    let fanout_at = start + names_size(names);
    let lookup_at = fanout_at + 1024;
    let offsets_at = lookup_at + entries.len() * 20;
    let large_at = offsets_at + entries.len() * 8;
    assert(content.subrange(0, 4) =~= SIGNATURE@);
    assert(content.subrange(8, 12) =~= be_u32(names.len() as u32));
    assert(content.subrange(12, start) =~= toc);
    assert(content.subrange(start, fanout_at) =~= names_bytes(names));
    assert(content.subrange(fanout_at, lookup_at) =~= fanout_bytes(entries));
    assert(content.subrange(lookup_at, offsets_at) =~= lookup_bytes(entries));
    assert(content.subrange(offsets_at, large_at) =~= offsets_bytes(entries));
    assert(content.subrange(large_at, content.len() as int) =~= large_offsets_bytes(entries));
}

/// In a multi-pack index that was written, the header gives the number of
/// paths as the number of packs, and the chunk of names, which stands behind
/// the table of contents, lists the file names of the paths in the ascending
/// order of the paths.
pub proof fn lemma_pack_count_and_names(
    before: Seq<u8>,
    after: Seq<u8>,
    checksum: Seq<u8>,
    paths: Seq<Seq<u8>>,
    indices: Seq<Opened>,
    object_hash: Kind,
    order: Seq<usize>,
    entries: Seq<Entry>,
)
    requires
        appends_index(before, after, checksum, paths, indices, object_hash, order, entries),
    ensures
        ({
            let names = file_names(paths, order);
            let start = before.len() + chunks_start(names, entries, object_hash);
            &&& names.len() == paths.len()
            &&& after.len() >= start + names_size(names)
            &&& after.subrange(before.len() as int + 8, before.len() as int + 12) == be_u32(
                paths.len() as u32,
            )
            &&& after.subrange(start, start + names_size(names)) == names_bytes(names)
            &&& forall|k: int| 0 <= k < names.len() ==> #[trigger] names[k] == file_name(
                paths[order[k] as int],
            )
            &&& forall|k1: int, k2: int|
                0 <= k1 < k2 < order.len() ==> !path_lt(
                    paths[#[trigger] order[k2] as int],
                    paths[#[trigger] order[k1] as int],
                )
        }),
{
    let names = file_names(paths, order);
    let content = content_bytes(names, entries, object_hash);
    let start = chunks_start(names, entries, object_hash);
    lemma_layout(names, entries, object_hash);
    assert(after.subrange(before.len() as int + 8, before.len() as int + 12) =~= content.subrange(
        8,
        12,
    ));
    assert(after.subrange(before.len() + start, before.len() + start + names_size(names))
        =~= content.subrange(start, start + names_size(names)));
    assert forall|k1: int, k2: int| 0 <= k1 < k2 < order.len() implies !path_lt(
        paths[#[trigger] order[k2] as int],
        paths[#[trigger] order[k1] as int],
    ) by {
        lemma_order_ascends(paths, order, k1, k2);
    }
}

/// The same index files at the same paths give the same bytes: what is
/// written depends on nothing else.
pub proof fn lemma_deterministic(
    before: Seq<u8>,
    after1: Seq<u8>,
    checksum1: Seq<u8>,
    after2: Seq<u8>,
    checksum2: Seq<u8>,
    paths: Seq<Seq<u8>>,
    indices: Seq<Opened>,
    object_hash: Kind,
)
    requires
        index_appended(before, after1, checksum1, paths, indices, object_hash),
        index_appended(before, after2, checksum2, paths, indices, object_hash),
    ensures
        after1 == after2,
        checksum1 == checksum2,
{
    let (o1, e1) = choose|order: Seq<usize>, entries: Seq<Entry>| #[trigger]
        appends_index(before, after1, checksum1, paths, indices, object_hash, order, entries);
    let (o2, e2) = choose|order: Seq<usize>, entries: Seq<Entry>| #[trigger]
        appends_index(before, after2, checksum2, paths, indices, object_hash, order, entries);
    lemma_path_order_unique(paths, o1, o2);
    lemma_merge_unique(collected(indices, o1), e1, e2);
}

/// The multi-pack index file. This type gives the writer its name; no value
/// of it is needed for writing.
pub struct File;

impl File {
    /// Appends the header to `out` and returns the number of bytes that it took.
    pub fn write_header(out: &mut Vec<u8>, num_chunks: u8, num_indices: u32, object_hash: Kind) -> (r:
        usize)
        ensures
            final(out)@ == old(out)@ + header_bytes(num_chunks, num_indices, object_hash),
            r == HEADER_LEN,
    {
        let ghost before = out@;
        put_bytes(out, SIGNATURE.as_slice());
        out.push(Version::V1.code());
        out.push(object_hash.code());
        out.push(num_chunks);
        out.push(0);
        put_u32(out, num_indices);
        assert(out@ =~= before + header_bytes(num_chunks, num_indices, object_hash));
        HEADER_LEN
    }

    /// Decides whether the given names and entries can be written as a
    /// multi-pack index.
    pub fn check_writable(names: &Vec<Vec<u8>>, entries: &Vec<Entry>) -> (r: bool)
        ensures
            r == writable(byte_views(names@), entries@),
    {
        let ghost all = byte_views(names@);
        if names.len() > 0xffff_ffff || entries.len() > 0xffff_ffff {
            return false;
        }
        if large_offsets::num_large_offsets(entries) > 0x8000_0000 {
            return false;
        }
        let mut size: u64 = 0;
        let mut i: usize = 0;
        assert(all.take(0) =~= Seq::empty());
        while i < names.len()
            invariant
                i <= names.len(),
                all == byte_views(names@),
                size == names_size(all.take(i as int)) <= MAX_NAMES_SIZE,
            decreases names.len() - i,
        {
            proof {
                assert(all.take(i + 1).drop_last() =~= all.take(i as int));
                assert(all.take(i + 1).last() == names@[i as int]@);
                lemma_names_size_monotonic(all, i + 1);
            }
            let n = names[i].len() as u64;
            if n >= MAX_NAMES_SIZE - size {
                return false;
            }
            size = size + n + 1;
            i += 1;
        }
        assert(all.take(names.len() as int) =~= all);
        true
    }

    /// Plans the chunks of a multi-pack index for the given names and entries.
    pub fn plan_chunks(names: &Vec<Vec<u8>>, entries: &Vec<Entry>, object_hash: Kind) -> (r: Index)
        requires
            writable(byte_views(names@), entries@),
        ensures
            planned(r) == plan_of(byte_views(names@), entries@, object_hash),
            for_writing(r),
    {
        proof {
            lemma_ids_differ();
            lemma_large_count(entries@, 0);
        }
        let mut cf = new_index();
        plan_chunk(&mut cf, index_names::ID, index_names::storage_size(names));
        plan_chunk(&mut cf, fanout::ID, fanout::SIZE as u64);
        plan_chunk(&mut cf, lookup::ID, lookup::storage_size(entries.len(), object_hash));
        plan_chunk(&mut cf, offsets::ID, offsets::storage_size(entries.len()));
        let num_large_offsets = large_offsets::num_large_offsets(entries);
        if num_large_offsets > 0 {
            plan_chunk(&mut cf, large_offsets::ID, large_offsets::storage_size(num_large_offsets));
        }
        assert(planned(cf) =~= plan_of(byte_views(names@), entries@, object_hash));
        cf
    }

    /// Writes the multi-pack index for the given pack names and merged
    /// entries behind what `out` holds. The sink is a vector, which takes
    /// every write, so this always succeeds.
    pub fn write_from_entries<P>(
        names: &Vec<Vec<u8>>,
        entries: &Vec<Entry>,
        out: &mut Vec<u8>,
        progress: P,
        options: Options,
    ) -> (r: Result<Outcome<P>, Error>)
        requires
            writable(byte_views(names@), entries@),
        ensures
            r is Ok,
            final(out)@ == old(out)@ + file_bytes(
                byte_views(names@),
                entries@,
                options.object_hash,
            ),
            r->Ok_0.multi_index_checksum@ == sha1_of(
                content_bytes(byte_views(names@), entries@, options.object_hash),
            ),
            r->Ok_0.progress == progress,
    {
        let object_hash = options.object_hash;
        let ghost names_v = byte_views(names@);
        let ghost plan = plan_of(names_v, entries@, object_hash);
        proof {
            lemma_plan(names_v, entries@, object_hash);
            lemma_ids_differ();
        }
        let cf = File::plan_chunks(names, entries, object_hash);
        let num_large_offsets = large_offsets::num_large_offsets(entries);
        let mut data: Vec<u8> = Vec::new();
        let bytes_written = File::write_header(
            &mut data,
            num_chunks(&cf) as u8,
            names.len() as u32,
            object_hash,
        );
        let ghost base = data@ + table_of_contents(plan, HEADER_LEN as nat);
        let mut chunk_write = match into_write(cf, data, bytes_written) {
            Ok(w) => w,
            Err(e) => {
                return Err(Error::Io(e));
            },
        };
        let mut next = next_chunk(&mut chunk_write);
        let ghost mut done: int = 0;
        assert(chunks_written(plan, 0, names_v, entries@) =~= Seq::empty());
        assert(sink(chunk_write) =~= base + chunks_written(plan, 0, names_v, entries@));
        while next.is_some()
            invariant
                writable(names_v, entries@),
                names_v == byte_views(names@),
                plan == plan_of(names_v, entries@, object_hash),
                num_large_offsets == large_count(entries@),
                0 <= done <= plan.len(),
                sink(chunk_write) == base + chunks_written(plan, done as nat, names_v, entries@),
                counted(chunk_write) == 0,
                next is None ==> done == plan.len(),
                next matches Some(id) ==> {
                    &&& done < plan.len()
                    &&& id@ == plan[done].0
                    &&& current(chunk_write) == Some(plan[done])
                    &&& pending(chunk_write) == plan.skip(done + 1)
                },
            decreases plan.len() - done,
        {
            let chunk_to_write = next.unwrap();
            let mut chunk: Vec<u8> = Vec::new();
            proof {
                lemma_plan(names_v, entries@, object_hash);
                lemma_ids_differ();
            }
            if same_id(&chunk_to_write, &index_names::ID) {
                index_names::write(names, &mut chunk);
            } else if same_id(&chunk_to_write, &fanout::ID) {
                fanout::write(entries, &mut chunk);
            } else if same_id(&chunk_to_write, &lookup::ID) {
                lookup::write(entries, &mut chunk);
            } else if same_id(&chunk_to_write, &offsets::ID) {
                offsets::write(entries, &mut chunk);
            } else if same_id(&chunk_to_write, &large_offsets::ID) {
                large_offsets::write(entries, num_large_offsets, &mut chunk);
            } else {
                unreached::<()>();
            }
            assert(chunk@ =~= chunk_bytes(plan[done].0, names_v, entries@));
            assert(chunk@.len() == chunk.len() <= usize::MAX);
            match write_all(&mut chunk_write, chunk.as_slice()) {
                Ok(()) => {},
                Err(e) => {
                    return Err(Error::Io(e));
                },
            }
            proof {
                assert(plan.skip(done + 1).len() == plan.len() - (done + 1));
                if done + 1 < plan.len() {
                    assert(plan.skip(done + 1)[0] == plan[done + 1]);
                    assert(plan.skip(done + 1).skip(1) =~= plan.skip(done + 2));
                }
            }
            next = next_chunk(&mut chunk_write);
            proof {
                done = done + 1;
            }
        }
        let data = into_inner(chunk_write);
        assert(data@ =~= content_bytes(names_v, entries@, object_hash));
        let multi_index_checksum = ObjectId::of_content(object_hash, data.as_slice());
        let ghost before = out@;
        put_bytes(out, data.as_slice());
        put_bytes(out, multi_index_checksum.as_slice());
        assert(out@ =~= before + file_bytes(names_v, entries@, object_hash));
        Ok(Outcome { multi_index_checksum, progress })
    }

    /// Merges the pack indices at `index_paths` into one multi-pack index
    /// and writes it behind what `out` holds. `indices` holds for each path
    /// what opening it gave. The index files are taken in the order of their
    /// paths, which numbers the packs; before each, `should_interrupt` is asked.
    /// Nothing is written unless all is.
    pub fn write_from_index_paths<P>(
        index_paths: Vec<Vec<u8>>,
        indices: &Vec<Opened>,
        out: &mut Vec<u8>,
        progress: P,
        should_interrupt: &AtomicBool,
        options: Options,
    ) -> (r: Result<Outcome<P>, Error>)
        requires
            within_limits(byte_views(index_paths@), indices@),
        ensures
            match r {
                Ok(outcome) => {
                    &&& all_opened(indices@)
                    &&& index_appended(
                        old(out)@,
                        final(out)@,
                        outcome.multi_index_checksum@,
                        byte_views(index_paths@),
                        indices@,
                        options.object_hash,
                    )
                    &&& outcome.progress == progress
                },
                Err(Error::Interrupted) => index_paths.len() > 0,
                Err(Error::OpenIndex(e)) => open_failed(
                    byte_views(index_paths@),
                    indices@,
                    e.message,
                ),
                Err(Error::Io(_)) => false,
            },
            r is Err ==> final(out)@ == old(out)@,
            exists|order: Seq<usize>, polls: Seq<bool>| #[trigger]
                run_of(r, byte_views(index_paths@), indices@, order, polls),
    {
        let ghost paths = byte_views(index_paths@);
        let order = sort_paths(&index_paths);
        let names = sorted_file_names(&index_paths, &order);
        let (collected, polls) = collect_polling(indices, &order, should_interrupt);
        let entries = match collected {
            Ok(entries) => entries,
            Err(e) => {
                proof {
                    if e is OpenIndex {
                        assert(fails_first(
                            indices@,
                            order@,
                            polls@.len() - 1,
                            e->OpenIndex_0.message,
                        ));
                    }
                }
                let r = Err(e);
                assert(run_of(r, paths, indices@, order@, polls@));
                return r;
            },
        };
        let ghost all = entries@;
        let merged = merge_entries(entries);
        proof {
            let names_v = byte_views(names@);
            lemma_collected_totals(indices@, order@, paths);
            assert forall|i: int| 0 <= i < names_v.len() implies (#[trigger] names_v[i]).len()
                <= MAX_PATH_LEN by {
                lemma_file_name(paths[order@[i] as int]);
            }
            lemma_names_size_bound(names_v, MAX_PATH_LEN as nat);
            assert(names_v.len() * (MAX_PATH_LEN + 1) <= 0xffff_ffff * 0x1_0000) by (nonlinear_arith)
                requires
                    names_v.len() <= 0xffff_ffff,
                    MAX_PATH_LEN == 0xffff,
            ;
            assert forall|i: int| 0 <= i < indices@.len() implies (#[trigger] indices@[i]) is Ok by {
                lemma_order_positions(order@, paths);
                lemma_positions_cover(positions(order@), i);
                let k = choose|k: int| 0 <= k < order@.len() && positions(order@)[k] == i;
                assert(indices@[order@[k] as int] is Ok);
            }
        }
        let r = File::write_from_entries(&names, &merged, out, progress, options);
        proof {
            assert(appends_index(
                old(out)@,
                out@,
                r->Ok_0.multi_index_checksum@,
                paths,
                indices@,
                options.object_hash,
                order@,
                merged@,
            ));
            assert(run_of(r, paths, indices@, order@, polls@));
        }
        r
    }
}

} // verus!
