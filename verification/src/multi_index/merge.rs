//! Merging the entries of all packs: a stable sort in the merge order, then
//! one entry kept per object.
use crate::bytes::{lemma_lex_total, lemma_lex_transitive, lex_lt};
use crate::multi_index::entry::{
    lemma_entry_trichotomy, lemma_ranked_id, lemma_ranked_transitive, ranked_before, Entry,
};
use crate::multi_index::chunk::offsets::{is_large, large_count};
use crate::permutation::{
    is_ascending, is_permutation, is_strict_total_order, lemma_permuted_sum,
    lemma_positions_cover, lemma_unique_enumeration, occurs_in, sum_over, sum_to,
};
use vstd::prelude::*;

verus! {

/// Each element of `s` is the element of `src` at the position that `p` gives
/// for it, and all these positions lie in `lo..hi`.
pub open spec fn drawn_from(s: Seq<Entry>, p: Seq<int>, src: Seq<Entry>, lo: int, hi: int) -> bool {
    &&& s.len() == p.len()
    &&& forall|k: int|
        0 <= k < s.len() ==> lo <= #[trigger] p[k] < hi && 0 <= p[k] < src.len() && s[k] == src[p[k]]
}

/// Each element of `s` comes before its successor in the total order, where
/// `p` gives the position at which each stood in the input.
pub open spec fn ascending(s: Seq<Entry>, p: Seq<int>) -> bool {
    &&& s.len() == p.len()
    &&& forall|k: int|
        0 <= k < s.len() - 1 ==> ranked_before(s[k], #[trigger] p[k], s[k + 1], p[k + 1])
}

/// In an ascending sequence every element comes before every later one.
pub proof fn lemma_ascending_pairs(s: Seq<Entry>, p: Seq<int>, i: int, j: int)
    requires
        ascending(s, p),
        0 <= i < j < s.len(),
    ensures
        ranked_before(s[i], p[i], s[j], p[j]),
    decreases j - i,
{
    if i + 1 < j {
        lemma_ascending_pairs(s, p, i, j - 1);
        assert(ranked_before(s[j - 1], p[j - 1], s[j], p[j]));
        lemma_ranked_transitive(s[i], p[i], s[j - 1], p[j - 1], s[j], p[j]);
    } else {
        assert(ranked_before(s[i], p[i], s[i + 1], p[i + 1]));
    }
}

/// Merges two ascending runs into one. The left run was drawn from positions
/// before those of the right run, so on equal rank the left element goes first.
fn merge_runs(
    src: &Vec<Entry>,
    a: Vec<Entry>,
    pa: Ghost<Seq<int>>,
    b: Vec<Entry>,
    pb: Ghost<Seq<int>>,
    lo: Ghost<int>,
    mid: Ghost<int>,
    hi: Ghost<int>,
) -> (r: (Vec<Entry>, Ghost<Seq<int>>))
    requires
        drawn_from(a@, pa@, src@, lo@, mid@),
        drawn_from(b@, pb@, src@, mid@, hi@),
        ascending(a@, pa@),
        ascending(b@, pb@),
        lo@ <= mid@ <= hi@,
        a.len() + b.len() <= usize::MAX,
    ensures
        r.0.len() == a.len() + b.len(),
        drawn_from(r.0@, r.1@, src@, lo@, hi@),
        ascending(r.0@, r.1@),
{
    let mut out: Vec<Entry> = Vec::with_capacity(a.len() + b.len());
    let ghost mut p: Seq<int> = Seq::empty();
    let mut i: usize = 0;
    let mut j: usize = 0;
    while i < a.len() || j < b.len()
        invariant
            i <= a.len(),
            j <= b.len(),
            out.len() == i + j,
            a.len() + b.len() <= usize::MAX,
            drawn_from(a@, pa@, src@, lo@, mid@),
            drawn_from(b@, pb@, src@, mid@, hi@),
            ascending(a@, pa@),
            ascending(b@, pb@),
            lo@ <= mid@ <= hi@,
            drawn_from(out@, p, src@, lo@, hi@),
            ascending(out@, p),
            out.len() > 0 && i < a.len() ==> ranked_before(
                out@[out.len() - 1],
                p[out.len() - 1],
                a@[i as int],
                pa@[i as int],
            ),
            out.len() > 0 && j < b.len() ==> ranked_before(
                out@[out.len() - 1],
                p[out.len() - 1],
                b@[j as int],
                pb@[j as int],
            ),
        decreases a.len() - i + b.len() - j,
    {
        let left = if i == a.len() {
            false
        } else if j == b.len() {
            true
        } else {
            !b[j].precedes(&a[i])
        };
        let ghost before = out@;
        let ghost p_before = p;
        if left {
            let e = a[i];
            proof {
                assert(lo@ <= pa@[i as int] < mid@);
                if j < b.len() {
                    assert(mid@ <= pb@[j as int] < hi@);
                    lemma_entry_trichotomy(e, b@[j as int]);
                }
                if i + 1 < a.len() {
                    assert(ranked_before(a@[i as int], pa@[i as int], a@[i + 1], pa@[i + 1]));
                }
                p = p.push(pa@[i as int]);
            }
            out.push(e);
            i += 1;
        } else {
            let e = b[j];
            proof {
                assert(mid@ <= pb@[j as int] < hi@);
                if j + 1 < b.len() {
                    assert(ranked_before(b@[j as int], pb@[j as int], b@[j + 1], pb@[j + 1]));
                }
                p = p.push(pb@[j as int]);
            }
            out.push(e);
            j += 1;
        }
        proof {
            let n = before.len() as int;
            assert(out@ == before.push(out@[n]));
            assert forall|k: int| 0 <= k < out@.len() implies lo@ <= #[trigger] p[k] < hi@ && 0
                <= p[k] < src@.len() && out@[k] == src@[p[k]] by {
                if k < n {
                    assert(p[k] == p_before[k]);
                    assert(out@[k] == before[k]);
                }
            }
            assert forall|k: int| 0 <= k < out@.len() - 1 implies ranked_before(
                out@[k],
                #[trigger] p[k],
                out@[k + 1],
                p[k + 1],
            ) by {
                if k + 1 < n {
                    assert(p[k] == p_before[k]);
                    assert(p[k + 1] == p_before[k + 1]);
                    assert(ranked_before(before[k], p_before[k], before[k + 1], p_before[k + 1]));
                }
            }
        }
    }
    (out, Ghost(p))
}

/// Sorts the part `lo..hi` of `src` into a new vector, stably.
fn sort_range(src: &Vec<Entry>, lo: usize, hi: usize) -> (r: (Vec<Entry>, Ghost<Seq<int>>))
    requires
        lo <= hi <= src.len(),
    ensures
        r.0.len() == hi - lo,
        drawn_from(r.0@, r.1@, src@, lo as int, hi as int),
        ascending(r.0@, r.1@),
    decreases hi - lo,
{
    if hi - lo == 0 {
        (Vec::new(), Ghost(Seq::empty()))
    } else if hi - lo == 1 {
        let mut out: Vec<Entry> = Vec::with_capacity(1);
        out.push(src[lo]);
        let ghost p: Seq<int> = Seq::empty().push(lo as int);
        (out, Ghost(p))
    } else {
        let mid = lo + (hi - lo) / 2;
        let (a, pa) = sort_range(src, lo, mid);
        let (b, pb) = sort_range(src, mid, hi);
        merge_runs(src, a, pa, b, pb, Ghost(lo as int), Ghost(mid as int), Ghost(hi as int))
    }
}

/// `out` is `inp` in the merge order, entries of the same rank in the order
/// in which they stood in `inp`; `p` gives for each place of `out` the place
/// in `inp` that its entry came from.
pub open spec fn is_stable_order(out: Seq<Entry>, p: Seq<int>, inp: Seq<Entry>) -> bool {
    &&& out.len() == inp.len()
    &&& drawn_from(out, p, inp, 0, inp.len() as int)
    &&& ascending(out, p)
}

/// `out` is the stable sort of `inp` in the merge order.
pub open spec fn stably_sorted(out: Seq<Entry>, inp: Seq<Entry>) -> bool {
    exists|p: Seq<int>| is_stable_order(out, p, inp)
}

/// Whether the entry at place `k` names another object than the entry before it.
pub open spec fn is_head(s: Seq<Entry>, k: int) -> bool {
    k == 0 || s[k].id@ != s[k - 1].id@
}

/// The first entry of each run of entries that name the same object.
pub open spec fn run_heads(s: Seq<Entry>) -> Seq<Entry>
    decreases s.len(),
{
    if s.len() == 0 {
        Seq::empty()
    } else if is_head(s, s.len() - 1) {
        run_heads(s.drop_last()).push(s.last())
    } else {
        run_heads(s.drop_last())
    }
}

/// The entry at place `i` of `inp` is the one to keep for its object: every
/// other entry for that object comes from an index file modified earlier, or
/// at the same time from a pack of a higher ordinal, or stands later in `inp`.
pub open spec fn wins(inp: Seq<Entry>, i: int) -> bool {
    forall|j: int|
        0 <= j < inp.len() && (#[trigger] inp[j]).id@ == inp[i].id@ ==> i == j || ranked_before(
            inp[i],
            i,
            inp[j],
            j,
        )
}

/// `e` stands in `inp` at a place where it wins.
pub open spec fn is_winner(inp: Seq<Entry>, e: Entry) -> bool {
    exists|i: int| 0 <= i < inp.len() && #[trigger] inp[i] == e && wins(inp, i)
}

/// Some entry of `s` names the object `id`.
pub open spec fn names(s: Seq<Entry>, id: Seq<u8>) -> bool {
    exists|k: int| 0 <= k < s.len() && (#[trigger] s[k]).id@ == id
}

/// The identifiers of `s` are strictly ascending.
pub open spec fn strictly_ascending(s: Seq<Entry>) -> bool {
    forall|i: int, j: int| 0 <= i < j < s.len() ==> lex_lt(#[trigger] s[i].id@, #[trigger] s[j].id@)
}

/// `out` is the merge of `inp`: its identifiers are strictly ascending, so no
/// object occurs twice; each of its entries is the winner among the entries of
/// `inp` for its object; and it names every object that `inp` names.
pub open spec fn merged_from(out: Seq<Entry>, inp: Seq<Entry>) -> bool {
    &&& strictly_ascending(out)
    &&& forall|k: int| 0 <= k < out.len() ==> is_winner(inp, #[trigger] out[k])
    &&& forall|i: int| 0 <= i < inp.len() ==> names(out, (#[trigger] inp[i]).id@)
}

/// Some place of `s` is the head of a run and holds `e`.
pub open spec fn head_in(s: Seq<Entry>, e: Entry) -> bool {
    exists|h: int| 0 <= h < s.len() && is_head(s, h) && #[trigger] s[h] == e
}

/// The identifier at place `k + 1` is not less than the one at place `k`.
pub open spec fn no_descent_at(s: Seq<Entry>, k: int) -> bool {
    !lex_lt(s[k + 1].id@, s[k].id@)
}

/// No identifier of `s` is less than the one before it.
pub open spec fn ids_nondecreasing(s: Seq<Entry>) -> bool {
    forall|k: int| 0 <= k < s.len() - 1 ==> #[trigger] no_descent_at(s, k)
}

/// The identifier at place `k + 1` is greater than the one at place `k`.
pub open spec fn step_up_at(s: Seq<Entry>, k: int) -> bool {
    lex_lt(s[k].id@, s[k + 1].id@)
}

/// Consecutive identifiers ascend strictly.
pub open spec fn ids_step_up(s: Seq<Entry>) -> bool {
    forall|k: int| 0 <= k < s.len() - 1 ==> #[trigger] step_up_at(s, k)
}

proof fn lemma_step_up_pairs(s: Seq<Entry>, i: int, j: int)
    requires
        ids_step_up(s),
        0 <= i < j < s.len(),
    ensures
        lex_lt(s[i].id@, s[j].id@),
    decreases j - i,
{
    if i + 1 < j {
        lemma_step_up_pairs(s, i, j - 1);
        assert(step_up_at(s, j - 1));
        lemma_lex_transitive(s[i].id@, s[j - 1].id@, s[j].id@);
    } else {
        assert(step_up_at(s, i));
    }
}

/// The last head names the object that the last entry names.
proof fn lemma_heads_last(s: Seq<Entry>)
    ensures
        s.len() == 0 ==> run_heads(s).len() == 0,
        s.len() > 0 ==> run_heads(s).len() > 0 && run_heads(s).last().id@ == s.last().id@,
    decreases s.len(),
{
    if s.len() > 0 {
        lemma_heads_last(s.drop_last());
    }
}

/// Each of the heads stands in `s` at the head of a run.
proof fn lemma_heads_are_heads(s: Seq<Entry>)
    ensures
        forall|k: int| 0 <= k < run_heads(s).len() ==> head_in(s, #[trigger] run_heads(s)[k]),
    decreases s.len(),
{
    if s.len() > 0 {
        let n = s.len() as int;
        let t = s.drop_last();
        let rt = run_heads(t);
        let r = run_heads(s);
        lemma_heads_are_heads(t);
        assert forall|k: int| 0 <= k < r.len() implies head_in(s, #[trigger] r[k]) by {
            if k < rt.len() {
                assert(head_in(t, rt[k]));
                let h = choose|h: int| 0 <= h < t.len() && is_head(t, h) && #[trigger] t[h] == rt[k];
                assert(s[h] == t[h]);
                if h > 0 {
                    assert(s[h - 1] == t[h - 1]);
                }
                assert(is_head(s, h) && s[h] == r[k]);
            } else {
                assert(is_head(s, n - 1) && s[n - 1] == r[k]);
            }
        }
    }
}

/// The heads name every object that `s` names.
proof fn lemma_heads_name_all(s: Seq<Entry>)
    ensures
        forall|j: int| 0 <= j < s.len() ==> names(run_heads(s), (#[trigger] s[j]).id@),
    decreases s.len(),
{
    if s.len() > 0 {
        let n = s.len() as int;
        let t = s.drop_last();
        let rt = run_heads(t);
        let r = run_heads(s);
        lemma_heads_name_all(t);
        lemma_heads_last(s);
        assert forall|j: int| 0 <= j < s.len() implies names(r, (#[trigger] s[j]).id@) by {
            if j < n - 1 {
                assert(names(rt, t[j].id@));
                let k = choose|k: int| 0 <= k < rt.len() && (#[trigger] rt[k]).id@ == t[j].id@;
                assert(r[k] == rt[k]);
                assert(r[k].id@ == s[j].id@);
            } else {
                assert(r[r.len() - 1].id@ == s[j].id@);
            }
        }
    }
}

/// Where the identifiers of `s` never descend, those of its heads ascend strictly.
proof fn lemma_heads_step_up(s: Seq<Entry>)
    requires
        ids_nondecreasing(s),
    ensures
        ids_step_up(run_heads(s)),
    decreases s.len(),
{
    if s.len() > 0 {
        let n = s.len() as int;
        let t = s.drop_last();
        let rt = run_heads(t);
        let r = run_heads(s);
        assert forall|k: int| 0 <= k < t.len() - 1 implies #[trigger] no_descent_at(t, k) by {
            assert(no_descent_at(s, k));
        }
        lemma_heads_step_up(t);
        lemma_heads_last(t);
        assert forall|k: int| 0 <= k < r.len() - 1 implies #[trigger] step_up_at(r, k) by {
            if k + 1 < rt.len() {
                assert(step_up_at(rt, k));
                assert(r[k] == rt[k] && r[k + 1] == rt[k + 1]);
            } else {
                assert(r == rt.push(s.last()));
                assert(k == rt.len() - 1);
                assert(r[k] == rt.last());
                assert(r[k + 1] == s[n - 1]);
                assert(t.last() == s[n - 2]);
                assert(no_descent_at(s, n - 2));
                lemma_lex_total(s[n - 2].id@, s[n - 1].id@);
            }
        }
    }
}

/// The positions of a stable order are a permutation.
pub proof fn lemma_order_is_permutation(s: Seq<Entry>, p: Seq<int>, inp: Seq<Entry>)
    requires
        is_stable_order(s, p, inp),
    ensures
        is_permutation(p),
{
    assert forall|i: int, j: int| 0 <= i < p.len() && 0 <= j < p.len() && i != j implies p[i]
        != p[j] by {
        if i < j {
            lemma_ascending_pairs(s, p, i, j);
        } else {
            lemma_ascending_pairs(s, p, j, i);
        }
        lemma_entry_trichotomy(s[i], s[j]);
        lemma_entry_trichotomy(s[j], s[i]);
    }
}

/// Whether the entry at place `i` has a large offset, as a number.
pub open spec fn large_at(inp: Seq<Entry>, i: int) -> nat {
    if is_large(inp[i].pack_offset) {
        1
    } else {
        0
    }
}

proof fn lemma_large_count_as_sum(inp: Seq<Entry>, n: nat)
    requires
        n <= inp.len(),
    ensures
        large_count(inp.take(n as int)) == sum_to(n, |i: int| large_at(inp, i)),
    decreases n,
{
    if n > 0 {
        lemma_large_count_as_sum(inp, (n - 1) as nat);
        assert(inp.take(n as int).drop_last() =~= inp.take(n - 1));
    }
}

proof fn lemma_large_count_drawn(s: Seq<Entry>, p: Seq<int>, inp: Seq<Entry>, n: nat)
    requires
        drawn_from(s, p, inp, 0, inp.len() as int),
        n <= s.len(),
    ensures
        large_count(s.take(n as int)) == sum_over(p.take(n as int), |i: int| large_at(inp, i)),
    decreases n,
{
    if n > 0 {
        lemma_large_count_drawn(s, p, inp, (n - 1) as nat);
        assert(s.take(n as int).drop_last() =~= s.take(n - 1));
        assert(p.take(n as int).drop_last() =~= p.take(n - 1));
        assert(s[n - 1] == inp[p[n - 1]]);
    }
}

/// Sorting keeps the number of large offsets.
pub proof fn lemma_sorted_keeps_large(s: Seq<Entry>, p: Seq<int>, inp: Seq<Entry>)
    requires
        is_stable_order(s, p, inp),
    ensures
        large_count(s) == large_count(inp),
{
    lemma_order_is_permutation(s, p, inp);
    lemma_permuted_sum(p, |i: int| large_at(inp, i));
    lemma_large_count_as_sum(inp, inp.len());
    lemma_large_count_drawn(s, p, inp, s.len());
    assert(s.take(s.len() as int) =~= s);
    assert(p.take(s.len() as int) =~= p);
    assert(inp.take(inp.len() as int) =~= inp);
}

/// The heads of the runs are no more than the entries, and hold no more large offsets.
pub proof fn lemma_heads_are_fewer(s: Seq<Entry>)
    ensures
        run_heads(s).len() <= s.len(),
        large_count(run_heads(s)) <= large_count(s),
    decreases s.len(),
{
    if s.len() > 0 {
        lemma_heads_are_fewer(s.drop_last());
        if is_head(s, s.len() - 1) {
            assert(run_heads(s).drop_last() =~= run_heads(s.drop_last()));
        }
    }
}

/// The heads of the runs of a stable sort are the merge of what was sorted.
pub proof fn lemma_heads_of_sorted_are_merge(s: Seq<Entry>, p: Seq<int>, inp: Seq<Entry>)
    requires
        is_stable_order(s, p, inp),
    ensures
        merged_from(run_heads(s), inp),
{
    let r = run_heads(s);
    let n = s.len() as int;
    assert forall|k: int| 0 <= k < s.len() - 1 implies #[trigger] no_descent_at(s, k) by {
        assert(ranked_before(s[k], p[k], s[k + 1], p[k + 1]));
        lemma_ranked_id(s[k], p[k], s[k + 1], p[k + 1]);
    }
    lemma_heads_are_heads(s);
    lemma_heads_name_all(s);
    lemma_heads_step_up(s);
    assert forall|i: int, j: int| 0 <= i < j < r.len() implies lex_lt(
        #[trigger] r[i].id@,
        #[trigger] r[j].id@,
    ) by {
        lemma_step_up_pairs(r, i, j);
    }
    lemma_order_is_permutation(s, p, inp);
    assert forall|k: int| 0 <= k < r.len() implies is_winner(inp, #[trigger] r[k]) by {
        assert(head_in(s, r[k]));
        let h = choose|h: int| 0 <= h < s.len() && is_head(s, h) && #[trigger] s[h] == r[k];
        let i = p[h];
        assert forall|m: int| 0 <= m < inp.len() && (#[trigger] inp[m]).id@ == inp[i].id@ implies i
            == m || ranked_before(inp[i], i, inp[m], m) by {
            lemma_positions_cover(p, m);
            let j = choose|j: int| 0 <= j < p.len() && p[j] == m;
            assert(s[j] == inp[m]);
            if j < h {
                if j < h - 1 {
                    lemma_ascending_pairs(s, p, j, h - 1);
                    lemma_ranked_id(s[j], p[j], s[h - 1], p[h - 1]);
                }
                lemma_ascending_pairs(s, p, h - 1, h);
                lemma_ranked_id(s[h - 1], p[h - 1], s[h], p[h]);
                lemma_lex_total(s[h - 1].id@, s[h].id@);
                assert(false);
            } else if h < j {
                lemma_ascending_pairs(s, p, h, j);
            }
        }
        assert(inp[i] == r[k] && wins(inp, i));
    }
    assert forall|i: int| 0 <= i < inp.len() implies names(r, (#[trigger] inp[i]).id@) by {
        lemma_positions_cover(p, i);
        let j = choose|j: int| 0 <= j < p.len() && p[j] == i;
        assert(s[j] == inp[i]);
        assert(names(r, s[j].id@));
    }
}

/// Sorts the entries in the merge order. Entries of the same rank keep the
/// order in which they came.
pub fn sort_entries(entries: Vec<Entry>) -> (r: Vec<Entry>)
    ensures
        stably_sorted(r@, entries@),
{
    let (out, p) = sort_range(&entries, 0, entries.len());
    assert(is_stable_order(out@, p@, entries@));
    out
}

/// Keeps the first entry of each run of entries that name the same object.
pub fn dedup_entries(sorted: Vec<Entry>) -> (r: Vec<Entry>)
    ensures
        r@ == run_heads(sorted@),
{
    let mut out: Vec<Entry> = Vec::new();
    let mut i: usize = 0;
    assert(sorted@.take(0) =~= Seq::empty());
    while i < sorted.len()
        invariant
            i <= sorted.len(),
            out@ == run_heads(sorted@.take(i as int)),
        decreases sorted.len() - i,
    {
        let head = i == 0 || !sorted[i].same_object(&sorted[i - 1]);
        proof {
            let t = sorted@.take(i + 1);
            assert(t.drop_last() =~= sorted@.take(i as int));
            assert(t.last() == sorted@[i as int]);
            assert(is_head(t, i as int) == head) by {
                if i > 0 {
                    assert(t[i as int] == sorted@[i as int]);
                    assert(t[i - 1] == sorted@[i - 1]);
                }
            }
        }
        if head {
            out.push(sorted[i]);
        }
        i += 1;
    }
    assert(sorted@.take(sorted.len() as int) =~= sorted@);
    out
}

/// Merges the entries of all packs: one entry per object, identifiers
/// ascending. Where several packs hold an object, the entry of the index file
/// modified last is kept, and among index files modified at the same time the
/// entry of the pack with the lowest ordinal.
pub fn merge_entries(entries: Vec<Entry>) -> (r: Vec<Entry>)
    ensures
        merged_from(r@, entries@),
        r.len() <= entries.len(),
        large_count(r@) <= large_count(entries@),
{
    let ghost inp = entries@;
    let sorted = sort_entries(entries);
    proof {
        let p = choose|p: Seq<int>| is_stable_order(sorted@, p, inp);
        lemma_heads_of_sorted_are_merge(sorted@, p, inp);
        lemma_sorted_keeps_large(sorted@, p, inp);
        lemma_heads_are_fewer(sorted@);
    }
    dedup_entries(sorted)
}

/// Of the entries for one object only one wins.
pub proof fn lemma_one_winner(inp: Seq<Entry>, i: int, j: int)
    requires
        0 <= i < inp.len(),
        0 <= j < inp.len(),
        wins(inp, i),
        wins(inp, j),
        inp[i].id@ == inp[j].id@,
    ensures
        i == j,
{
    if i != j {
        assert(ranked_before(inp[i], i, inp[j], j));
        assert(ranked_before(inp[j], j, inp[i], i));
        lemma_entry_trichotomy(inp[i], inp[j]);
        lemma_entry_trichotomy(inp[j], inp[i]);
    }
}

/// The entry that is kept for an object comes from the index file that was
/// modified last among those that hold the object, and among index files
/// modified at the same time from the pack with the lowest ordinal.
pub proof fn lemma_survivor(out: Seq<Entry>, inp: Seq<Entry>, k: int, j: int)
    requires
        merged_from(out, inp),
        0 <= k < out.len(),
        0 <= j < inp.len(),
        inp[j].id@ == out[k].id@,
    ensures
        out[k].index_mtime >= inp[j].index_mtime,
        out[k].index_mtime == inp[j].index_mtime ==> out[k].pack_index <= inp[j].pack_index,
{
    assert(is_winner(inp, out[k]));
    let i = choose|i: int| 0 <= i < inp.len() && #[trigger] inp[i] == out[k] && wins(inp, i);
    assert(i == j || ranked_before(inp[i], i, inp[j], j));
    lemma_lex_total(inp[i].id@, inp[j].id@);
}

/// Where one entry for an object is newer than every other entry for it, or
/// as new as the newest and from a lower pack than every other such entry,
/// that entry is the one kept, with its pack and its offset.
pub proof fn lemma_newest_survives(out: Seq<Entry>, inp: Seq<Entry>, b: int)
    requires
        merged_from(out, inp),
        0 <= b < inp.len(),
        forall|j: int|
            0 <= j < inp.len() && j != b && (#[trigger] inp[j]).id@ == inp[b].id@ ==> inp[j].index_mtime
                < inp[b].index_mtime || (inp[j].index_mtime == inp[b].index_mtime
                && inp[b].pack_index < inp[j].pack_index),
    ensures
        exists|k: int| 0 <= k < out.len() && #[trigger] out[k] == inp[b],
{
    assert(names(out, inp[b].id@));
    let k = choose|k: int| 0 <= k < out.len() && (#[trigger] out[k]).id@ == inp[b].id@;
    assert(is_winner(inp, out[k]));
    let i = choose|i: int| 0 <= i < inp.len() && #[trigger] inp[i] == out[k] && wins(inp, i);
    if i != b {
        assert(ranked_before(inp[i], i, inp[b], b));
        lemma_lex_total(inp[i].id@, inp[b].id@);
        assert(false);
    }
}

/// Each object that the input names is named once in the merge.
pub proof fn lemma_named_once(out: Seq<Entry>, inp: Seq<Entry>, i: int, k1: int, k2: int)
    requires
        merged_from(out, inp),
        0 <= i < inp.len(),
        0 <= k1 < out.len(),
        0 <= k2 < out.len(),
        out[k1].id@ == inp[i].id@,
        out[k2].id@ == inp[i].id@,
    ensures
        names(out, inp[i].id@),
        k1 == k2,
{
    lemma_lex_total(out[k1].id@, out[k2].id@);
    if k1 < k2 {
        assert(lex_lt(out[k1].id@, out[k2].id@));
    } else if k2 < k1 {
        assert(lex_lt(out[k2].id@, out[k1].id@));
    }
}

/// The identifiers of a sequence of entries.
pub open spec fn ids_of(s: Seq<Entry>) -> Seq<Seq<u8>> {
    Seq::new(s.len(), |k: int| s[k].id@)
}

/// The merge of given entries is one sequence and no other.
pub proof fn lemma_merge_unique(inp: Seq<Entry>, out1: Seq<Entry>, out2: Seq<Entry>)
    requires
        merged_from(out1, inp),
        merged_from(out2, inp),
    ensures
        out1 == out2,
{
    let lt = |x: Seq<u8>, y: Seq<u8>| lex_lt(x, y);
    let a = ids_of(out1);
    let b = ids_of(out2);
    assert(is_strict_total_order(lt)) by {
        assert forall|x: Seq<u8>, y: Seq<u8>| !(#[trigger] lt(x, y) && lt(y, x)) by {
            lemma_lex_total(x, y);
        }
        assert forall|x: Seq<u8>, y: Seq<u8>| x != y implies #[trigger] lt(x, y) || lt(y, x) by {
            lemma_lex_total(x, y);
        }
        assert forall|x: Seq<u8>, y: Seq<u8>, z: Seq<u8>| #[trigger]
            lt(x, y) && #[trigger] lt(y, z) implies lt(x, z) by {
            lemma_lex_transitive(x, y, z);
        }
    }
    assert(is_ascending(a, lt)) by {
        assert forall|i: int, j: int| 0 <= i < j < a.len() implies lt(
            #[trigger] a[i],
            #[trigger] a[j],
        ) by {
            assert(lex_lt(out1[i].id@, out1[j].id@));
        }
    }
    assert(is_ascending(b, lt)) by {
        assert forall|i: int, j: int| 0 <= i < j < b.len() implies lt(
            #[trigger] b[i],
            #[trigger] b[j],
        ) by {
            assert(lex_lt(out2[i].id@, out2[j].id@));
        }
    }
    assert(occurs_in(a, b)) by {
        assert forall|k: int| 0 <= k < a.len() implies b.contains(#[trigger] a[k]) by {
            assert(is_winner(inp, out1[k]));
            let i = choose|i: int| 0 <= i < inp.len() && #[trigger] inp[i] == out1[k] && wins(inp, i);
            assert(names(out2, inp[i].id@));
            let m = choose|m: int| 0 <= m < out2.len() && (#[trigger] out2[m]).id@ == inp[i].id@;
            assert(b[m] == a[k]);
        }
    }
    assert(occurs_in(b, a)) by {
        assert forall|k: int| 0 <= k < b.len() implies a.contains(#[trigger] b[k]) by {
            assert(is_winner(inp, out2[k]));
            let i = choose|i: int| 0 <= i < inp.len() && #[trigger] inp[i] == out2[k] && wins(inp, i);
            assert(names(out1, inp[i].id@));
            let m = choose|m: int| 0 <= m < out1.len() && (#[trigger] out1[m]).id@ == inp[i].id@;
            assert(a[m] == b[k]);
        }
    }
    lemma_unique_enumeration(a, b, lt);
    assert(a.len() == out1.len() && b.len() == out2.len());
    assert(out1.len() == out2.len());
    assert forall|k: int| 0 <= k < out1.len() implies out1[k] == out2[k] by {
        assert(a[k] == b[k]);
        assert(is_winner(inp, out1[k]));
        assert(is_winner(inp, out2[k]));
        let i1 = choose|i: int| 0 <= i < inp.len() && #[trigger] inp[i] == out1[k] && wins(inp, i);
        let i2 = choose|i: int| 0 <= i < inp.len() && #[trigger] inp[i] == out2[k] && wins(inp, i);
        lemma_one_winner(inp, i1, i2);
    }
    assert(out1 =~= out2);
}

} // verus!
