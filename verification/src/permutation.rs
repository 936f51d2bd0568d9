//! Rearrangements of the positions `0..n`, and sums that do not depend on the order.
use vstd::prelude::*;
use vstd::seq_lib::seq_to_set_is_finite;
use vstd::set_lib::{lemma_int_range, lemma_subset_equality, set_int_range};

verus! {

/// `p` lists positions below its own length, none of them twice.
pub open spec fn is_permutation(p: Seq<int>) -> bool {
    &&& p.no_duplicates()
    &&& forall|k: int| 0 <= k < p.len() ==> 0 <= #[trigger] p[k] < p.len()
}

/// The sum of `f` over the positions that `p` lists.
pub open spec fn sum_over(p: Seq<int>, f: spec_fn(int) -> nat) -> nat
    decreases p.len(),
{
    if p.len() == 0 {
        0
    } else {
        sum_over(p.drop_last(), f) + f(p.last())
    }
}

/// The sum of `f` over the positions below `n`.
pub open spec fn sum_to(n: nat, f: spec_fn(int) -> nat) -> nat
    decreases n,
{
    if n == 0 {
        0
    } else {
        sum_to((n - 1) as nat, f) + f(n - 1)
    }
}

/// A sum grows with the number of its terms.
pub proof fn lemma_sum_to_monotonic(n: nat, m: nat, f: spec_fn(int) -> nat)
    requires
        n <= m,
    ensures
        sum_to(n, f) <= sum_to(m, f),
    decreases m,
{
    if n < m {
        lemma_sum_to_monotonic(n, (m - 1) as nat, f);
    }
}

/// A permutation lists every position below its length.
pub proof fn lemma_positions_cover(p: Seq<int>, m: int)
    requires
        is_permutation(p),
        0 <= m < p.len(),
    ensures
        exists|j: int| 0 <= j < p.len() && p[j] == m,
{
    let n = p.len() as int;
    let x = p.to_set();
    let y = set_int_range(0, n);
    p.unique_seq_to_set();
    lemma_int_range(0, n);
    seq_to_set_is_finite(p);
    assert(x.subset_of(y)) by {
        assert forall|a: int| x.contains(a) implies y.contains(a) by {
            let k = choose|k: int| 0 <= k < p.len() && p[k] == a;
            assert(0 <= p[k] < n);
        }
    }
    lemma_subset_equality(x, y);
    assert(y.contains(m));
    assert(p.contains(m));
}

/// Taking one position out of a list takes its term out of the sum.
pub proof fn lemma_sum_remove(p: Seq<int>, j: int, f: spec_fn(int) -> nat)
    requires
        0 <= j < p.len(),
    ensures
        sum_over(p, f) == sum_over(p.remove(j), f) + f(p[j]),
    decreases p.len(),
{
    if j == p.len() - 1 {
        assert(p.remove(j) =~= p.drop_last());
    } else {
        let t = p.drop_last();
        lemma_sum_remove(t, j, f);
        assert(p.remove(j).drop_last() =~= t.remove(j));
        assert(p.remove(j).last() == p.last());
    }
}

/// A sum over a permutation of the positions below `n` is the sum over the
/// positions below `n`: the order does not matter.
pub proof fn lemma_permuted_sum(p: Seq<int>, f: spec_fn(int) -> nat)
    requires
        is_permutation(p),
    ensures
        sum_over(p, f) == sum_to(p.len(), f),
    decreases p.len(),
{
    if p.len() > 0 {
        let n = p.len() as int;
        lemma_positions_cover(p, n - 1);
        let j = choose|j: int| 0 <= j < p.len() && p[j] == n - 1;
        let q = p.remove(j);
        assert forall|k: int| 0 <= k < q.len() implies 0 <= #[trigger] q[k] < q.len() by {
            if k < j {
                assert(q[k] == p[k]);
            } else {
                assert(q[k] == p[k + 1]);
            }
        }
        assert forall|a: int, b: int| 0 <= a < q.len() && 0 <= b < q.len() && a != b implies q[a]
            != q[b] by {
            let a1 = if a < j {
                a
            } else {
                a + 1
            };
            let b1 = if b < j {
                b
            } else {
                b + 1
            };
            assert(q[a] == p[a1] && q[b] == p[b1]);
        }
        lemma_permuted_sum(q, f);
        lemma_sum_remove(p, j, f);
    }
}

/// `lt` orders all values strictly and totally.
pub open spec fn is_strict_total_order<T>(lt: spec_fn(T, T) -> bool) -> bool {
    &&& forall|x: T, y: T| !(#[trigger] lt(x, y) && lt(y, x))
    &&& forall|x: T, y: T| x != y ==> #[trigger] lt(x, y) || lt(y, x)
    &&& forall|x: T, y: T, z: T| #[trigger] lt(x, y) && #[trigger] lt(y, z) ==> lt(x, z)
}

/// Every element of `s` comes before every later one.
pub open spec fn is_ascending<T>(s: Seq<T>, lt: spec_fn(T, T) -> bool) -> bool {
    forall|i: int, j: int| 0 <= i < j < s.len() ==> lt(#[trigger] s[i], #[trigger] s[j])
}

/// Every element of `a` occurs in `b`.
pub open spec fn occurs_in<T>(a: Seq<T>, b: Seq<T>) -> bool {
    forall|i: int| 0 <= i < a.len() ==> b.contains(#[trigger] a[i])
}

proof fn lemma_same_prefix<T>(a: Seq<T>, b: Seq<T>, lt: spec_fn(T, T) -> bool, k: int)
    requires
        is_strict_total_order(lt),
        is_ascending(a, lt),
        is_ascending(b, lt),
        occurs_in(a, b),
        occurs_in(b, a),
        0 <= k <= a.len(),
    ensures
        k <= b.len(),
        forall|m: int| 0 <= m < k ==> a[m] == b[m],
    decreases k,
{
    if k > 0 {
        lemma_same_prefix(a, b, lt, k - 1);
        let x = a[k - 1];
        assert(b.contains(x));
        let j = choose|j: int| 0 <= j < b.len() && b[j] == x;
        if j < k - 1 {
            assert(a[j] == b[j]);
            assert(lt(a[j], a[k - 1]));
            assert(false);
        }
        let y = b[k - 1];
        if x != y {
            assert(lt(x, y) || lt(y, x));
            if lt(x, y) {
                assert(j > k - 1);
                assert(lt(b[k - 1], b[j]));
                assert(false);
            } else {
                assert(a.contains(y));
                let i = choose|i: int| 0 <= i < a.len() && a[i] == y;
                if i < k - 1 {
                    assert(a[i] == b[i]);
                    assert(lt(b[i], b[k - 1]));
                    assert(false);
                } else {
                    assert(i > k - 1);
                    assert(lt(a[k - 1], a[i]));
                    assert(false);
                }
            }
        }
    }
}

/// Two ascending sequences that hold the same values are the same sequence:
/// a set has one ascending enumeration.
pub proof fn lemma_unique_enumeration<T>(a: Seq<T>, b: Seq<T>, lt: spec_fn(T, T) -> bool)
    requires
        is_strict_total_order(lt),
        is_ascending(a, lt),
        is_ascending(b, lt),
        occurs_in(a, b),
        occurs_in(b, a),
    ensures
        a == b,
{
    lemma_same_prefix(a, b, lt, a.len() as int);
    lemma_same_prefix(b, a, lt, b.len() as int);
    assert(a =~= b);
}

} // verus!
