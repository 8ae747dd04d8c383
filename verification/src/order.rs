//! Stable ordering by key.

use vstd::prelude::*;

verus! {

/// A key that values are ordered by: a total, transitive relation and the
/// function that decides it.
pub trait Key: Sized {
    spec fn leq(&self, other: &Self) -> bool;

    proof fn total(a: &Self, b: &Self)
        ensures
            a.leq(b) || b.leq(a),
    ;

    proof fn transitive(a: &Self, b: &Self, c: &Self)
        requires
            a.leq(b),
            b.leq(c),
        ensures
            a.leq(c),
    ;

    fn no_greater(&self, other: &Self) -> (r: bool)
        ensures
            r == self.leq(other),
    ;
}

/// Position `a` comes before position `b`: its key is smaller, or the keys are
/// equivalent and `a` is the earlier position.
pub open spec fn precedes<K: Key>(keys: Seq<K>, a: int, b: int) -> bool {
    keys[a].leq(&keys[b]) && (keys[b].leq(&keys[a]) ==> a < b)
}

/// `order` lists every position of `keys` once, smallest key first, equivalent
/// keys in their original order.
pub open spec fn is_stable_order<K: Key>(keys: Seq<K>, order: Seq<usize>) -> bool {
    &&& order.len() == keys.len()
    &&& forall|i: int| 0 <= i < order.len() ==> 0 <= #[trigger] order[i] < keys.len()
    &&& forall|x: usize| x < keys.len() ==> #[trigger] order.contains(x)
    &&& forall|i: int, j: int|
        0 <= i < j < order.len() ==> precedes(
            keys,
            #[trigger] order[i] as int,
            #[trigger] order[j] as int,
        )
}

/// `run` lists every position from `lo` up to `hi` once, in stable order.
spec fn is_run<K: Key>(keys: Seq<K>, run: Seq<usize>, lo: int, hi: int) -> bool {
    &&& run.len() == hi - lo
    &&& forall|i: int| 0 <= i < run.len() ==> lo <= #[trigger] run[i] < hi
    &&& forall|x: usize| lo <= x < hi ==> #[trigger] run.contains(x)
    &&& forall|i: int, j: int|
        0 <= i < j < run.len() ==> precedes(
            keys,
            #[trigger] run[i] as int,
            #[trigger] run[j] as int,
        )
}

proof fn lemma_precedes_transitive<K: Key>(keys: Seq<K>, a: int, b: int, c: int)
    requires
        precedes(keys, a, b),
        precedes(keys, b, c),
    ensures
        precedes(keys, a, c),
{
    K::transitive(&keys[a], &keys[b], &keys[c]);
    if keys[c].leq(&keys[a]) {
        K::transitive(&keys[b], &keys[c], &keys[a]);
        K::transitive(&keys[c], &keys[a], &keys[b]);
    }
}

/// Position `a` comes before position `b` by `le`: it is smaller, or the two are
/// equivalent and `a` is the earlier position.
pub open spec fn comes_before(le: spec_fn(int, int) -> bool, a: int, b: int) -> bool {
    le(a, b) && (le(b, a) ==> a < b)
}

/// `order` lists the positions below `n` once each, smallest first by `le`,
/// equivalent ones in their original order.
pub open spec fn is_order_by(n: nat, le: spec_fn(int, int) -> bool, order: Seq<usize>) -> bool {
    &&& order.len() == n
    &&& forall|i: int| 0 <= i < order.len() ==> 0 <= #[trigger] order[i] < n
    &&& forall|x: usize| x < n ==> #[trigger] order.contains(x)
    &&& forall|i: int, j: int|
        0 <= i < j < order.len() ==> comes_before(
            le,
            #[trigger] order[i] as int,
            #[trigger] order[j] as int,
        )
}

/// A stable order of keys is an order by any relation that compares positions as
/// their keys compare.
pub proof fn lemma_order_by_keys<K: Key>(
    keys: Seq<K>,
    le: spec_fn(int, int) -> bool,
    order: Seq<usize>,
)
    requires
        is_stable_order(keys, order),
        forall|a: int, b: int|
            0 <= a < keys.len() && 0 <= b < keys.len() ==> #[trigger] le(a, b) == keys[a].leq(
                &keys[b],
            ),
    ensures
        is_order_by(keys.len(), le, order),
{
    assert forall|i: int, j: int| 0 <= i < j < order.len() implies comes_before(
        le,
        #[trigger] order[i] as int,
        #[trigger] order[j] as int,
    ) by {
        assert(precedes(keys, order[i] as int, order[j] as int));
    }
}

/// An order names no position twice.
pub proof fn lemma_order_distinct(n: nat, le: spec_fn(int, int) -> bool, order: Seq<usize>)
    requires
        is_order_by(n, le, order),
    ensures
        order.no_duplicates(),
{
    assert forall|i: int, j: int|
        0 <= i < order.len() && 0 <= j < order.len() && i != j implies order[i] != order[j] by {
        if i < j {
            assert(comes_before(le, order[i] as int, order[j] as int));
        } else {
            assert(comes_before(le, order[j] as int, order[i] as int));
        }
    }
}

/// There is only one order: two orders by the same relation agree.
pub proof fn law_order_unique(
    n: nat,
    le: spec_fn(int, int) -> bool,
    a: Seq<usize>,
    b: Seq<usize>,
)
    requires
        is_order_by(n, le, a),
        is_order_by(n, le, b),
    ensures
        a == b,
{
    lemma_orders_agree(n, le, a, b, a.len() as int);
    assert(a.take(a.len() as int) == a);
    assert(b.take(b.len() as int) == b);
}

proof fn lemma_orders_agree(
    n: nat,
    le: spec_fn(int, int) -> bool,
    a: Seq<usize>,
    b: Seq<usize>,
    m: int,
)
    requires
        is_order_by(n, le, a),
        is_order_by(n, le, b),
        0 <= m <= a.len(),
    ensures
        a.take(m) == b.take(m),
    decreases m,
{
    if m > 0 {
        let k = m - 1;
        lemma_orders_agree(n, le, a, b, k);
        lemma_order_distinct(n, le, a);
        lemma_order_distinct(n, le, b);
        assert(b.contains(a[k]));
        let p = choose|p: int| 0 <= p < b.len() && b[p] == a[k];
        assert(a.contains(b[k]));
        let q = choose|q: int| 0 <= q < a.len() && a[q] == b[k];
        assert(p >= k) by {
            if p < k {
                assert(a.take(k)[p] == b.take(k)[p]);
            }
        }
        assert(q >= k) by {
            if q < k {
                assert(a.take(k)[q] == b.take(k)[q]);
            }
        }
        if p > k {
            assert(comes_before(le, b[k] as int, b[p] as int));
            assert(q > k);
            assert(comes_before(le, a[k] as int, a[q] as int));
            assert(le(a[k] as int, b[k] as int) && le(b[k] as int, a[k] as int));
        }
        assert(a.take(m) =~= a.take(k).push(a[k]));
        assert(b.take(m) =~= b.take(k).push(b[k]));
    }
}

/// The sum of `f` over the positions below `n`.
pub open spec fn sum_below(f: spec_fn(int) -> nat, n: nat) -> nat
    decreases n,
{
    if n == 0 {
        0
    } else {
        sum_below(f, (n - 1) as nat) + f(n - 1)
    }
}

/// The sum of `f` over some positions.
pub open spec fn sum_at(f: spec_fn(int) -> nat, at: Seq<usize>) -> nat
    decreases at.len(),
{
    if at.len() == 0 {
        0
    } else {
        sum_at(f, at.drop_last()) + f(at.last() as int)
    }
}

proof fn lemma_sum_at_remove(f: spec_fn(int) -> nat, at: Seq<usize>, p: int)
    requires
        0 <= p < at.len(),
    ensures
        sum_at(f, at) == sum_at(f, at.remove(p)) + f(at[p] as int),
    decreases at.len(),
{
    if p < at.len() - 1 {
        lemma_sum_at_remove(f, at.drop_last(), p);
        assert(at.remove(p).drop_last() =~= at.drop_last().remove(p));
        assert(at.remove(p).last() == at.last());
    } else {
        assert(at.remove(p) =~= at.drop_last());
    }
}

/// Summing over distinct positions gives no more than summing over all, and the
/// same if all are there.
pub proof fn lemma_sum_at(f: spec_fn(int) -> nat, n: nat, at: Seq<usize>)
    requires
        at.no_duplicates(),
        forall|i: int| 0 <= i < at.len() ==> #[trigger] at[i] < n,
    ensures
        sum_at(f, at) <= sum_below(f, n),
        (forall|x: usize| x < n ==> #[trigger] at.contains(x)) && n <= usize::MAX ==> sum_at(f, at)
            == sum_below(f, n),
    decreases n,
{
    if n == 0 {
        if at.len() > 0 {
            assert(at[0] < n);
        }
    } else {
        let m = (n - 1) as nat;
        if exists|p: int| 0 <= p < at.len() && at[p] == m {
            let p = choose|p: int| 0 <= p < at.len() && at[p] == m;
            let others = at.remove(p);
            lemma_sum_at_remove(f, at, p);
            assert forall|i: int| 0 <= i < others.len() implies #[trigger] others[i] < m by {
                assert(others[i] == if i < p {
                    at[i]
                } else {
                    at[i + 1]
                });
            }
            assert forall|i: int, j: int|
                0 <= i < others.len() && 0 <= j < others.len() && i != j implies others[i]
                != others[j] by {
                let i0 = if i < p {
                    i
                } else {
                    i + 1
                };
                let j0 = if j < p {
                    j
                } else {
                    j + 1
                };
                assert(at[i0] != at[j0]);
            }
            lemma_sum_at(f, m, others);
            if (forall|x: usize| x < n ==> #[trigger] at.contains(x)) && n <= usize::MAX {
                assert forall|x: usize| x < m implies #[trigger] others.contains(x) by {
                    assert(at.contains(x));
                    let q = choose|q: int| 0 <= q < at.len() && at[q] == x;
                    assert(others[if q < p {
                        q
                    } else {
                        q - 1
                    }] == x);
                }
            }
        } else {
            assert forall|i: int| 0 <= i < at.len() implies #[trigger] at[i] < m by {
                assert(at[i] < n && at[i] != m);
            }
            lemma_sum_at(f, m, at);
            if (forall|x: usize| x < n ==> #[trigger] at.contains(x)) && n <= usize::MAX {
                assert(at.contains(m as usize));
            }
        }
    }
}

/// An order keeps every sum.
pub proof fn law_order_keeps_sums(
    n: nat,
    le: spec_fn(int, int) -> bool,
    order: Seq<usize>,
    f: spec_fn(int) -> nat,
)
    requires
        n <= usize::MAX,
        is_order_by(n, le, order),
    ensures
        sum_at(f, order) == sum_below(f, n),
{
    lemma_order_distinct(n, le, order);
    lemma_sum_at(f, n, order);
}

/// Merge two adjacent runs.
fn merge_runs<K: Key>(
    keys: &Vec<K>,
    left: Vec<usize>,
    right: Vec<usize>,
    Ghost(lo): Ghost<int>,
    Ghost(mid): Ghost<int>,
    Ghost(hi): Ghost<int>,
) -> (out: Vec<usize>)
    requires
        0 <= lo <= mid <= hi <= keys@.len(),
        is_run(keys@, left@, lo, mid),
        is_run(keys@, right@, mid, hi),
    ensures
        is_run(keys@, out@, lo, hi),
{
    let mut out: Vec<usize> = Vec::new();
    let mut i: usize = 0;
    let mut j: usize = 0;
    while i < left.len() || j < right.len()
        invariant
            0 <= lo <= mid <= hi <= keys@.len(),
            is_run(keys@, left@, lo, mid),
            is_run(keys@, right@, mid, hi),
            i <= left@.len(),
            j <= right@.len(),
            out@.len() == i + j,
            forall|k: int| 0 <= k < out@.len() ==> lo <= #[trigger] out@[k] < hi,
            forall|k: int| 0 <= k < i ==> out@.contains(#[trigger] left@[k]),
            forall|k: int| 0 <= k < j ==> out@.contains(#[trigger] right@[k]),
            forall|a: int, b: int|
                0 <= a < b < out@.len() ==> precedes(
                    keys@,
                    #[trigger] out@[a] as int,
                    #[trigger] out@[b] as int,
                ),
            forall|a: int, b: int|
                0 <= a < out@.len() && i <= b < left@.len() ==> precedes(
                    keys@,
                    #[trigger] out@[a] as int,
                    #[trigger] left@[b] as int,
                ),
            forall|a: int, b: int|
                0 <= a < out@.len() && j <= b < right@.len() ==> precedes(
                    keys@,
                    #[trigger] out@[a] as int,
                    #[trigger] right@[b] as int,
                ),
        decreases left@.len() - i + right@.len() - j,
    {
        let ghost before = out@;
        let take_left = j >= right.len() || (i < left.len() && keys[left[i]].no_greater(
            &keys[right[j]],
        ));
        if take_left {
            let x = left[i];
            proof {
                assert forall|b: int| j <= b < right@.len() implies precedes(
                    keys@,
                    x as int,
                    #[trigger] right@[b] as int,
                ) by {
                    assert(precedes(keys@, x as int, right@[j as int] as int));
                    if b > j {
                        lemma_precedes_transitive(
                            keys@,
                            x as int,
                            right@[j as int] as int,
                            right@[b] as int,
                        );
                    }
                }
            }
            out.push(x);
            i += 1;
            assert(out@[before.len() as int] == left@[i - 1]);
        } else {
            let x = right[j];
            proof {
                assert forall|b: int| i <= b < left@.len() implies precedes(
                    keys@,
                    x as int,
                    #[trigger] left@[b] as int,
                ) by {
                    K::total(&keys@[x as int], &keys@[left@[i as int] as int]);
                    assert(precedes(keys@, x as int, left@[i as int] as int));
                    if b > i {
                        lemma_precedes_transitive(
                            keys@,
                            x as int,
                            left@[i as int] as int,
                            left@[b] as int,
                        );
                    }
                }
            }
            out.push(x);
            j += 1;
            assert(out@[before.len() as int] == right@[j - 1]);
        }
        proof {
            assert forall|k: int| 0 <= k < i implies out@.contains(#[trigger] left@[k]) by {
                if before.contains(left@[k]) {
                    let w = choose|w: int| 0 <= w < before.len() && before[w] == left@[k];
                    assert(out@[w] == left@[k]);
                }
            }
            assert forall|k: int| 0 <= k < j implies out@.contains(#[trigger] right@[k]) by {
                if before.contains(right@[k]) {
                    let w = choose|w: int| 0 <= w < before.len() && before[w] == right@[k];
                    assert(out@[w] == right@[k]);
                }
            }
        }
    }
    proof {
        assert forall|x: usize| lo <= x < hi implies #[trigger] out@.contains(x) by {
            if x < mid {
                assert(left@.contains(x));
                let k = choose|k: int| 0 <= k < left@.len() && left@[k] == x;
                assert(out@.contains(left@[k]));
            } else {
                assert(right@.contains(x));
                let k = choose|k: int| 0 <= k < right@.len() && right@[k] == x;
                assert(out@.contains(right@[k]));
            }
        }
    }
    out
}

/// The positions from `lo` up to `hi` in stable order, by merge sort.
fn sort_run<K: Key>(keys: &Vec<K>, lo: usize, hi: usize) -> (out: Vec<usize>)
    requires
        lo <= hi <= keys@.len(),
    ensures
        is_run(keys@, out@, lo as int, hi as int),
    decreases hi - lo,
{
    if hi - lo == 0 {
        Vec::new()
    } else if hi - lo == 1 {
        let mut out: Vec<usize> = Vec::new();
        out.push(lo);
        assert(out@[0] == lo);
        out
    } else {
        let mid: usize = lo + (hi - lo) / 2;
        let left = sort_run(keys, lo, mid);
        let right = sort_run(keys, mid, hi);
        merge_runs(keys, left, right, Ghost(lo as int), Ghost(mid as int), Ghost(hi as int))
    }
}

/// The positions of `keys`, smallest key first, equivalent keys in their
/// original order.
pub fn stable_order<K: Key>(keys: &Vec<K>) -> (order: Vec<usize>)
    ensures
        is_stable_order(keys@, order@),
{
    sort_run(keys, 0, keys.len())
}

/// An order lists every position below `n` once, smaller ones first, and leaves equivalent
/// ones as they were.
pub proof fn law_order(n: nat, le: spec_fn(int, int) -> bool, order: Seq<usize>, i: int, j: int)
    requires
        is_order_by(n, le, order),
        0 <= i < j < n,
    ensures
        order.len() == n,
        order[i] < n,
        order[i] != order[j],
        le(order[i] as int, order[j] as int),
        le(order[j] as int, order[i] as int) ==> order[i] < order[j],
        i <= usize::MAX ==> exists|k: int| 0 <= k < n && order[k] == i,
{
    assert(comes_before(le, order[i] as int, order[j] as int));
    if order[i] == order[j] {
        assert(le(order[i] as int, order[i] as int));
    }
    if i <= usize::MAX {
        assert(order.contains(i as usize));
    }
}

} // verus!
