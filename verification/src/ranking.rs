//! Ordering items by how often they occur: most frequent first, and among
//! equally frequent items the one seen first.

use vstd::prelude::*;

verus! {

/// A sequence of machine counts read as integers.
pub open spec fn as_ints(v: Seq<usize>) -> Seq<int> {
    v.map_values(|x: usize| x as int)
}

/// Item `i` ranks before item `j`: it has the larger count, or the same count
/// and the smaller index.
pub open spec fn precedes(counts: Seq<int>, i: int, j: int) -> bool {
    counts[i] > counts[j] || (counts[i] == counts[j] && i < j)
}

/// `order` lists every index of `counts` exactly once, each index ranking
/// before all the indices that follow it.
pub open spec fn is_ranking(order: Seq<int>, counts: Seq<int>) -> bool {
    &&& order.no_duplicates()
    &&& forall|v: int| order.contains(v) <==> 0 <= v < counts.len()
    &&& forall|a: int, b: int|
        0 <= a < b < order.len() ==> precedes(counts, #[trigger] order[a], #[trigger] order[b])
}

/// The ranking of the indices of `counts` (there is exactly one, see
/// [`lemma_ranking_unique`]).
pub open spec fn ranking(counts: Seq<int>) -> Seq<int> {
    choose|order: Seq<int>| is_ranking(order, counts)
}

/// Two duplicate-free sequences with the same elements, both strictly ordered
/// by `precedes`, are equal.
proof fn lemma_sorted_unique(o1: Seq<int>, o2: Seq<int>, counts: Seq<int>)
    requires
        o1.no_duplicates(),
        o2.no_duplicates(),
        forall|v: int| o1.contains(v) <==> o2.contains(v),
        forall|a: int, b: int|
            0 <= a < b < o1.len() ==> precedes(counts, #[trigger] o1[a], #[trigger] o1[b]),
        forall|a: int, b: int|
            0 <= a < b < o2.len() ==> precedes(counts, #[trigger] o2[a], #[trigger] o2[b]),
    ensures
        o1 == o2,
    decreases o1.len(),
{
    if o1.len() == 0 {
        if o2.len() > 0 {
            assert(o2.contains(o2[0]));
        }
        assert(o1 =~= o2);
    } else {
        assert(o1.contains(o1[0]));
        assert(o2.len() > 0);
        let x = o1[0];
        let y = o2[0];
        if x != y {
            assert(o2.contains(y));
            let a = choose|a: int| 0 <= a < o1.len() && o1[a] == y;
            assert(precedes(counts, o1[0], o1[a]));
            let b = choose|b: int| 0 <= b < o2.len() && o2[b] == x;
            assert(precedes(counts, o2[0], o2[b]));
        }
        let r1 = o1.drop_first();
        let r2 = o2.drop_first();
        assert forall|v: int| r1.contains(v) <==> r2.contains(v) by {
            if r1.contains(v) {
                let a = choose|a: int| 0 <= a < r1.len() && r1[a] == v;
                assert(o1[a + 1] == v);
                assert(o1.contains(v));
                let b = choose|b: int| 0 <= b < o2.len() && o2[b] == v;
                assert(b != 0);
                assert(r2[b - 1] == v);
            }
            if r2.contains(v) {
                let b = choose|b: int| 0 <= b < r2.len() && r2[b] == v;
                assert(o2[b + 1] == v);
                assert(o2.contains(v));
                let a = choose|a: int| 0 <= a < o1.len() && o1[a] == v;
                assert(a != 0);
                assert(r1[a - 1] == v);
            }
        }
        assert forall|a: int, b: int| 0 <= a < b < r1.len() implies precedes(
            counts,
            #[trigger] r1[a],
            #[trigger] r1[b],
        ) by {
            assert(precedes(counts, o1[a + 1], o1[b + 1]));
        }
        assert forall|a: int, b: int| 0 <= a < b < r2.len() implies precedes(
            counts,
            #[trigger] r2[a],
            #[trigger] r2[b],
        ) by {
            assert(precedes(counts, o2[a + 1], o2[b + 1]));
        }
        lemma_sorted_unique(r1, r2, counts);
        assert(o1 =~= o2) by {
            assert forall|k: int| 0 <= k < o1.len() implies o1[k] == o2[k] by {
                if k > 0 {
                    assert(r1[k - 1] == r2[k - 1]);
                }
            }
        }
    }
}

/// A sequence of counts has only one ranking.
pub proof fn lemma_ranking_unique(o1: Seq<int>, o2: Seq<int>, counts: Seq<int>)
    requires
        is_ranking(o1, counts),
        is_ranking(o2, counts),
    ensures
        o1 == o2,
{
    lemma_sorted_unique(o1, o2, counts);
}

/// Any ranking is the ranking.
pub proof fn lemma_is_the_ranking(order: Seq<int>, counts: Seq<int>)
    requires
        is_ranking(order, counts),
    ensures
        ranking(counts) == order,
        order.len() == counts.len(),
{
    lemma_ranking_unique(ranking(counts), order, counts);
    lemma_ranking_len(order, counts);
}

/// A ranking has one entry per count.
proof fn lemma_ranking_len(order: Seq<int>, counts: Seq<int>)
    requires
        is_ranking(order, counts),
    ensures
        order.len() == counts.len(),
{
    let ids = Seq::new(counts.len(), |i: int| i);
    assert(ids.no_duplicates());
    order.unique_seq_to_set();
    ids.unique_seq_to_set();
    assert(order.to_set() =~= ids.to_set()) by {
        assert forall|v: int| order.to_set().contains(v) <==> ids.to_set().contains(v) by {
            if 0 <= v < counts.len() {
                assert(ids[v] == v);
            }
        }
    }
}

/// `order` is duplicate-free and strictly ordered by `precedes`.
spec fn is_ranked(order: Seq<int>, counts: Seq<int>) -> bool {
    &&& order.no_duplicates()
    &&& forall|a: int, b: int|
        0 <= a < b < order.len() ==> precedes(counts, #[trigger] order[a], #[trigger] order[b])
}

/// `order` with `x` put in its place: after every element that ranks before it.
spec fn rank_insert(order: Seq<int>, counts: Seq<int>, x: int) -> Seq<int>
    decreases order.len(),
{
    if order.len() == 0 {
        seq![x]
    } else if precedes(counts, order.last(), x) {
        order.push(x)
    } else {
        rank_insert(order.drop_last(), counts, x).push(order.last())
    }
}

/// Putting a new element in its place keeps the order ranked.
proof fn lemma_rank_insert(order: Seq<int>, counts: Seq<int>, x: int)
    requires
        is_ranked(order, counts),
        !order.contains(x),
    ensures
        is_ranked(rank_insert(order, counts, x), counts),
        forall|v: int| rank_insert(order, counts, x).contains(v) <==> (order.contains(v) || v == x),
        rank_insert(order, counts, x).len() == order.len() + 1,
    decreases order.len(),
{
    let r = rank_insert(order, counts, x);
    if order.len() == 0 {
        assert forall|v: int| r.contains(v) <==> (order.contains(v) || v == x) by {
            if v == x {
                assert(r[0] == x);
            }
        }
    } else if precedes(counts, order.last(), x) {
        assert forall|a: int, b: int| 0 <= a < b < r.len() implies precedes(
            counts,
            #[trigger] r[a],
            #[trigger] r[b],
        ) by {
            if b == order.len() {
                if a < order.len() - 1 {
                    assert(precedes(counts, order[a], order[order.len() - 1]));
                }
            } else {
                assert(precedes(counts, order[a], order[b]));
            }
        }
        assert forall|a: int, b: int|
            0 <= a < r.len() && 0 <= b < r.len() && a != b implies r[a] != r[b] by {
            if a == order.len() {
                assert(order.contains(order[b]));
            } else if b == order.len() {
                assert(order.contains(order[a]));
            }
        }
        assert forall|v: int| r.contains(v) <==> (order.contains(v) || v == x) by {
            if r.contains(v) {
                let k = choose|k: int| 0 <= k < r.len() && r[k] == v;
                if k < order.len() {
                    assert(order[k] == v);
                }
            }
            if order.contains(v) {
                let k = choose|k: int| 0 <= k < order.len() && order[k] == v;
                assert(r[k] == v);
            }
            if v == x {
                assert(r[order.len() as int] == v);
            }
        }
    } else {
        let rest = order.drop_last();
        let last = order.last();
        assert forall|a: int, b: int| 0 <= a < b < rest.len() implies precedes(
            counts,
            #[trigger] rest[a],
            #[trigger] rest[b],
        ) by {
            assert(precedes(counts, order[a], order[b]));
        }
        assert(!rest.contains(x)) by {
            if rest.contains(x) {
                let k = choose|k: int| 0 <= k < rest.len() && rest[k] == x;
                assert(order[k] == x);
            }
        }
        lemma_rank_insert(rest, counts, x);
        let inner = rank_insert(rest, counts, x);
        assert(order[order.len() - 1] == last);
        assert(order.contains(last));
        assert(last != x);
        assert forall|a: int| 0 <= a < inner.len() implies precedes(
            counts,
            #[trigger] inner[a],
            last,
        ) by {
            assert(inner.contains(inner[a]));
            if inner[a] != x {
                assert(rest.contains(inner[a]));
                let k = choose|k: int| 0 <= k < rest.len() && rest[k] == inner[a];
                assert(precedes(counts, order[k], order[order.len() - 1]));
            }
        }
        assert forall|a: int, b: int| 0 <= a < b < r.len() implies precedes(
            counts,
            #[trigger] r[a],
            #[trigger] r[b],
        ) by {
            if b == inner.len() {
                assert(precedes(counts, inner[a], last));
            } else {
                assert(precedes(counts, inner[a], inner[b]));
            }
        }
        assert forall|v: int| r.contains(v) <==> (order.contains(v) || v == x) by {
            lemma_contains_int_drop_last(order, v);
            if r.contains(v) {
                let k = choose|k: int| 0 <= k < r.len() && r[k] == v;
                if k < inner.len() {
                    assert(inner[k] == v);
                    assert(inner.contains(v));
                }
            }
            if inner.contains(v) {
                let k = choose|k: int| 0 <= k < inner.len() && inner[k] == v;
                assert(r[k] == v);
            }
            if v == last {
                assert(r[inner.len() as int] == v);
            }
        }
        assert forall|a: int, b: int|
            0 <= a < r.len() && 0 <= b < r.len() && a != b implies r[a] != r[b] by {
            if a == inner.len() {
                assert(inner.contains(inner[b]));
                assert(precedes(counts, inner[b], last));
            } else if b == inner.len() {
                assert(inner.contains(inner[a]));
                assert(precedes(counts, inner[a], last));
            } else {
                assert(inner[a] != inner[b]);
            }
        }
    }
}

/// `s` holds `v` exactly when `s` without its last element holds it or the last element is `v`.
proof fn lemma_contains_int_drop_last(s: Seq<int>, v: int)
    requires
        s.len() > 0,
    ensures
        s.contains(v) <==> (s.drop_last().contains(v) || s.last() == v),
{
    if s.contains(v) {
        let i = choose|i: int| 0 <= i < s.len() && s[i] == v;
        if i < s.len() - 1 {
            assert(s.drop_last()[i] == v);
        }
    }
    if s.drop_last().contains(v) {
        let i = choose|i: int| 0 <= i < s.drop_last().len() && s.drop_last()[i] == v;
        assert(s[i] == v);
    }
    if s.last() == v {
        assert(s[s.len() - 1] == v);
    }
}

/// A ranked order of the indices below `n`.
proof fn lemma_ranking_upto(counts: Seq<int>, n: int) -> (order: Seq<int>)
    requires
        0 <= n,
    ensures
        is_ranked(order, counts),
        forall|v: int| order.contains(v) <==> 0 <= v < n,
    decreases n,
{
    if n == 0 {
        let e = Seq::<int>::empty();
        assert forall|v: int| e.contains(v) <==> 0 <= v < n by {
            if e.contains(v) {
                let k = choose|k: int| 0 <= k < e.len() && e[k] == v;
            }
        }
        e
    } else {
        let prev = lemma_ranking_upto(counts, n - 1);
        lemma_rank_insert(prev, counts, n - 1);
        let r = rank_insert(prev, counts, n - 1);
        assert forall|v: int| r.contains(v) <==> 0 <= v < n by {
            assert(r.contains(v) <==> (prev.contains(v) || v == n - 1));
        }
        r
    }
}

/// Every sequence of counts has its ranking.
pub proof fn lemma_ranking_exists(counts: Seq<int>)
    ensures
        is_ranking(ranking(counts), counts),
        ranking(counts).len() == counts.len(),
{
    let order = lemma_ranking_upto(counts, counts.len() as int);
    assert(is_ranking(order, counts));
    lemma_is_the_ranking(order, counts);
}

/// The ranking lists the counts from the largest down.
pub proof fn lemma_ranking_by_count(counts: Seq<int>)
    ensures
        forall|a: int, b: int|
            0 <= a < b < counts.len() ==> counts[#[trigger] ranking(counts)[a]] >= counts[
                #[trigger] ranking(counts)[b]
            ],
        forall|a: int|
            0 <= a < counts.len() ==> 0 <= #[trigger] ranking(counts)[a] < counts.len(),
        forall|i: int|
            0 <= i < counts.len() ==> counts[ranking(counts)[0]] >= #[trigger] counts[i],
{
    lemma_ranking_exists(counts);
    let order = ranking(counts);
    assert forall|a: int| 0 <= a < counts.len() implies 0 <= #[trigger] order[a]
        < counts.len() by {
        assert(order.contains(order[a]));
    }
    assert forall|i: int| 0 <= i < counts.len() implies counts[order[0]] >= #[trigger] counts[i] by {
        assert(order.contains(i));
        let k = choose|k: int| 0 <= k < order.len() && order[k] == i;
        if k > 0 {
            assert(precedes(counts, order[0], order[k]));
        }
    }
}

/// Ranks the indices of `counts`: the largest count first, equal counts in index order.
pub fn rank_by_count(counts: &Vec<usize>) -> (order: Vec<usize>)
    ensures
        as_ints(order@) == ranking(as_ints(counts@)),
        is_ranking(as_ints(order@), as_ints(counts@)),
        order@.len() == counts@.len(),
{
    let ghost c = as_ints(counts@);
    let mut order: Vec<usize> = Vec::new();
    let mut i: usize = 0;
    while i < counts.len()
        invariant
            c == as_ints(counts@),
            i <= counts.len(),
            order@.len() == i,
            forall|a: int| 0 <= a < order@.len() ==> order@[a] < i,
            as_ints(order@).no_duplicates(),
            forall|v: int| as_ints(order@).contains(v) <==> 0 <= v < i,
            forall|a: int, b: int|
                0 <= a < b < order@.len() ==> precedes(
                    c,
                    #[trigger] as_ints(order@)[a],
                    #[trigger] as_ints(order@)[b],
                ),
        decreases counts.len() - i,
    {
        let ghost old_order = as_ints(order@);
        let mut p: usize = 0;
        while p < order.len() && counts[order[p]] >= counts[i]
            invariant
                old_order == as_ints(order@),
                c == as_ints(counts@),
                i < counts.len(),
                order@.len() == i,
                forall|a: int| 0 <= a < order@.len() ==> order@[a] < i,
                p <= order@.len(),
                forall|v: int| old_order.contains(v) <==> 0 <= v < i,
                forall|a: int| 0 <= a < p ==> c[#[trigger] old_order[a]] >= c[i as int],
            decreases order@.len() - p,
        {
            assert(old_order.contains(old_order[p as int]));
            p = p + 1;
        }
        proof {
            if p < order.len() {
                assert(c[old_order[p as int]] < c[i as int]);
            }
        }
        order.insert(p, i);
        let ghost new_order = as_ints(order@);
        assert(new_order =~= old_order.insert(p as int, i as int));
        assert forall|v: int| new_order.contains(v) <==> 0 <= v < i + 1 by {
            if new_order.contains(v) {
                let k = choose|k: int| 0 <= k < new_order.len() && new_order[k] == v;
                if k < p {
                    assert(old_order[k] == v);
                    assert(old_order.contains(v));
                } else if k > p {
                    assert(old_order[k - 1] == v);
                    assert(old_order.contains(v));
                }
            }
            if 0 <= v < i {
                assert(old_order.contains(v));
                let k = choose|k: int| 0 <= k < old_order.len() && old_order[k] == v;
                if k < p {
                    assert(new_order[k] == v);
                } else {
                    assert(new_order[k + 1] == v);
                }
            }
            if v == i {
                assert(new_order[p as int] == v);
            }
        }
        assert forall|a: int, b: int|
            0 <= a < new_order.len() && 0 <= b < new_order.len() && a != b implies new_order[a]
            != new_order[b] by {
            if a == p {
                if b < p {
                    assert(old_order.contains(old_order[b]));
                } else {
                    assert(old_order.contains(old_order[b - 1]));
                }
            } else if b == p {
                if a < p {
                    assert(old_order.contains(old_order[a]));
                } else {
                    assert(old_order.contains(old_order[a - 1]));
                }
            }
        }
        assert forall|a: int, b: int| 0 <= a < b < new_order.len() implies precedes(
            c,
            #[trigger] new_order[a],
            #[trigger] new_order[b],
        ) by {
            if b < p {
                assert(precedes(c, old_order[a], old_order[b]));
            } else if b == p {
                assert(old_order.contains(old_order[a]));
                assert(c[old_order[a]] >= c[i as int]);
            } else if a > p {
                assert(precedes(c, old_order[a - 1], old_order[b - 1]));
            } else {
                // b > p and a <= p: the element at p failed the scan
                if b - 1 > p {
                    assert(precedes(c, old_order[p as int], old_order[b - 1]));
                }
                if a < p {
                    assert(precedes(c, old_order[a], old_order[b - 1]));
                }
            }
        }
        assert forall|a: int| 0 <= a < order@.len() implies order@[a] < i + 1 by {
            assert(new_order[a] == order@[a] as int);
            assert(new_order.contains(new_order[a]));
        }
        i = i + 1;
    }
    proof {
        lemma_is_the_ranking(as_ints(order@), c);
    }
    order
}

} // verus!
