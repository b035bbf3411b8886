use vstd::prelude::*;
use vstd::set_lib::{lemma_int_range, lemma_len_subset, set_int_range};
use crate::pgraph::{
    graph_edges, graph_nodes, node_count, node_weight, out_degree, out_degree_of, ProductGraph,
    INDEX_LIMIT,
};

verus! {

/// A sequence of machine integers read as mathematical integers.
pub open spec fn as_ints(v: Seq<usize>) -> Seq<int> {
    v.map_values(|d: usize| d as int)
}

/// The out-degree of every node of `g`, in node-index order.
pub open spec fn out_degrees(g: ProductGraph) -> Seq<int> {
    Seq::new(graph_nodes(g).len(), |i: int| out_degree_of(graph_edges(g), i) as int)
}

/// The out-degree of every node of the graph, in node-index order.
pub fn node_out_degrees(graph: &ProductGraph) -> (r: Vec<usize>)
    requires
        graph_nodes(*graph).len() <= INDEX_LIMIT,
    ensures
        as_ints(r@) == out_degrees(*graph),
{
    let n = node_count(graph);
    let mut r: Vec<usize> = Vec::new();
    let mut i: usize = 0;
    while i < n
        invariant
            n == graph_nodes(*graph).len(),
            n <= INDEX_LIMIT,
            i <= n,
            r@.len() == i,
            as_ints(r@) == out_degrees(*graph).take(i as int),
        decreases n - i,
    {
        let d = out_degree(graph, i);
        let ghost before = r@;
        r.push(d);
        assert forall|j: int| 0 <= j <= i implies as_ints(r@)[j] == out_degrees(*graph).take(
            i + 1,
        )[j] by {
            if j < i {
                assert(r@[j] == before[j]);
                assert(as_ints(before)[j] == out_degrees(*graph).take(i as int)[j]);
            }
        }
        assert(as_ints(r@) =~= out_degrees(*graph).take(i + 1));
        i = i + 1;
    }
    assert(out_degrees(*graph).take(n as int) =~= out_degrees(*graph));
    r
}

/// How many entries of `degs` equal `d`.
pub open spec fn tally(degs: Seq<int>, d: int) -> nat
    decreases degs.len(),
{
    if degs.len() == 0 {
        0
    } else {
        tally(degs.drop_last(), d) + if degs.last() == d {
            1nat
        } else {
            0nat
        }
    }
}

/// The sum of the counts of a distribution.
pub open spec fn count_sum(r: Seq<(usize, usize)>) -> int
    decreases r.len(),
{
    if r.len() == 0 {
        0
    } else {
        count_sum(r.drop_last()) + r.last().1
    }
}

/// `r` lists each distinct value of `degs` once, in increasing order, with
/// the number of entries of `degs` that hold it.
pub open spec fn is_distribution(degs: Seq<int>, r: Seq<(usize, usize)>) -> bool {
    &&& forall|i: int, j: int| 0 <= i < j < r.len() ==> r[i].0 < r[j].0
    &&& forall|i: int|
        0 <= i < r.len() ==> r[i].1 > 0 && r[i].1 == tally(degs, r[i].0 as int)
    &&& forall|m: int|
        0 <= m < degs.len() ==> exists|i: int| 0 <= i < r.len() && (#[trigger] r[i]).0 == #[trigger] degs[m]
}

proof fn lemma_tally_le(degs: Seq<int>, d: int)
    ensures
        tally(degs, d) <= degs.len(),
    decreases degs.len(),
{
    if degs.len() > 0 {
        lemma_tally_le(degs.drop_last(), d);
    }
}

/// A value with a positive tally occurs in the sequence.
pub proof fn lemma_tally_witness(degs: Seq<int>, d: int)
    requires
        tally(degs, d) > 0,
    ensures
        exists|m: int| 0 <= m < degs.len() && degs[m] == d,
    decreases degs.len(),
{
    if degs.last() != d {
        lemma_tally_witness(degs.drop_last(), d);
        let m = choose|m: int| 0 <= m < degs.drop_last().len() && degs.drop_last()[m] == d;
        assert(degs[m] == d);
    }
}

proof fn lemma_count_sum_update(r: Seq<(usize, usize)>, p: int, x: (usize, usize))
    requires
        0 <= p < r.len(),
    ensures
        count_sum(r.update(p, x)) == count_sum(r) - r[p].1 + x.1,
    decreases r.len(),
{
    if p == r.len() - 1 {
        assert(r.update(p, x).drop_last() =~= r.drop_last());
    } else {
        lemma_count_sum_update(r.drop_last(), p, x);
        assert(r.update(p, x).drop_last() =~= r.drop_last().update(p, x));
    }
}

proof fn lemma_count_sum_insert(r: Seq<(usize, usize)>, p: int, x: (usize, usize))
    requires
        0 <= p <= r.len(),
    ensures
        count_sum(r.insert(p, x)) == count_sum(r) + x.1,
    decreases r.len(),
{
    if p == r.len() {
        assert(r.insert(p, x).drop_last() =~= r);
    } else {
        lemma_count_sum_insert(r.drop_last(), p, x);
        assert(r.insert(p, x).drop_last() =~= r.drop_last().insert(p, x));
    }
}

/// Tallies the values of `degs`: each distinct value once, in increasing
/// order, with the number of entries that hold it. The counts add up to the
/// number of entries.
pub fn degree_counts(degs: &Vec<usize>) -> (r: Vec<(usize, usize)>)
    ensures
        is_distribution(as_ints(degs@), r@),
        count_sum(r@) == degs@.len(),
{
    let ghost all = as_ints(degs@);
    let mut r: Vec<(usize, usize)> = Vec::new();
    let mut n: usize = 0;
    assert(all.take(0) =~= Seq::<int>::empty());
    while n < degs.len()
        invariant
            all == as_ints(degs@),
            n <= degs@.len(),
            is_distribution(all.take(n as int), r@),
            count_sum(r@) == n,
        decreases degs@.len() - n,
    {
        let d = degs[n];
        let ghost prev = all.take(n as int);
        let ghost next = all.take(n + 1);
        let ghost old_r = r@;
        assert(next.drop_last() =~= prev);
        assert(next.last() == d as int);
        let mut p: usize = 0;
        while p < r.len() && r[p].0 < d
            invariant
                r@ == old_r,
                p <= r@.len(),
                forall|i: int| 0 <= i < p ==> r@[i].0 < d,
            decreases r@.len() - p,
        {
            p = p + 1;
        }
        if p < r.len() && r[p].0 == d {
            let c = r[p].1;
            proof {
                lemma_tally_le(prev, d as int);
                lemma_count_sum_update(old_r, p as int, (d, (c + 1) as usize));
            }
            r.set(p, (d, c + 1));
            assert forall|m: int| 0 <= m < next.len() implies exists|i: int|
                0 <= i < r@.len() && (#[trigger] r@[i]).0 == #[trigger] next[m] by {
                if m < prev.len() {
                    assert(next[m] == prev[m]);
                    let i = choose|i: int| 0 <= i < old_r.len() && old_r[i].0 == prev[m];
                    assert(r@[i].0 == next[m]);
                } else {
                    assert(r@[p as int].0 == next[m]);
                }
            }
        } else {
            proof {
                if tally(prev, d as int) > 0 {
                    lemma_tally_witness(prev, d as int);
                    let m = choose|m: int| 0 <= m < prev.len() && prev[m] == d as int;
                    let i = choose|i: int| 0 <= i < old_r.len() && old_r[i].0 == prev[m];
                    if i >= p {
                        assert(old_r[p as int].0 <= old_r[i].0);
                    }
                }
                lemma_count_sum_insert(old_r, p as int, (d, 1));
            }
            r.insert(p, (d, 1));
            assert forall|m: int| 0 <= m < next.len() implies exists|i: int|
                0 <= i < r@.len() && (#[trigger] r@[i]).0 == #[trigger] next[m] by {
                if m < prev.len() {
                    assert(next[m] == prev[m]);
                    let i = choose|i: int| 0 <= i < old_r.len() && old_r[i].0 == prev[m];
                    if i < p {
                        assert(r@[i].0 == next[m]);
                    } else {
                        assert(r@[i + 1].0 == next[m]);
                    }
                } else {
                    assert(r@[p as int].0 == next[m]);
                }
            }
        }
        n = n + 1;
    }
    assert(all.take(n as int) =~= all);
    r
}

/// The degree distribution of the graph: each distinct out-degree once, in
/// increasing order, with the number of nodes that have it. The counts add
/// up to the number of nodes, so the shares `100 * count / nodes` add up to
/// 100; an empty graph gives an empty distribution.
pub fn analyze_degree_distribution(graph: &ProductGraph) -> (r: Vec<(usize, usize)>)
    requires
        graph_nodes(*graph).len() <= INDEX_LIMIT,
    ensures
        is_distribution(out_degrees(*graph), r@),
        count_sum(r@) == graph_nodes(*graph).len(),
        graph_nodes(*graph).len() == 0 ==> r@.len() == 0,
{
    let degs = node_out_degrees(graph);
    let r = degree_counts(&degs);
    assert(as_ints(degs@).len() == degs@.len());
    if r.len() > 0 {
        assert(r@[0].1 == tally(out_degrees(*graph), r@[0].0 as int));
    }
    r
}

/// Node `i` comes before node `j` in the ranking: it has the larger
/// out-degree, or the same one and was created first.
pub open spec fn ranks_before(degs: Seq<int>, i: int, j: int) -> bool {
    degs[i] > degs[j] || (degs[i] == degs[j] && i < j)
}

/// `idx` is the first `min(limit, degs.len())` nodes of the ranking by
/// descending out-degree, ties kept in creation order.
pub open spec fn is_top_ranking(degs: Seq<int>, limit: int, idx: Seq<int>) -> bool {
    &&& idx.len() == if limit < degs.len() {
        limit
    } else {
        degs.len() as int
    }
    &&& forall|k: int| 0 <= k < idx.len() ==> 0 <= #[trigger] idx[k] < degs.len()
    &&& forall|a: int, b: int|
        0 <= a < b < idx.len() ==> ranks_before(degs, #[trigger] idx[a], #[trigger] idx[b])
    &&& forall|j: int, k: int|
        0 <= j < degs.len() && 0 <= k < idx.len() && #[trigger] ranks_before(degs, j, idx[k])
            ==> idx.contains(j)
}

/// Node `c` may still be ranked after `last`, the node ranked last so far.
spec fn still_open(ds: Seq<int>, has_last: bool, last: int, c: int) -> bool {
    !has_last || ranks_before(ds, last, c)
}

/// The indices of the `limit` nodes with the largest values in `degs`,
/// largest first, equal values in index order.
pub fn rank_by_degree(degs: &Vec<usize>, limit: usize) -> (r: Vec<usize>)
    ensures
        is_top_ranking(as_ints(degs@), limit as int, as_ints(r@)),
{
    let ghost ds = as_ints(degs@);
    let n = degs.len();
    let mut r: Vec<usize> = Vec::new();
    while r.len() < limit && r.len() < n
        invariant
            ds == as_ints(degs@),
            n == degs@.len(),
            r@.len() <= limit,
            r@.len() <= n,
            forall|k: int| 0 <= k < r@.len() ==> #[trigger] r@[k] < n,
            forall|a: int, b: int|
                0 <= a < b < r@.len() ==> ranks_before(ds, #[trigger] r@[a] as int, #[trigger] r@[b] as int),
            forall|j: int, k: int|
                0 <= j < n && 0 <= k < r@.len() && #[trigger] ranks_before(ds, j, r@[k] as int)
                    ==> as_ints(r@).contains(j),
            r@.len() > 0 ==> forall|j: int|
                0 <= j < n && !as_ints(r@).contains(j) ==> ranks_before(ds, r@.last() as int, j),
        decreases n - r@.len(),
    {
        let ghost old_r = as_ints(r@);
        let has_last = r.len() > 0;
        let last: usize = if has_last { r[r.len() - 1] } else { 0 };
        assert(has_last ==> last < n);
        let mut best: usize = n;
        let mut j: usize = 0;
        while j < n
            invariant
                ds == as_ints(degs@),
                n == degs@.len(),
                old_r == as_ints(r@),
                has_last == (r@.len() > 0),
                has_last ==> last == r@.last(),
                has_last ==> last < n,
                j <= n,
                best == n || best < j,
                best < n ==> still_open(ds, has_last, last as int, best as int),
                forall|c: int|
                    0 <= c < j && #[trigger] still_open(ds, has_last, last as int, c) ==> best < n
                        && (c == best || ranks_before(ds, best as int, c)),
            decreases n - j,
        {
            assert(ds[j as int] == degs@[j as int] as int);
            if has_last {
                assert(ds[last as int] == degs@[last as int] as int);
            }
            assert(best < n ==> ds[best as int] == degs@[best as int] as int);
            let cand = !has_last || degs[last] > degs[j] || (degs[last] == degs[j] && last < j);
            assert(cand == still_open(ds, has_last, last as int, j as int));
            if cand && (best == n || degs[j] > degs[best] || (degs[j] == degs[best] && j < best)) {
                best = j;
            }
            j = j + 1;
        }
        proof {
            // Some node is still missing from the ranking, so a candidate exists.
            if best == n {
                assert forall|x: int| set_int_range(0, n as int).contains(x) implies old_r.to_set().contains(x) by {
                        if !old_r.contains(x) {
                        assert(has_last ==> ranks_before(ds, last as int, x));
                        assert(still_open(ds, has_last, last as int, x));
                    }
                }
                lemma_int_range(0, n as int);
                old_r.lemma_cardinality_of_set();
                lemma_len_subset(set_int_range(0, n as int), old_r.to_set());
                assert(false);
            }
        }
        r.push(best);
        proof {
            let new_r = as_ints(r@);
            assert(new_r =~= old_r.push(best as int));
            assert forall|j: int, k: int|
                0 <= j < n && 0 <= k < r@.len() && #[trigger] ranks_before(ds, j, r@[k] as int)
                    implies new_r.contains(j) by {
                if k < old_r.len() {
                    assert(r@[k] as int == old_r[k]);
                    let w = choose|w: int| 0 <= w < old_r.len() && old_r[w] == j;
                    assert(new_r[w] == j);
                } else if !old_r.contains(j) {
                    assert(still_open(ds, has_last, last as int, j));
                    assert(j == best || ranks_before(ds, best as int, j));
                    assert(false);
                } else {
                    let w = choose|w: int| 0 <= w < old_r.len() && old_r[w] == j;
                    assert(new_r[w] == j);
                }
            }
            assert forall|x: int| 0 <= x < n && !new_r.contains(x) implies ranks_before(
                ds,
                r@.last() as int,
                x,
            ) by {
                assert(new_r[old_r.len() as int] == best as int);
                if !old_r.contains(x) {
                    assert(x != best);
                    assert(still_open(ds, has_last, last as int, x));
                } else {
                    let w = choose|w: int| 0 <= w < old_r.len() && old_r[w] == x;
                    assert(new_r[w] == x);
                }
            }
        }
    }
    r
}

/// The `limit` nodes with the most outgoing edges, as (identifier, display
/// name, out-degree), largest first; nodes of equal out-degree keep their
/// creation order. Fewer than `limit` nodes give all of them.
pub fn find_highly_connected_nodes(graph: &ProductGraph, limit: usize) -> (r: Vec<(String, String, usize)>)
    requires
        graph_nodes(*graph).len() <= INDEX_LIMIT,
    ensures
        r@.len() == if (limit as int) < graph_nodes(*graph).len() {
            limit as int
        } else {
            graph_nodes(*graph).len() as int
        },
        exists|idx: Seq<int>|
            {
                &&& is_top_ranking(out_degrees(*graph), limit as int, idx)
                &&& r@.len() == idx.len()
                &&& forall|k: int|
                    0 <= k < idx.len() ==> {
                        &&& (#[trigger] r@[k]).0@ == graph_nodes(*graph)[idx[k]].0
                        &&& r@[k].1@ == graph_nodes(*graph)[idx[k]].1
                        &&& r@[k].2 as int == out_degrees(*graph)[idx[k]]
                    }
            },
{
    let degs = node_out_degrees(graph);
    let order = rank_by_degree(&degs, limit);
    let ghost idx = as_ints(order@);
    let mut r: Vec<(String, String, usize)> = Vec::new();
    let mut k: usize = 0;
    while k < order.len()
        invariant
            idx == as_ints(order@),
            graph_nodes(*graph).len() <= INDEX_LIMIT,
            as_ints(degs@) == out_degrees(*graph),
            is_top_ranking(out_degrees(*graph), limit as int, idx),
            k <= order@.len(),
            r@.len() == k,
            forall|m: int|
                0 <= m < k ==> {
                    &&& (#[trigger] r@[m]).0@ == graph_nodes(*graph)[idx[m]].0
                    &&& r@[m].1@ == graph_nodes(*graph)[idx[m]].1
                    &&& r@[m].2 as int == out_degrees(*graph)[idx[m]]
                },
        decreases order@.len() - k,
    {
        let i = order[k];
        assert(idx[k as int] == i as int);
        let w = node_weight(graph, i);
        assert(as_ints(degs@)[i as int] == degs@[i as int] as int);
        r.push((w.0.clone(), w.1.clone(), degs[i]));
        k = k + 1;
    }
    r
}

} // verus!
