use vstd::prelude::*;
use crate::degree::{is_distribution, is_top_ranking, lemma_tally_witness, out_degrees, ranks_before};
use crate::graph::{edges_upto, model_edges, ref_edges, source_of};
use crate::index::resolve;
use crate::pgraph::{graph_edges, graph_nodes, ProductGraph};
use crate::product::{ids_of, refs_of, total_refs, weights_of, Product};

verus! {

/// Every reference of every product names a known identifier.
pub open spec fn all_refs_resolve(ps: Seq<Product>) -> bool {
    forall|i: int, k: int|
        0 <= i < ps.len() && 0 <= k < refs_of(ps[i]).len() ==> (#[trigger] resolve(
            ids_of(ps),
            refs_of(ps[i])[k],
        )) is Some
}

proof fn lemma_ref_edges_count(ids: Seq<Seq<char>>, src: int, refs: Seq<Seq<char>>)
    ensures
        ref_edges(ids, src, refs).len() <= refs.len(),
        ref_edges(ids, src, refs).len() == refs.len() <==> forall|k: int|
            0 <= k < refs.len() ==> (#[trigger] resolve(ids, refs[k])) is Some,
    decreases refs.len(),
{
    if refs.len() > 0 {
        let init = refs.drop_last();
        lemma_ref_edges_count(ids, src, init);
        if ref_edges(ids, src, refs).len() == refs.len() {
            assert forall|k: int| 0 <= k < refs.len() implies (#[trigger] resolve(ids, refs[k])) is Some by {
                if k < init.len() {
                    assert(init[k] == refs[k]);
                }
            }
        }
        if forall|k: int| 0 <= k < refs.len() ==> (#[trigger] resolve(ids, refs[k])) is Some {
            assert(resolve(ids, refs[refs.len() - 1]) is Some);
            assert forall|k: int| 0 <= k < init.len() implies (#[trigger] resolve(ids, init[k])) is Some by {
                assert(init[k] == refs[k]);
            }
        }
    }
}

proof fn lemma_edges_upto_count(ps: Seq<Product>, n: int)
    requires
        0 <= n <= ps.len(),
    ensures
        edges_upto(ps, n).len() <= total_refs(ps, n),
        edges_upto(ps, n).len() == total_refs(ps, n) <==> forall|i: int, k: int|
            0 <= i < n && 0 <= k < refs_of(ps[i]).len() ==> (#[trigger] resolve(
                ids_of(ps),
                refs_of(ps[i])[k],
            )) is Some,
    decreases n,
{
    if n > 0 {
        let ids = ids_of(ps);
        let refs = refs_of(ps[n - 1]);
        lemma_edges_upto_count(ps, n - 1);
        lemma_ref_edges_count(ids, source_of(ps, n - 1), refs);
        assert(refs.len() == ps[n - 1].similar@.len());
        if forall|i: int, k: int|
            0 <= i < n && 0 <= k < refs_of(ps[i]).len() ==> (#[trigger] resolve(
                ids,
                refs_of(ps[i])[k],
            )) is Some {
            assert forall|k: int| 0 <= k < refs.len() implies (#[trigger] resolve(ids, refs[k])) is Some by {
                assert(resolve(ids, refs_of(ps[n - 1])[k]) is Some);
            }
        }
    }
}

/// The graph has at most one edge per reference, and exactly one per
/// reference when every reference names a known identifier.
pub proof fn lemma_edge_count_bound(ps: Seq<Product>)
    ensures
        model_edges(ps).len() <= total_refs(ps, ps.len() as int),
        model_edges(ps).len() == total_refs(ps, ps.len() as int) <==> all_refs_resolve(ps),
{
    lemma_edges_upto_count(ps, ps.len() as int);
}

/// A distribution of a degree sequence is unique.
pub proof fn lemma_distribution_unique(degs: Seq<int>, r1: Seq<(usize, usize)>, r2: Seq<(usize, usize)>)
    requires
        is_distribution(degs, r1),
        is_distribution(degs, r2),
    ensures
        r1 == r2,
{
    lemma_distribution_prefix(degs, r1, r2);
    lemma_distribution_prefix(degs, r2, r1);
    assert(r1 =~= r2);
}

proof fn lemma_distribution_prefix(degs: Seq<int>, r1: Seq<(usize, usize)>, r2: Seq<(usize, usize)>)
    requires
        is_distribution(degs, r1),
        is_distribution(degs, r2),
    ensures
        r1.len() <= r2.len(),
        forall|k: int| 0 <= k < r1.len() ==> r1[k] == r2[k],
{
    assert forall|k: int| 0 <= k < r1.len() implies k < r2.len() && r1[k] == r2[k] by {
        lemma_distribution_agree(degs, r1, r2, k);
    }
    if r1.len() > r2.len() {
        lemma_distribution_agree(degs, r1, r2, r2.len() as int);
    }
}

/// Entry `k` of two distributions agree, given that all earlier ones do.
proof fn lemma_distribution_agree(degs: Seq<int>, r1: Seq<(usize, usize)>, r2: Seq<(usize, usize)>, k: int)
    requires
        is_distribution(degs, r1),
        is_distribution(degs, r2),
        0 <= k < r1.len(),
    ensures
        k < r2.len() && r1[k] == r2[k],
    decreases k,
{
    if k > 0 {
        lemma_distribution_agree(degs, r1, r2, k - 1);
    }
    assert forall|m: int| 0 <= m < k implies r1[m] == r2[m] by {
        lemma_distribution_agree(degs, r1, r2, m);
    }
    // The value r1[k].0 occurs in degs, so r2 lists it too.
    lemma_tally_witness(degs, r1[k].0 as int);
    let m = choose|m: int| 0 <= m < degs.len() && degs[m] == r1[k].0 as int;
    let i = choose|i: int| 0 <= i < r2.len() && (#[trigger] r2[i]).0 == degs[m];
    if i < k {
        assert(r1[i] == r2[i]);
        assert(false);
    }
    assert(k < r2.len());
    if r2[k].0 != r1[k].0 {
        // Then r2[k].0 < r1[k].0, and by symmetry r1 lists r2[k].0 before k.
        lemma_tally_witness(degs, r2[k].0 as int);
        let m2 = choose|m2: int| 0 <= m2 < degs.len() && degs[m2] == r2[k].0 as int;
        let i2 = choose|i2: int| 0 <= i2 < r1.len() && (#[trigger] r1[i2]).0 == degs[m2];
        if i2 < k {
            assert(r1[i2] == r2[i2]);
        }
        assert(false);
    }
}

/// The first `limit` places of the ranking are unique.
pub proof fn lemma_ranking_unique(degs: Seq<int>, limit: int, idx1: Seq<int>, idx2: Seq<int>)
    requires
        is_top_ranking(degs, limit, idx1),
        is_top_ranking(degs, limit, idx2),
    ensures
        idx1 == idx2,
{
    assert forall|k: int| 0 <= k < idx1.len() implies idx1[k] == idx2[k] by {
        lemma_ranking_agree(degs, limit, idx1, idx2, k);
    }
    assert(idx1 =~= idx2);
}

proof fn lemma_ranking_agree(degs: Seq<int>, limit: int, idx1: Seq<int>, idx2: Seq<int>, k: int)
    requires
        is_top_ranking(degs, limit, idx1),
        is_top_ranking(degs, limit, idx2),
        0 <= k < idx1.len(),
    ensures
        idx1[k] == idx2[k],
    decreases k,
{
    assert forall|m: int| 0 <= m < k implies idx1[m] == idx2[m] by {
        lemma_ranking_agree(degs, limit, idx1, idx2, m);
    }
    let a = idx1[k];
    let b = idx2[k];
    if a != b {
        if ranks_before(degs, a, b) {
            assert(idx2.contains(a));
            let m = choose|m: int| 0 <= m < idx2.len() && idx2[m] == a;
            if m < k {
                assert(idx1[m] == a);
                assert(ranks_before(degs, idx1[m], idx1[k]));
            } else {
                assert(ranks_before(degs, idx2[k], idx2[m]));
            }
        } else {
            assert(ranks_before(degs, b, a));
            assert(idx1.contains(b));
            let m = choose|m: int| 0 <= m < idx1.len() && idx1[m] == b;
            if m < k {
                assert(idx2[m] == b);
                assert(ranks_before(degs, idx2[m], idx2[k]));
            } else {
                assert(ranks_before(degs, idx1[k], idx1[m]));
            }
        }
    }
}

/// Building twice from the same products gives the same nodes and edges,
/// and the analyses of the two graphs agree: the same degree distribution
/// and the same ranking.
pub proof fn lemma_build_deterministic(
    ps: Seq<Product>,
    g1: ProductGraph,
    g2: ProductGraph,
    limit: int,
    dist1: Seq<(usize, usize)>,
    dist2: Seq<(usize, usize)>,
    top1: Seq<int>,
    top2: Seq<int>,
)
    requires
        graph_nodes(g1) == weights_of(ps),
        graph_edges(g1) == model_edges(ps),
        graph_nodes(g2) == weights_of(ps),
        graph_edges(g2) == model_edges(ps),
        is_distribution(out_degrees(g1), dist1),
        is_distribution(out_degrees(g2), dist2),
        is_top_ranking(out_degrees(g1), limit, top1),
        is_top_ranking(out_degrees(g2), limit, top2),
    ensures
        graph_nodes(g1).len() == graph_nodes(g2).len(),
        graph_edges(g1).len() == graph_edges(g2).len(),
        out_degrees(g1) == out_degrees(g2),
        dist1 == dist2,
        top1 == top2,
{
    assert(out_degrees(g1) =~= out_degrees(g2));
    lemma_distribution_unique(out_degrees(g1), dist1, dist2);
    lemma_ranking_unique(out_degrees(g1), limit, top1, top2);
}

} // verus!
