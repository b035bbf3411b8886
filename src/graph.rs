use vstd::prelude::*;
use crate::index::{AsinIndex, lemma_last_match_bounds, resolve};
use crate::laws::lemma_edge_count_bound;
use crate::pgraph::{
    add_edge, add_node, graph_edges, graph_nodes, new_graph, ProductGraph, INDEX_LIMIT,
};
use crate::product::{ids_of, refs_of, total_refs, weights_of, Product};

verus! {

/// The edges contributed by one product whose node is `src`: one per
/// reference that resolves, in reference order.
pub open spec fn ref_edges(ids: Seq<Seq<char>>, src: int, refs: Seq<Seq<char>>) -> Seq<(int, int)>
    decreases refs.len(),
{
    if refs.len() == 0 {
        Seq::empty()
    } else {
        let prev = ref_edges(ids, src, refs.drop_last());
        match resolve(ids, refs.last()) {
            Some(t) => prev.push((src, t)),
            None => prev,
        }
    }
}

/// The node from which the edges of product `i` leave: the node that its
/// identifier resolves to.
pub open spec fn source_of(ps: Seq<Product>, i: int) -> int {
    resolve(ids_of(ps), ps[i].asin@).unwrap()
}

/// The edges created for the first `n` products, in creation order.
pub open spec fn edges_upto(ps: Seq<Product>, n: int) -> Seq<(int, int)>
    decreases n,
{
    if n <= 0 {
        Seq::empty()
    } else {
        edges_upto(ps, n - 1) + ref_edges(ids_of(ps), source_of(ps, n - 1), refs_of(ps[n - 1]))
    }
}

/// The edges of the graph built from `ps`.
pub open spec fn model_edges(ps: Seq<Product>) -> Seq<(int, int)> {
    edges_upto(ps, ps.len() as int)
}

/// Builds the product graph: one node per product, in input order, and one
/// edge per reference that resolves to a known identifier.
///
/// A repeated identifier still gets a node of its own, but the index (and
/// every edge pointing at or leaving that identifier) uses its newest node.
pub fn build_graph(products: &[Product]) -> (r: (ProductGraph, AsinIndex))
    requires
        products@.len() < INDEX_LIMIT,
        total_refs(products@, products@.len() as int) < INDEX_LIMIT,
    ensures
        graph_nodes(r.0) == weights_of(products@),
        graph_edges(r.0) == model_edges(products@),
        r.1@ == ids_of(products@),
        r.1.wf(),
        graph_nodes(r.0).len() == products@.len(),
        graph_edges(r.0).len() <= total_refs(products@, products@.len() as int),
{
    let ghost ps = products@;
    let mut graph = new_graph();
    let mut index = AsinIndex::with_capacity(products.len());
    let n = products.len();
    let mut i: usize = 0;
    while i < n
        invariant
            n == ps.len(),
            ps == products@,
            i <= n,
            n < INDEX_LIMIT,
            graph_nodes(graph) == weights_of(ps).take(i as int),
            graph_edges(graph) == Seq::<(int, int)>::empty(),
            index.wf(),
            index@ == ids_of(ps).take(i as int),
        decreases n - i,
    {
        let p = &products[i];
        add_node(&mut graph, (p.asin.clone(), p.title.clone()));
        index.insert(p.asin.clone());
        assert(graph_nodes(graph) =~= weights_of(ps).take(i + 1));
        assert(index@ =~= ids_of(ps).take(i + 1));
        i = i + 1;
    }
    assert(graph_nodes(graph) =~= weights_of(ps));
    assert(index@ =~= ids_of(ps));
    let ghost ids = ids_of(ps);
    proof {
        lemma_edge_count_bound(ps);
    }

    let mut i: usize = 0;
    while i < n
        invariant
            n == ps.len(),
            ps == products@,
            ids == ids_of(ps),
            i <= n,
            graph_nodes(graph) == weights_of(ps),
            graph_edges(graph) == edges_upto(ps, i as int),
            index.wf(),
            index@ == ids,
            edges_upto(ps, n as int).len() <= total_refs(ps, n as int),
            total_refs(ps, n as int) < INDEX_LIMIT,
        decreases n - i,
    {
        let p = &products[i];
        let src = match index.get(&p.asin) {
            Some(s) => s,
            None => {
                proof {
                    lemma_last_match_bounds(ids, ps[i as int].asin@, n as int);
                    assert(ids[i as int] == ps[i as int].asin@);
                }
                0
            },
        };
        proof {
            lemma_last_match_bounds(ids, ps[i as int].asin@, n as int);
        }
        assert(src as int == source_of(ps, i as int));
        let ghost refs = refs_of(ps[i as int]);
        let m = p.similar.len();
        let mut k: usize = 0;
        while k < m
            invariant
                n == ps.len(),
                ps == products@,
                ids == ids_of(ps),
                i < n,
                *p == ps[i as int],
                refs == refs_of(*p),
                m == p.similar@.len(),
                k <= m,
                src < n,
                src as int == source_of(ps, i as int),
                graph_nodes(graph) == weights_of(ps),
                graph_edges(graph) == edges_upto(ps, i as int) + ref_edges(ids, src as int, refs.take(k as int)),
                index.wf(),
                index@ == ids,
                edges_upto(ps, n as int).len() <= total_refs(ps, n as int),
                total_refs(ps, n as int) < INDEX_LIMIT,
            decreases m - k,
        {
            assert(refs.take(k + 1).drop_last() =~= refs.take(k as int));
            assert(refs.take(k + 1).last() == p.similar@[k as int]@);
            proof {
                lemma_edges_prefix(ps, i as int + 1, n as int);
                lemma_ref_edges_prefix(ids, src as int, refs, k as int + 1);
                lemma_last_match_bounds(ids, p.similar@[k as int]@, n as int);
            }
            match index.get(&p.similar[k]) {
                Some(t) => {
                    add_edge(&mut graph, src, t);
                },
                None => {},
            }
            k = k + 1;
        }
        assert(refs.take(m as int) =~= refs);
        i = i + 1;
    }
    (graph, index)
}

proof fn lemma_ref_edges_prefix(ids: Seq<Seq<char>>, src: int, refs: Seq<Seq<char>>, k: int)
    requires
        0 <= k <= refs.len(),
    ensures
        ref_edges(ids, src, refs.take(k)).len() <= ref_edges(ids, src, refs).len(),
    decreases refs.len() - k,
{
    if k < refs.len() {
        lemma_ref_edges_prefix(ids, src, refs, k + 1);
        assert(refs.take(k + 1).drop_last() =~= refs.take(k));
    } else {
        assert(refs.take(k) =~= refs);
    }
}

proof fn lemma_edges_prefix(ps: Seq<Product>, i: int, n: int)
    requires
        0 <= i <= n,
    ensures
        edges_upto(ps, i).len() <= edges_upto(ps, n).len(),
    decreases n - i,
{
    if i < n {
        lemma_edges_prefix(ps, i, n - 1);
    }
}

} // verus!
