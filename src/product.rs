use vstd::prelude::*;

verus! {

/// One catalog entry: its identifier, its display name, and the
/// identifiers of the entries it lists as similar.
pub struct Product {
    pub asin: String,
    pub title: String,
    pub similar: Vec<String>,
}

/// The identifiers of the products, in input order.
pub open spec fn ids_of(ps: Seq<Product>) -> Seq<Seq<char>> {
    ps.map_values(|p: Product| p.asin@)
}

/// The (identifier, display name) pairs of the products, in input order.
pub open spec fn weights_of(ps: Seq<Product>) -> Seq<(Seq<char>, Seq<char>)> {
    ps.map_values(|p: Product| (p.asin@, p.title@))
}

/// The references of one product, as character sequences.
pub open spec fn refs_of(p: Product) -> Seq<Seq<char>> {
    p.similar@.map_values(|s: String| s@)
}

/// The number of references held by the first `n` products.
pub open spec fn total_refs(ps: Seq<Product>, n: int) -> nat
    decreases n,
{
    if n <= 0 {
        0
    } else {
        total_refs(ps, n - 1) + ps[n - 1].similar@.len()
    }
}

} // verus!
