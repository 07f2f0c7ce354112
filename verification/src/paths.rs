use crate::rational::frac_eq;
use vstd::prelude::*;

verus! {

/// One directed equivalence edge as plain values: source node, target node,
/// and the ratio "target units per one source unit" as (numerator,
/// denominator).
pub type EdgeRec = (usize, usize, (u64, u64));

/// `p` is a sequence of edge indices into `edges` in which each edge starts
/// where the previous one ended.
pub open spec fn valid_epath(edges: Seq<EdgeRec>, p: Seq<int>) -> bool {
    &&& forall|k: int| 0 <= k < p.len() ==> 0 <= #[trigger] p[k] < edges.len()
    &&& forall|k: int| 0 < k < p.len() ==> edges[p[k - 1]].1 == edges[#[trigger] p[k]].0
}

/// The node a non-empty edge path starts at.
pub open spec fn path_from(edges: Seq<EdgeRec>, p: Seq<int>) -> usize {
    edges[p[0]].0
}

/// The node a non-empty edge path ends at.
pub open spec fn path_to(edges: Seq<EdgeRec>, p: Seq<int>) -> usize {
    edges[p[p.len() - 1]].1
}

/// Numerator of the product of the edge ratios along `p`.
pub open spec fn path_num(edges: Seq<EdgeRec>, p: Seq<int>) -> int
    decreases p.len(),
{
    if p.len() == 0 {
        1
    } else {
        path_num(edges, p.drop_last()) * edges[p.last()].2.0
    }
}

/// Denominator of the product of the edge ratios along `p`.
pub open spec fn path_den(edges: Seq<EdgeRec>, p: Seq<int>) -> int
    decreases p.len(),
{
    if p.len() == 0 {
        1
    } else {
        path_den(edges, p.drop_last()) * edges[p.last()].2.1
    }
}

/// Some edge runs directly from `a` to `b`.
pub open spec fn has_edge(edges: Seq<EdgeRec>, a: usize, b: usize) -> bool {
    exists|i: int| 0 <= i < edges.len() && (#[trigger] edges[i]).0 == a && edges[i].1 == b
}

/// `b` can be reached from `a` by following edges (trivially when `a == b`).
pub open spec fn reachable(edges: Seq<EdgeRec>, a: usize, b: usize) -> bool {
    a == b || exists|p: Seq<int>|
        #[trigger] valid_epath(edges, p) && p.len() > 0 && path_from(edges, p) == a
            && path_to(edges, p) == b
}

/// Every edge stays inside `n` nodes and carries a strictly positive ratio.
pub open spec fn wf_edges(edges: Seq<EdgeRec>, n: nat) -> bool {
    forall|i: int| 0 <= i < edges.len() ==> {
        &&& (#[trigger] edges[i]).0 < n
        &&& edges[i].1 < n
        &&& edges[i].2.0 >= 1
        &&& edges[i].2.1 >= 1
    }
}

/// Every edge has some companion edge in the opposite direction.
pub open spec fn symmetric(edges: Seq<EdgeRec>) -> bool {
    forall|i: int| 0 <= i < edges.len()
        ==> has_edge(edges, (#[trigger] edges[i]).1, edges[i].0)
}

/// The table is free of contradictions: any two paths joining the same pair
/// of nodes carry the same ratio, and every cycle carries the ratio one.
pub open spec fn consistent(edges: Seq<EdgeRec>) -> bool {
    &&& forall|p: Seq<int>, q: Seq<int>|
        #[trigger] valid_epath(edges, p) && #[trigger] valid_epath(edges, q) && p.len() > 0
            && q.len() > 0 && path_from(edges, p) == path_from(edges, q) && path_to(edges, p)
            == path_to(edges, q) ==> frac_eq(
            path_num(edges, p),
            path_den(edges, p),
            path_num(edges, q),
            path_den(edges, q),
        )
    &&& forall|p: Seq<int>|
        #[trigger] valid_epath(edges, p) && p.len() > 0 && path_from(edges, p) == path_to(
            edges,
            p,
        ) ==> path_num(edges, p) == path_den(edges, p)
}

/// Along a well-formed edge sequence every path product is strictly positive.
pub proof fn lemma_path_pos(edges: Seq<EdgeRec>, n: nat, p: Seq<int>)
    requires
        wf_edges(edges, n),
        valid_epath(edges, p),
    ensures
        path_num(edges, p) >= 1,
        path_den(edges, p) >= 1,
    decreases p.len(),
{
    if p.len() > 0 {
        let q = p.drop_last();
        assert(valid_epath(edges, q));
        lemma_path_pos(edges, n, q);
        let w = edges[p.last()].2;
        assert(path_num(edges, q) * w.0 >= 1) by (nonlinear_arith)
            requires path_num(edges, q) >= 1, w.0 >= 1;
        assert(path_den(edges, q) * w.1 >= 1) by (nonlinear_arith)
            requires path_den(edges, q) >= 1, w.1 >= 1;
    }
}

/// Path products multiply under concatenation.
pub proof fn lemma_product_concat(edges: Seq<EdgeRec>, p1: Seq<int>, p2: Seq<int>)
    ensures
        path_num(edges, p1 + p2) == path_num(edges, p1) * path_num(edges, p2),
        path_den(edges, p1 + p2) == path_den(edges, p1) * path_den(edges, p2),
    decreases p2.len(),
{
    if p2.len() == 0 {
        assert(p1 + p2 =~= p1);
        assert(path_num(edges, p1) * 1 == path_num(edges, p1)) by (nonlinear_arith);
        assert(path_den(edges, p1) * 1 == path_den(edges, p1)) by (nonlinear_arith);
    } else {
        let q = p2.drop_last();
        lemma_product_concat(edges, p1, q);
        assert((p1 + p2).drop_last() =~= p1 + q);
        assert((p1 + p2).last() == p2.last());
        let w = edges[p2.last()].2;
        assert((path_num(edges, p1) * path_num(edges, q)) * w.0 == path_num(edges, p1) * (
        path_num(edges, q) * w.0)) by (nonlinear_arith);
        assert((path_den(edges, p1) * path_den(edges, q)) * w.1 == path_den(edges, p1) * (
        path_den(edges, q) * w.1)) by (nonlinear_arith);
    }
}

/// Two valid non-empty paths that meet end-to-start concatenate into a valid
/// path joining the outer endpoints.
pub proof fn lemma_concat_valid(edges: Seq<EdgeRec>, p1: Seq<int>, p2: Seq<int>)
    requires
        valid_epath(edges, p1),
        valid_epath(edges, p2),
        p1.len() > 0,
        p2.len() > 0,
        path_to(edges, p1) == path_from(edges, p2),
    ensures
        valid_epath(edges, p1 + p2),
        (p1 + p2).len() > 0,
        path_from(edges, p1 + p2) == path_from(edges, p1),
        path_to(edges, p1 + p2) == path_to(edges, p2),
{
    let p = p1 + p2;
    assert forall|k: int| 0 < k < p.len() implies edges[p[k - 1]].1 == edges[#[trigger] p[k]].0 by {
        if k < p1.len() {
            assert(p[k - 1] == p1[k - 1] && p[k] == p1[k]);
        } else if k == p1.len() {
            assert(p[k - 1] == p1[p1.len() - 1] && p[k] == p2[0]);
        } else {
            assert(p[k - 1] == p2[k - p1.len() - 1] && p[k] == p2[k - p1.len()]);
        }
    }
    assert(p[p.len() - 1] == p2[p2.len() - 1]);
}

/// On a symmetric edge set, reachability runs both ways.
pub proof fn lemma_symmetric_reachable(edges: Seq<EdgeRec>, a: usize, b: usize)
    requires
        symmetric(edges),
        reachable(edges, a, b),
    ensures
        reachable(edges, b, a),
{
    if a != b {
        let p = choose|p: Seq<int>|
            #[trigger] valid_epath(edges, p) && p.len() > 0 && path_from(edges, p) == a
                && path_to(edges, p) == b;
        let n = p.len();
        let q = Seq::new(
            n,
            |i: int|
                choose|j: int|
                    0 <= j < edges.len() && (#[trigger] edges[j]).0 == edges[p[n - 1 - i]].1
                        && edges[j].1 == edges[p[n - 1 - i]].0,
        );
        assert forall|i: int| 0 <= i < n implies 0 <= #[trigger] q[i] < edges.len() && edges[q[i]].0
            == edges[p[n - 1 - i]].1 && edges[q[i]].1 == edges[p[n - 1 - i]].0 by {
            assert(has_edge(edges, edges[p[n - 1 - i]].1, edges[p[n - 1 - i]].0));
        }
        assert(valid_epath(edges, q)) by {
            assert forall|k: int| 0 < k < n implies edges[q[k - 1]].1 == edges[#[trigger] q[k]].0
            by {
                assert(edges[q[k - 1]].1 == edges[p[n - k]].0);
                assert(edges[q[k]].0 == edges[p[n - 1 - k]].1);
                assert(edges[p[(n - k) - 1]].1 == edges[p[n - k]].0);
            }
        }
        assert(path_from(edges, q) == b && path_to(edges, q) == a);
    }
}

} // verus!
