use crate::errors::Error;
use crate::graph::UnitGraph;
use crate::paths::{
    consistent, has_edge, lemma_concat_valid, lemma_path_pos, lemma_product_concat, path_den,
    path_from, path_num, path_to, reachable, valid_epath, wf_edges, EdgeRec,
};
use crate::pgraph::{pg_astar, pg_edge_weight, pg_find_edge, pg_has_path};
use crate::rational::{
    frac_eq, lemma_frac_eq_mul, lemma_frac_eq_trans, rat_eq, rat_mul, rat_one, red_den, red_num,
    Rational,
};
use vstd::prelude::*;

verus! {

/// `f` is a conversion factor from `a` to `b`: the ratio one for `a == b`,
/// or the product of the edge ratios along some path from `a` to `b`.
pub open spec fn is_factor(edges: Seq<EdgeRec>, a: usize, b: usize, f: Rational) -> bool {
    ||| (a == b && rat_eq(f, Rational { num: 1, den: 1 }))
    ||| exists|p: Seq<int>|
        #[trigger] valid_epath(edges, p) && p.len() > 0 && path_from(edges, p) == a && path_to(
            edges,
            p,
        ) == b && frac_eq(f.num as int, f.den as int, path_num(edges, p), path_den(edges, p))
}

/// The running factor over the chosen edge sequence `ch`, reduced to
/// lowest terms after every multiplication, exactly as the implementation
/// reduces.
pub open spec fn run_prod(edges: Seq<EdgeRec>, ch: Seq<int>) -> Rational
    decreases ch.len(),
{
    if ch.len() == 0 {
        Rational { num: 1, den: 1 }
    } else {
        let prev = run_prod(edges, ch.drop_last());
        let w = Rational { num: edges[ch.last()].2.0, den: edges[ch.last()].2.1 };
        Rational { num: red_num(prev, w) as u64, den: red_den(prev, w) as u64 }
    }
}

/// Every step of the running product over `ch` fits the machine word.
pub open spec fn run_fits(edges: Seq<EdgeRec>, ch: Seq<int>) -> bool
    decreases ch.len(),
{
    if ch.len() == 0 {
        true
    } else {
        let prev = run_prod(edges, ch.drop_last());
        let w = Rational { num: edges[ch.last()].2.0, den: edges[ch.last()].2.1 };
        run_fits(edges, ch.drop_last()) && red_num(prev, w) <= u64::MAX && red_den(prev, w)
            <= u64::MAX
    }
}

/// The multiplicative factor that converts a quantity of the unit at
/// `from_index` into the unit at `to_index`: the stored ratio when a direct
/// edge exists, else the product of the stored ratios along a path found
/// by uninformed search; `NoConversionPath` exactly when no path connects
/// the two nodes, and `ArithmeticOverflow` only when the graph holds a
/// multi-hop path whose running reduced product outgrows the machine word.
/// Which connecting path the search returns is left open by the contract;
/// on contradiction-free tables every path carries the same ratio
/// (`lemma_factor_unique`), so the answer does not depend on the choice.
pub fn get_conversion_factor(graph: &UnitGraph, from_index: usize, to_index: usize) -> (r: Result<
    Rational,
    Error,
>)
    requires
        graph.wf(),
        from_index < graph.units_view().len(),
        to_index < graph.units_view().len(),
    ensures
        match r {
            Ok(f) => {
                &&& f.pos()
                &&& reachable(graph.edges_view(), from_index, to_index)
                &&& is_factor(graph.edges_view(), from_index, to_index, f)
                &&& has_edge(graph.edges_view(), from_index, to_index) ==> exists|i: int|
                    0 <= i < graph.edges_view().len() && (#[trigger] graph.edges_view()[i]).0
                        == from_index && graph.edges_view()[i].1 == to_index && f.num
                        == graph.edges_view()[i].2.0 && f.den == graph.edges_view()[i].2.1
            },
            Err(e) => {
                &&& (e == Error::NoConversionPath || e == Error::ArithmeticOverflow)
                &&& (e == Error::NoConversionPath <==> !reachable(
                    graph.edges_view(),
                    from_index,
                    to_index,
                ))
                &&& e == Error::ArithmeticOverflow ==> !has_edge(
                    graph.edges_view(),
                    from_index,
                    to_index,
                ) && exists|ch: Seq<int>|
                    #[trigger] valid_epath(graph.edges_view(), ch) && ch.len() > 0 && path_from(
                        graph.edges_view(),
                        ch,
                    ) == from_index && !run_fits(graph.edges_view(), ch)
            },
        },
        from_index == to_index && !has_edge(graph.edges_view(), from_index, to_index) ==> r
            == Ok::<Rational, Error>(Rational { num: 1, den: 1 }),
{
    let ghost edges = graph.edges_view();
    if !pg_has_path(&graph.g, from_index, to_index) {
        return Err(Error::NoConversionPath);
    }
    match pg_find_edge(&graph.g, from_index, to_index) {
        Some(i) => {
            let w = pg_edge_weight(&graph.g, i);
            let f = Rational { num: w.0, den: w.1 };
            proof {
                let p = seq![i as int];
                assert(p.len() == 1 && p.last() == i as int && p[0] == i as int);
                assert(p.drop_last() =~= Seq::<int>::empty());
                assert(path_num(edges, Seq::<int>::empty()) == 1);
                assert(path_den(edges, Seq::<int>::empty()) == 1);
                assert(path_num(edges, p) == 1 * edges[i as int].2.0);
                assert(path_den(edges, p) == 1 * edges[i as int].2.1);
                assert(valid_epath(edges, p));
                assert(f.num as int * path_den(edges, p) == path_num(edges, p) * f.den as int)
                    by (nonlinear_arith)
                    requires
                        path_num(edges, p) == 1 * edges[i as int].2.0,
                        path_den(edges, p) == 1 * edges[i as int].2.1,
                        f.num == edges[i as int].2.0,
                        f.den == edges[i as int].2.1;
            }
            Ok(f)
        },
        None => {
            let p = match pg_astar(&graph.g, from_index, to_index) {
                Some(p) => p,
                None => {
                    proof {
                        assert(false);
                    }
                    return Err(Error::NoConversionPath);
                },
            };
            let mut f = rat_one();
            let ghost mut chosen: Seq<int> = Seq::empty();
            let len: usize = p.len();
            let mut k: usize = 1;
            while k < len
                invariant
                    1 <= k <= len,
                    len == p@.len(),
                    p@.len() >= 1,
                    p@[0] == from_index,
                    p@[p@.len() - 1] == to_index,
                    forall|t: int| 0 < t < p@.len() ==> has_edge(edges, p@[t - 1], #[trigger] p@[t]),
                    graph.wf(),
                    edges == graph.edges_view(),
                    from_index < graph.units_view().len(),
                    to_index < graph.units_view().len(),
                    reachable(edges, from_index, to_index),
                    !has_edge(edges, from_index, to_index),
                    len >= 2 ==> from_index != to_index,
                    f.pos(),
                    valid_epath(edges, chosen),
                    f == run_prod(edges, chosen),
                    run_fits(edges, chosen),
                    chosen.len() == k - 1,
                    k >= 2 ==> path_from(edges, chosen) == from_index && path_to(edges, chosen)
                        == p@[k - 1],
                    frac_eq(f.num as int, f.den as int, path_num(edges, chosen), path_den(
                        edges,
                        chosen,
                    )),
                decreases len - k,
            {
                let i = match pg_find_edge(&graph.g, p[k - 1], p[k]) {
                    Some(i) => i,
                    None => {
                        proof {
                            assert(has_edge(edges, p@[k - 1], p@[k as int]));
                            assert(false);
                        }
                        return Err(Error::NoConversionPath);
                    },
                };
                let w = pg_edge_weight(&graph.g, i);
                let wr = Rational { num: w.0, den: w.1 };
                let nf = match rat_mul(f, wr) {
                    Some(nf) => nf,
                    None => {
                        proof {
                            let ext = chosen.push(i as int);
                            assert(ext.drop_last() =~= chosen);
                            assert(ext.last() == i as int);
                            assert(valid_epath(edges, ext));
                            assert(path_from(edges, ext) == from_index);
                            assert(!run_fits(edges, ext));
                        }
                        return Err(Error::ArithmeticOverflow);
                    },
                };
                proof {
                    let ext = chosen.push(i as int);
                    assert(ext.drop_last() =~= chosen);
                    assert(ext.last() == i as int);
                    assert(path_num(edges, ext) == path_num(edges, chosen) * edges[i as int].2.0);
                    assert(path_den(edges, ext) == path_den(edges, chosen) * edges[i as int].2.1);
                    assert(valid_epath(edges, ext));
                    lemma_frac_eq_mul(
                        f.num as int,
                        f.den as int,
                        path_num(edges, chosen),
                        path_den(edges, chosen),
                        wr.num as int,
                        wr.den as int,
                        edges[i as int].2.0 as int,
                        edges[i as int].2.1 as int,
                    );
                    assert(edges[i as int].2.1 >= 1);
                    assert(f.den as int * wr.den as int != 0) by (nonlinear_arith)
                        requires f.den >= 1, wr.den >= 1;
                    lemma_frac_eq_trans(
                        nf.num as int,
                        nf.den as int,
                        f.num as int * wr.num as int,
                        f.den as int * wr.den as int,
                        path_num(edges, ext),
                        path_den(edges, ext),
                    );
                    assert(nf == run_prod(edges, ext));
                    chosen = ext;
                }
                f = nf;
                k = k + 1;
            }
            proof {
                if len == 1 {
                    assert(from_index == to_index);
                    assert(rat_eq(f, Rational { num: 1, den: 1 }));
                } else {
                    assert(chosen.len() > 0);
                    assert(path_to(edges, chosen) == to_index);
                }
            }
            Ok(f)
        },
    }
}


/// On a consistent table, a conversion factor from a node to itself is the
/// ratio one.
pub proof fn lemma_self_factor(edges: Seq<EdgeRec>, n: nat, a: usize, f: Rational)
    requires
        wf_edges(edges, n),
        consistent(edges),
        is_factor(edges, a, a, f),
        f.pos(),
    ensures
        f.num == f.den,
{
    if rat_eq(f, Rational { num: 1, den: 1 }) {
    } else {
        let p = choose|p: Seq<int>|
            #[trigger] valid_epath(edges, p) && p.len() > 0 && path_from(edges, p) == a && path_to(
                edges,
                p,
            ) == a && frac_eq(f.num as int, f.den as int, path_num(edges, p), path_den(edges, p));
        assert(path_num(edges, p) == path_den(edges, p));
        lemma_path_pos(edges, n, p);
        assert(f.num == f.den) by (nonlinear_arith)
            requires
                f.num as int * path_den(edges, p) == path_num(edges, p) * f.den as int,
                path_num(edges, p) == path_den(edges, p),
                path_num(edges, p) >= 1;
    }
}

/// On a consistent table, any two conversion factors between the same pair
/// of nodes denote the same rational number, whatever paths produced them.
pub proof fn lemma_factor_unique(
    edges: Seq<EdgeRec>,
    n: nat,
    a: usize,
    b: usize,
    f1: Rational,
    f2: Rational,
)
    requires
        wf_edges(edges, n),
        consistent(edges),
        is_factor(edges, a, b, f1),
        is_factor(edges, a, b, f2),
        f1.pos(),
        f2.pos(),
    ensures
        rat_eq(f1, f2),
{
    if a == b {
        lemma_self_factor(edges, n, a, f1);
        lemma_self_factor(edges, n, a, f2);
        assert(f1.num as int * f2.den as int == f2.num as int * f1.den as int)
            by (nonlinear_arith)
            requires
                f1.num == f1.den,
                f2.num == f2.den;
    } else {
        let p = choose|p: Seq<int>|
            #[trigger] valid_epath(edges, p) && p.len() > 0 && path_from(edges, p) == a && path_to(
                edges,
                p,
            ) == b && frac_eq(f1.num as int, f1.den as int, path_num(edges, p), path_den(edges, p));
        let q = choose|q: Seq<int>|
            #[trigger] valid_epath(edges, q) && q.len() > 0 && path_from(edges, q) == a && path_to(
                edges,
                q,
            ) == b && frac_eq(f2.num as int, f2.den as int, path_num(edges, q), path_den(edges, q));
        lemma_path_pos(edges, n, p);
        lemma_path_pos(edges, n, q);
        assert(frac_eq(path_num(edges, p), path_den(edges, p), path_num(edges, q), path_den(
            edges,
            q,
        )));
        lemma_frac_eq_trans(
            f1.num as int,
            f1.den as int,
            path_num(edges, p),
            path_den(edges, p),
            path_num(edges, q),
            path_den(edges, q),
        );
        lemma_frac_eq_trans(
            f1.num as int,
            f1.den as int,
            path_num(edges, q),
            path_den(edges, q),
            f2.num as int,
            f2.den as int,
        );
    }
}

/// The reverse-edge law: when some edge runs from `a` to `b`, on a
/// consistent table every conversion factor from `a` to `b` equals that
/// edge's stored ratio, and every factor from `b` back to `a` equals its
/// reciprocal.
pub proof fn lemma_direct_entry(
    edges: Seq<EdgeRec>,
    n: nat,
    a: usize,
    b: usize,
    i: int,
    f: Rational,
    g: Rational,
)
    requires
        wf_edges(edges, n),
        consistent(edges),
        0 <= i < edges.len(),
        edges[i].0 == a,
        edges[i].1 == b,
        is_factor(edges, a, b, f),
        is_factor(edges, b, a, g),
        f.pos(),
        g.pos(),
    ensures
        frac_eq(f.num as int, f.den as int, edges[i].2.0 as int, edges[i].2.1 as int),
        frac_eq(g.num as int, g.den as int, edges[i].2.1 as int, edges[i].2.0 as int),
{
    let w = edges[i].2;
    let pe = seq![i];
    assert(pe.len() == 1 && pe.last() == i && pe[0] == i);
    assert(pe.drop_last() =~= Seq::<int>::empty());
    assert(path_num(edges, Seq::<int>::empty()) == 1);
    assert(path_den(edges, Seq::<int>::empty()) == 1);
    assert(path_num(edges, pe) == 1 * w.0 && path_den(edges, pe) == 1 * w.1);
    assert(valid_epath(edges, pe));
    let fw = Rational { num: w.0, den: w.1 };
    assert(fw.num as int * path_den(edges, pe) == path_num(edges, pe) * fw.den as int)
        by (nonlinear_arith)
        requires
            path_num(edges, pe) == 1 * w.0,
            path_den(edges, pe) == 1 * w.1,
            fw.num == w.0,
            fw.den == w.1;
    assert(is_factor(edges, a, b, fw));
    assert(fw.pos());
    lemma_factor_unique(edges, n, a, b, f, fw);
    if a == b {
        lemma_self_factor(edges, n, a, g);
        assert(w.0 == w.1) by {
            lemma_self_factor(edges, n, a, fw);
        }
        assert(g.num as int * w.0 as int == w.1 as int * g.den as int) by (nonlinear_arith)
            requires
                g.num == g.den,
                w.0 == w.1;
    } else {
        let q = choose|q: Seq<int>|
            #[trigger] valid_epath(edges, q) && q.len() > 0 && path_from(edges, q) == b && path_to(
                edges,
                q,
            ) == a && frac_eq(g.num as int, g.den as int, path_num(edges, q), path_den(edges, q));
        lemma_concat_valid(edges, pe, q);
        lemma_product_concat(edges, pe, q);
        lemma_path_pos(edges, n, q);
        assert(path_num(edges, pe + q) == path_den(edges, pe + q));
        assert(frac_eq(path_num(edges, q), path_den(edges, q), w.1 as int, w.0 as int))
            by (nonlinear_arith)
            requires
                (1 * w.0) * path_num(edges, q) == (1 * w.1) * path_den(edges, q),
                path_num(edges, pe) == 1 * w.0,
                path_den(edges, pe) == 1 * w.1,
                path_num(edges, pe + q) == path_num(edges, pe) * path_num(edges, q),
                path_den(edges, pe + q) == path_den(edges, pe) * path_den(edges, q),
                path_num(edges, pe + q) == path_den(edges, pe + q);
        lemma_frac_eq_trans(
            g.num as int,
            g.den as int,
            path_num(edges, q),
            path_den(edges, q),
            w.1 as int,
            w.0 as int,
        );
    }
}

/// Path composition is multiplicative: on a consistent table, a factor
/// from `a` to `b` equals the product of any factor from `a` to `x` with
/// any factor from `x` to `b`, whatever paths each search found.
pub proof fn lemma_path_composition(
    edges: Seq<EdgeRec>,
    n: nat,
    a: usize,
    x: usize,
    b: usize,
    f1: Rational,
    f2: Rational,
    f: Rational,
)
    requires
        wf_edges(edges, n),
        consistent(edges),
        is_factor(edges, a, x, f1),
        is_factor(edges, x, b, f2),
        is_factor(edges, a, b, f),
        f1.pos(),
        f2.pos(),
        f.pos(),
    ensures
        frac_eq(
            f.num as int,
            f.den as int,
            f1.num as int * f2.num as int,
            f1.den as int * f2.den as int,
        ),
{
    if a == x {
        lemma_self_factor(edges, n, a, f1);
        lemma_factor_unique(edges, n, a, b, f, f2);
        assert(f.num as int * (f1.den as int * f2.den as int) == (f1.num as int * f2.num as int)
            * f.den as int) by (nonlinear_arith)
            requires
                f1.num == f1.den,
                f.num as int * f2.den as int == f2.num as int * f.den as int;
    } else if x == b {
        lemma_self_factor(edges, n, x, f2);
        lemma_factor_unique(edges, n, a, b, f, f1);
        assert(f.num as int * (f1.den as int * f2.den as int) == (f1.num as int * f2.num as int)
            * f.den as int) by (nonlinear_arith)
            requires
                f2.num == f2.den,
                f.num as int * f1.den as int == f1.num as int * f.den as int;
    } else {
        let p1 = choose|p: Seq<int>|
            #[trigger] valid_epath(edges, p) && p.len() > 0 && path_from(edges, p) == a && path_to(
                edges,
                p,
            ) == x && frac_eq(f1.num as int, f1.den as int, path_num(edges, p), path_den(edges, p));
        let p2 = choose|p: Seq<int>|
            #[trigger] valid_epath(edges, p) && p.len() > 0 && path_from(edges, p) == x && path_to(
                edges,
                p,
            ) == b && frac_eq(f2.num as int, f2.den as int, path_num(edges, p), path_den(edges, p));
        lemma_concat_valid(edges, p1, p2);
        lemma_product_concat(edges, p1, p2);
        lemma_path_pos(edges, n, p1);
        lemma_path_pos(edges, n, p2);
        lemma_path_pos(edges, n, p1 + p2);
        lemma_frac_eq_mul(
            f1.num as int,
            f1.den as int,
            path_num(edges, p1),
            path_den(edges, p1),
            f2.num as int,
            f2.den as int,
            path_num(edges, p2),
            path_den(edges, p2),
        );
        if a == b {
            lemma_self_factor(edges, n, a, f);
            assert(path_num(edges, p1 + p2) == path_den(edges, p1 + p2));
            assert(f.num as int * (f1.den as int * f2.den as int) == (f1.num as int * f2.num
                as int) * f.den as int) by (nonlinear_arith)
                requires
                    f.num == f.den,
                    (f1.num as int * f2.num as int) * (path_den(edges, p1) * path_den(edges, p2))
                        == (path_num(edges, p1) * path_num(edges, p2)) * (f1.den as int * f2.den
                        as int),
                    path_num(edges, p1 + p2) == path_num(edges, p1) * path_num(edges, p2),
                    path_den(edges, p1 + p2) == path_den(edges, p1) * path_den(edges, p2),
                    path_num(edges, p1 + p2) == path_den(edges, p1 + p2),
                    path_num(edges, p1 + p2) >= 1;
        } else {
            let p = choose|p: Seq<int>|
                #[trigger] valid_epath(edges, p) && p.len() > 0 && path_from(edges, p) == a
                    && path_to(edges, p) == b && frac_eq(
                    f.num as int,
                    f.den as int,
                    path_num(edges, p),
                    path_den(edges, p),
                );
            lemma_path_pos(edges, n, p);
            assert(frac_eq(path_num(edges, p), path_den(edges, p), path_num(edges, p1 + p2),
                path_den(edges, p1 + p2)));
            lemma_frac_eq_trans(
                f.num as int,
                f.den as int,
                path_num(edges, p),
                path_den(edges, p),
                path_num(edges, p1 + p2),
                path_den(edges, p1 + p2),
            );
            lemma_frac_eq_trans(
                f.num as int,
                f.den as int,
                path_num(edges, p1 + p2),
                path_den(edges, p1 + p2),
                f1.num as int * f2.num as int,
                f1.den as int * f2.den as int,
            );
        }
    }
}

/// The round-trip law: on a consistent table, a factor from `a` to `b` and
/// a factor back from `b` to `a` multiply to one, so converting any
/// quantity there and back returns it exactly.
pub proof fn lemma_round_trip(
    edges: Seq<EdgeRec>,
    n: nat,
    a: usize,
    b: usize,
    f1: Rational,
    f2: Rational,
    q: Rational,
)
    requires
        wf_edges(edges, n),
        consistent(edges),
        is_factor(edges, a, b, f1),
        is_factor(edges, b, a, f2),
        f1.pos(),
        f2.pos(),
        q.wf(),
    ensures
        f1.num as int * f2.num as int == f1.den as int * f2.den as int,
        frac_eq(
            (q.num as int * f1.num as int) * f2.num as int,
            (q.den as int * f1.den as int) * f2.den as int,
            q.num as int,
            q.den as int,
        ),
{
    if a == b {
        lemma_self_factor(edges, n, a, f1);
        lemma_self_factor(edges, n, a, f2);
        assert(f1.num as int * f2.num as int == f1.den as int * f2.den as int)
            by (nonlinear_arith)
            requires
                f1.num == f1.den,
                f2.num == f2.den;
    } else {
        let p1 = choose|p: Seq<int>|
            #[trigger] valid_epath(edges, p) && p.len() > 0 && path_from(edges, p) == a && path_to(
                edges,
                p,
            ) == b && frac_eq(f1.num as int, f1.den as int, path_num(edges, p), path_den(edges, p));
        let p2 = choose|p: Seq<int>|
            #[trigger] valid_epath(edges, p) && p.len() > 0 && path_from(edges, p) == b && path_to(
                edges,
                p,
            ) == a && frac_eq(f2.num as int, f2.den as int, path_num(edges, p), path_den(edges, p));
        lemma_concat_valid(edges, p1, p2);
        lemma_product_concat(edges, p1, p2);
        lemma_path_pos(edges, n, p1);
        lemma_path_pos(edges, n, p2);
        assert(path_num(edges, p1 + p2) == path_den(edges, p1 + p2));
        lemma_frac_eq_mul(
            f1.num as int,
            f1.den as int,
            path_num(edges, p1),
            path_den(edges, p1),
            f2.num as int,
            f2.den as int,
            path_num(edges, p2),
            path_den(edges, p2),
        );
        assert(f1.num as int * f2.num as int == f1.den as int * f2.den as int)
            by (nonlinear_arith)
            requires
                (f1.num as int * f2.num as int) * (path_den(edges, p1) * path_den(edges, p2)) == (
                path_num(edges, p1) * path_num(edges, p2)) * (f1.den as int * f2.den as int),
                path_num(edges, p1 + p2) == path_num(edges, p1) * path_num(edges, p2),
                path_den(edges, p1 + p2) == path_den(edges, p1) * path_den(edges, p2),
                path_num(edges, p1 + p2) == path_den(edges, p1 + p2),
                path_num(edges, p1) >= 1,
                path_den(edges, p1) >= 1,
                path_num(edges, p2) >= 1,
                path_den(edges, p2) >= 1;
    }
    assert(((q.num as int * f1.num as int) * f2.num as int) * (q.den as int) == (q.num as int) * (
    (q.den as int * f1.den as int) * f2.den as int)) by (nonlinear_arith)
        requires
            f1.num as int * f2.num as int == f1.den as int * f2.den as int;
}

} // verus!
