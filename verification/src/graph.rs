use crate::errors::Error;
use crate::parse::{
    blank_line, count_nonblank, entries_of, entry_matches, entry_spec_of, lemma_count_bound,
    lemma_count_nonblank_mono, lemma_count_nonblank_surj, lemma_entries_of_len,
    lemma_line_min_len, lemma_split_sum, opt_view, parse_table, spec_line_result,
    spec_parse_number, split_at_sep, EntrySpec, SideSpec, TableEntry,
};
use crate::paths::{has_edge, symmetric, wf_edges, EdgeRec};
use crate::pgraph::{
    graph_edges, graph_nodes, pg_add_edge, pg_add_node, pg_contains_edge, pg_edge_count,
    pg_edge_endpoints, pg_edge_weight, pg_new, PGraph, INDEX_LIMIT,
};
use crate::rational::{frac_eq, rat_inv, rat_mul, red_den, red_num, Rational};
use crate::resolve::{
    get_node_from_name, lemma_resolved_not_unresolvable, lemma_resolves_unique,
    lemma_resolves_views, resolves_to, spec_resolve, uv_resolves_to, views_of,
};
use crate::text::NAME_LIMIT;
use crate::unit::{Unit, UnitView};
use vstd::prelude::*;

verus! {

/// The immutable conversion graph: the petgraph structure carrying the
/// edges, and the unit list, in which the unit at position `i` is the node
/// with index `i`.
pub struct UnitGraph {
    pub g: PGraph,
    pub units: Vec<Unit>,
}

/// The reverse companion of an edge: swapped endpoints, reciprocal ratio.
pub open spec fn rev_edge(e: EdgeRec) -> EdgeRec {
    (e.1, e.0, (e.2.1, e.2.0))
}

/// Resolve-or-append: the unit a table side denotes against the units so
/// far — looked up by exact abbreviation when one is given, else by full
/// name within edit distance two — with a fresh unit appended when none
/// resolves.
pub open spec fn spec_add_side(us: Seq<UnitView>, name: Seq<char>, ab: Option<Seq<char>>) -> (
    Seq<UnitView>,
    int,
) {
    let q = match ab {
        Some(a) => a,
        None => name,
    };
    let allowed: u64 = match ab {
        Some(_) => 0u64,
        None => 2u64,
    };
    match spec_resolve(us, q, allowed) {
        Some(i) => (us, i),
        None => (us.push((name, ab)), us.len() as int),
    }
}

/// The graph the table's entries denote, before reverse synthesis: the
/// deduplicated unit list, and one forward edge per entry joining the two
/// resolved units and carrying the reduced ratio `value2 / value1`
/// ("target units per source unit"); `None` when some reduced ratio
/// outgrows the machine word.
pub open spec fn build_fold(entries: Seq<EntrySpec>) -> Option<(Seq<UnitView>, Seq<EdgeRec>)>
    decreases entries.len(),
{
    if entries.len() == 0 {
        Some((Seq::empty(), Seq::empty()))
    } else {
        match build_fold(entries.drop_last()) {
            None => None,
            Some(st) => {
                let e = entries.last();
                let r1 = spec_add_side(st.0, e.1, e.2);
                let r2 = spec_add_side(r1.0, e.4, e.5);
                let a = Rational { num: e.3.0 as u64, den: e.3.1 as u64 };
                let binv = Rational { num: e.0.1 as u64, den: e.0.0 as u64 };
                if red_num(a, binv) > u64::MAX || red_den(a, binv) > u64::MAX {
                    None
                } else {
                    Some(
                        (
                            r2.0,
                            st.1.push(
                                (
                                    r1.1 as usize,
                                    r2.1 as usize,
                                    (red_num(a, binv) as u64, red_den(a, binv) as u64),
                                ),
                            ),
                        ),
                    )
                }
            },
        }
    }
}

/// Once some prefix of the entries overflows, the whole table does.
proof fn lemma_build_fold_none(entries: Seq<EntrySpec>, j: int)
    requires
        0 <= j <= entries.len(),
        build_fold(entries.take(j)) is None,
    ensures
        build_fold(entries) is None,
    decreases entries.len() - j,
{
    if j < entries.len() {
        assert(entries.take(j + 1).drop_last() =~= entries.take(j));
        lemma_build_fold_none(entries, j + 1);
    } else {
        assert(entries.take(j) =~= entries);
    }
}

/// The reverse-synthesis pass as a function: walk the first `n` edges in
/// index order and append the reverse companion (reciprocal ratio) of
/// every edge whose reverse is not yet present.
pub open spec fn add_reverse(es: Seq<EdgeRec>, n: int, i: int) -> Seq<EdgeRec>
    decreases n - i,
{
    if i < 0 || i >= n {
        es
    } else {
        let es2 = if has_edge(es, es[i].1, es[i].0) {
            es
        } else {
            es.push(rev_edge(es[i]))
        };
        add_reverse(es2, n, i + 1)
    }
}

/// `e` is the reverse companion of one of the first `n` edges of `edges`.
pub open spec fn inverse_of_some(edges: Seq<EdgeRec>, e: EdgeRec, n: int) -> bool {
    exists|k: int| 0 <= k < n && e == rev_edge(#[trigger] edges[k])
}

impl UnitGraph {
    /// The units, as the node they stand for.
    pub open spec fn units_view(self) -> Seq<Unit> {
        self.units@
    }

    /// The edges of the graph as plain records.
    pub open spec fn edges_view(self) -> Seq<EdgeRec> {
        graph_edges(self.g)
    }

    /// Node count and unit list agree, every edge stays inside the node
    /// range with a strictly positive ratio, and every unit is well formed.
    pub open spec fn wf(self) -> bool {
        &&& graph_nodes(self.g) == self.units@.len()
        &&& self.units@.len() <= INDEX_LIMIT
        &&& wf_edges(graph_edges(self.g), self.units@.len() as nat)
        &&& forall|i: int| 0 <= i < self.units@.len() ==> (#[trigger] self.units@[i]).wf()
    }

    /// How many units the graph knows.
    pub fn unit_count(&self) -> (n: usize)
        ensures
            n == self.units_view().len(),
    {
        self.units.len()
    }

    /// Every unit's display line, in node order, suppressing the
    /// abbreviation where none was supplied.
    pub fn unit_list(&self) -> (r: Vec<String>)
        ensures
            r@.len() == self.units_view().len(),
            forall|i: int|
                0 <= i < r@.len() ==> (#[trigger] r@[i])@ == self.units_view()[i].display_of(),
    {
        let n: usize = self.units.len();
        let mut r: Vec<String> = Vec::new();
        let mut i: usize = 0;
        while i < n
            invariant
                i <= n,
                n == self.units@.len(),
                r@.len() == i,
                forall|k: int|
                    0 <= k < i ==> (#[trigger] r@[k])@ == self.units@[k].display_of(),
            decreases n - i,
        {
            r.push(self.units[i].display_string());
            i = i + 1;
        }
        r
    }
}

/// Looks the unit up — by exact abbreviation when one is given, else by
/// full name with fuzzy tolerance two — and creates a fresh node when no
/// existing unit matches, exactly as `spec_add_side` describes.
fn find_or_insert(ug: &mut UnitGraph, name: &String, ab: &Option<String>) -> (i: usize)
    requires
        old(ug).wf(),
        old(ug).units_view().len() < INDEX_LIMIT,
        name@.len() < NAME_LIMIT,
        match *ab {
            Some(a) => a@.len() < NAME_LIMIT,
            None => true,
        },
    ensures
        final(ug).wf(),
        final(ug).edges_view() == old(ug).edges_view(),
        i < final(ug).units_view().len(),
        final(ug).units_view().len() <= old(ug).units_view().len() + 1,
        (views_of(final(ug).units_view()), i as int) == spec_add_side(
            views_of(old(ug).units_view()),
            name@,
            opt_view(*ab),
        ),
{
    let ghost q: Seq<char> = match ab {
        Some(a) => a@,
        None => name@,
    };
    let ghost allowed: u64 = match ab {
        Some(_) => 0u64,
        None => 2u64,
    };
    let ghost us0 = ug.units@;
    let found = match ab {
        Some(a) => get_node_from_name(&ug.units, a, 0),
        None => get_node_from_name(&ug.units, name, 2),
    };
    proof {
        lemma_resolves_views(us0, q, allowed);
    }
    match found {
        Some(i) => {
            proof {
                assert(resolves_to(us0, q, allowed, i as int));
                assert(uv_resolves_to(views_of(us0), q, allowed, i as int));
                let c = choose|j: int| uv_resolves_to(views_of(us0), q, allowed, j);
                assert(resolves_to(us0, q, allowed, c));
                lemma_resolves_unique(us0, q, allowed, c, i as int);
                assert(spec_resolve(views_of(us0), q, allowed) == Some(i as int));
            }
            i
        },
        None => {
            proof {
                assert forall|j: int| !(#[trigger] uv_resolves_to(
                    views_of(us0),
                    q,
                    allowed,
                    j,
                )) by {
                    if uv_resolves_to(views_of(us0), q, allowed, j) {
                        assert(resolves_to(us0, q, allowed, j));
                        lemma_resolved_not_unresolvable(us0, q, allowed, j);
                    }
                }
                assert(spec_resolve(views_of(us0), q, allowed) is None);
            }
            let i = pg_add_node(&mut ug.g);
            let ab_copy: Option<String> = match ab {
                Some(a) => Some(a.clone()),
                None => None,
            };
            ug.units.push(Unit { full_name: name.clone(), ab_name: ab_copy });
            proof {
                assert(views_of(ug.units@) =~= views_of(us0).push((name@, opt_view(*ab))));
            }
            i
        },
    }
}

/// Adds the reverse of every edge that lacks one, with the reciprocal
/// ratio, exactly as `add_reverse` describes; an explicitly authored
/// reverse edge is left alone.
fn add_reverse_edges(ug: &mut UnitGraph)
    requires
        old(ug).wf(),
        2 * old(ug).edges_view().len() <= INDEX_LIMIT,
    ensures
        final(ug).wf(),
        final(ug).units_view() == old(ug).units_view(),
        final(ug).edges_view().len() >= old(ug).edges_view().len(),
        final(ug).edges_view().take(old(ug).edges_view().len() as int) == old(ug).edges_view(),
        forall|j: int|
            old(ug).edges_view().len() <= j < final(ug).edges_view().len() ==> inverse_of_some(
                old(ug).edges_view(),
                #[trigger] final(ug).edges_view()[j],
                old(ug).edges_view().len() as int,
            ),
        final(ug).edges_view() == add_reverse(
            old(ug).edges_view(),
            old(ug).edges_view().len() as int,
            0,
        ),
        symmetric(final(ug).edges_view()),
{
    let n: usize = pg_edge_count(&ug.g);
    let ghost e0 = graph_edges(ug.g);
    let mut i: usize = 0;
    while i < n
        invariant
            i <= n,
            ug.wf(),
            ug.units_view() == old(ug).units_view(),
            n == e0.len(),
            2 * n <= INDEX_LIMIT,
            e0 == old(ug).edges_view(),
            graph_edges(ug.g).len() >= n,
            graph_edges(ug.g).len() <= n + i,
            graph_edges(ug.g).take(n as int) == e0,
            add_reverse(e0, n as int, 0) == add_reverse(graph_edges(ug.g), n as int, i as int),
            forall|k: int|
                0 <= k < i ==> has_edge(graph_edges(ug.g), (#[trigger] e0[k]).1, e0[k].0),
            forall|j: int|
                n <= j < graph_edges(ug.g).len() ==> inverse_of_some(
                    e0,
                    #[trigger] graph_edges(ug.g)[j],
                    n as int,
                ),
        decreases n - i,
    {
        let ghost pre = graph_edges(ug.g);
        let ab = pg_edge_endpoints(&ug.g, i);
        let w = pg_edge_weight(&ug.g, i);
        proof {
            assert(pre[i as int] == e0[i as int]);
        }
        if !pg_contains_edge(&ug.g, ab.1, ab.0) {
            pg_add_edge(&mut ug.g, ab.1, ab.0, (w.1, w.0));
            proof {
                let cur = graph_edges(ug.g);
                assert(cur.take(n as int) =~= e0);
                assert(cur[cur.len() - 1] == rev_edge(e0[i as int]));
                assert(cur == pre.push(rev_edge(pre[i as int])));
                assert(add_reverse(pre, n as int, i as int) == add_reverse(
                    cur,
                    n as int,
                    i + 1,
                ));
                assert forall|k: int| 0 <= k < i + 1 implies has_edge(
                    cur,
                    (#[trigger] e0[k]).1,
                    e0[k].0,
                ) by {
                    if k < i {
                        let wit = choose|m: int|
                            0 <= m < pre.len() && (#[trigger] pre[m]).0 == e0[k].1 && pre[m].1
                                == e0[k].0;
                        assert(cur[wit] == pre[wit]);
                    } else {
                        assert(cur[cur.len() - 1].0 == e0[i as int].1);
                    }
                }
            }
        } else {
            proof {
                assert(has_edge(graph_edges(ug.g), e0[i as int].1, e0[i as int].0));
                assert(add_reverse(pre, n as int, i as int) == add_reverse(
                    pre,
                    n as int,
                    i + 1,
                ));
            }
        }
        i = i + 1;
    }
    proof {
        let cur = graph_edges(ug.g);
        assert(add_reverse(cur, n as int, n as int) == cur);
        assert forall|j: int| 0 <= j < cur.len() implies has_edge(
            cur,
            (#[trigger] cur[j]).1,
            cur[j].0,
        ) by {
            if j < n as int {
                assert(cur[j] == e0[j]);
            } else {
                let k = choose|k: int| 0 <= k < n && cur[j] == rev_edge(#[trigger] e0[k]);
                assert(cur[k] == e0[k]);
                assert(cur[k].0 == cur[j].1 && cur[k].1 == cur[j].0);
            }
        }
    }
}

/// Every line of the table parses (or is blank) and no parsed value is
/// zero: the two gates the builder checks before any arithmetic.
pub open spec fn table_clean(lines: Seq<Seq<char>>) -> bool {
    &&& forall|k: int|
        0 <= k < lines.len() ==> blank_line(#[trigger] lines[k]) || spec_line_result(
            lines[k],
        ) is Ok
    &&& forall|k: int|
        0 <= k < lines.len() && !blank_line(#[trigger] lines[k]) ==> !line_has_zero_value(
            lines[k],
        )
}

/// The edge at index `ei` carries exactly the ratio `value2 / value1` of
/// the table line, stated by cross-multiplication over the exact decimal
/// values the line holds.
pub open spec fn line_edge_ok(edges: Seq<EdgeRec>, ei: int, line: Seq<char>) -> bool {
    match spec_line_result(line) {
        Ok((a, b)) => match (spec_parse_number(a.0), spec_parse_number(b.0)) {
            (Some((n1, d1)), Some((n2, d2))) => {
                &&& 0 <= ei < edges.len()
                &&& frac_eq(
                    edges[ei].2.0 as int,
                    edges[ei].2.1 as int,
                    (n2 * d1) as int,
                    (d2 * n1) as int,
                )
            },
            _ => false,
        },
        Err(_) => false,
    }
}

/// A line whose values parse, one of them to zero (no ratio can divide by
/// it, and a zero factor converts nothing back).
pub open spec fn line_has_zero_value(line: Seq<char>) -> bool {
    match spec_line_result(line) {
        Ok((a, b)) => {
            ||| match spec_parse_number(a.0) {
                Some((n, _)) => n == 0,
                None => false,
            }
            ||| match spec_parse_number(b.0) {
                Some((n, _)) => n == 0,
                None => false,
            }
        },
        Err(_) => false,
    }
}

/// Builds the conversion graph from the table text.
///
/// Each non-blank line `<value1> <name1>[(<ab1>)] = <value2> <name2>[(<ab2>)]`
/// contributes one directed edge carrying the exact reduced ratio
/// `value2 / value1` ("target units per source unit"); both sides are
/// deduplicated against the units seen so far, by exact abbreviation when
/// one is given and by full name within edit distance two otherwise, as
/// `build_fold` describes.  After all lines, the reverse of every edge that
/// lacks one is synthesized with the reciprocal ratio, as `add_reverse`
/// describes.
///
/// A structurally bad line fails with `MalformedTableLine`; a value token
/// that is not a decimal, does not fit the machine word, or is zero fails
/// with `InvalidQuantity`; `ArithmeticOverflow` comes exactly when some
/// line's reduced ratio outgrows the machine word.
pub fn create_graph(input_table: &str) -> (r: Result<UnitGraph, Error>)
    requires
        input_table@.len() < NAME_LIMIT,
    ensures
        ({
            let lines = split_at_sep(input_table@, '\n');
            &&& match r {
                Ok(g) => {
                    &&& g.wf()
                    &&& symmetric(g.edges_view())
                    &&& match build_fold(entries_of(lines)) {
                        Some(b) => views_of(g.units_view()) == b.0 && g.edges_view()
                            == add_reverse(b.1, b.1.len() as int, 0),
                        None => false,
                    }
                    &&& forall|k: int|
                        0 <= k < lines.len() && !blank_line(lines[k]) ==> line_edge_ok(
                            g.edges_view(),
                            count_nonblank(lines.take(k)) as int,
                            #[trigger] lines[k],
                        )
                },
                Err(e) => {
                    &&& (e == Error::MalformedTableLine || e == Error::InvalidQuantity || e
                        == Error::ArithmeticOverflow)
                    &&& e == Error::MalformedTableLine ==> exists|k: int|
                        0 <= k < lines.len() && !blank_line(#[trigger] lines[k])
                            && spec_line_result(lines[k]) == Err::<(SideSpec, SideSpec), Error>(e)
                    &&& e == Error::InvalidQuantity ==> exists|k: int|
                        0 <= k < lines.len() && !blank_line(#[trigger] lines[k]) && (
                        spec_line_result(lines[k]) == Err::<(SideSpec, SideSpec), Error>(e)
                            || line_has_zero_value(lines[k]))
                    &&& (e == Error::ArithmeticOverflow <==> table_clean(lines) && build_fold(
                        entries_of(lines),
                    ) is None)
                },
            }
            &&& (r is Ok <==> table_clean(lines) && build_fold(entries_of(lines)) is Some)
        }),
{
    let entries = match parse_table(input_table) {
        Ok(es) => es,
        Err(e) => {
            proof {
                let lines = split_at_sep(input_table@, '\n');
                let kk = choose|k: int|
                    0 <= k < lines.len() && !(#[trigger] blank_line(lines[k]))
                        && spec_line_result(lines[k]) == Err::<(SideSpec, SideSpec), Error>(e)
                        && forall|j: int|
                        0 <= j < k ==> blank_line(lines[j]) || spec_line_result(lines[j]) is Ok;
                assert(!blank_line(lines[kk]) && !(spec_line_result(lines[kk]) is Ok));
            }
            return Err(e);
        },
    };
    let ghost lines = split_at_sep(input_table@, '\n');
    let m: usize = entries.len();
    let mut z: usize = 0;
    while z < m
        invariant
            z <= m,
            m == entries@.len(),
            lines == split_at_sep(input_table@, '\n'),
            entries@.len() == count_nonblank(lines),
            forall|k: int|
                0 <= k < lines.len() && !blank_line(lines[k]) ==> entry_matches(
                    entries@[count_nonblank(lines.take(k)) as int],
                    #[trigger] lines[k],
                ),
            forall|i: int|
                0 <= i < z ==> (#[trigger] entries@[i]).v1.num >= 1 && entries@[i].v2.num >= 1,
        decreases m - z,
    {
        if entries[z].v1.num == 0 || entries[z].v2.num == 0 {
            proof {
                lemma_count_nonblank_surj(lines, z as int);
                let ln = choose|k: int|
                    0 <= k < lines.len() && !blank_line(#[trigger] lines[k]) && count_nonblank(
                        lines.take(k),
                    ) == z;
                assert(entry_matches(entries@[z as int], lines[ln]));
                assert(line_has_zero_value(lines[ln]));
            }
            return Err(Error::InvalidQuantity);
        }
        z = z + 1;
    }
    proof {
        assert forall|k2: int| 0 <= k2 < lines.len() && !blank_line(#[trigger] lines[k2]) implies
            spec_line_result(lines[k2]) is Ok && lines[k2].len() >= 7 && !line_has_zero_value(
            lines[k2],
        ) by {
            lemma_count_nonblank_mono(lines, k2, lines.len() as int);
            assert(lines.take(lines.len() as int) =~= lines);
            assert(entry_matches(entries@[count_nonblank(lines.take(k2)) as int], lines[k2]));
            lemma_line_min_len(lines[k2]);
        }
        lemma_count_bound(lines);
        lemma_split_sum(input_table@, '\n');
        assert(2 * m <= INDEX_LIMIT);
        lemma_entries_of_len(lines);
    }
    let ghost espec = entries_of(lines);
    let mut ug = UnitGraph { g: pg_new(), units: Vec::new() };
    let mut k: usize = 0;
    proof {
        assert(espec.take(0) =~= Seq::<EntrySpec>::empty());
        assert(views_of(ug.units@) =~= Seq::<UnitView>::empty());
    }
    while k < m
        invariant
            k <= m,
            m == entries@.len(),
            lines == split_at_sep(input_table@, '\n'),
            table_clean(lines),
            espec == entries_of(lines),
            espec == entries@.map_values(|e2: TableEntry| entry_spec_of(e2)),
            espec.len() == m,
            2 * m <= INDEX_LIMIT,
            ug.wf(),
            ug.units_view().len() <= 2 * k,
            ug.edges_view().len() == k,
            forall|i: int| 0 <= i < entries@.len() ==> (#[trigger] entries@[i]).wf(),
            forall|i: int|
                0 <= i < entries@.len() ==> (#[trigger] entries@[i]).v1.num >= 1
                    && entries@[i].v2.num >= 1,
            Some((views_of(ug.units@), ug.edges_view())) == build_fold(espec.take(k as int)),
            forall|j: int|
                0 <= j < k ==> frac_eq(
                    (#[trigger] ug.edges_view()[j]).2.0 as int,
                    ug.edges_view()[j].2.1 as int,
                    entries@[j].v2.num as int * entries@[j].v1.den as int,
                    entries@[j].v2.den as int * entries@[j].v1.num as int,
                ),
        decreases m - k,
    {
        let e = &entries[k];
        let ghost us_a = ug.units@;
        let n1 = find_or_insert(&mut ug, &e.name1, &e.ab1);
        let ghost us_b = ug.units@;
        let n2 = find_or_insert(&mut ug, &e.name2, &e.ab2);
        proof {
            assert(espec.take(k + 1).drop_last() =~= espec.take(k as int));
            assert(espec.take(k + 1).last() == espec[k as int]);
            assert(espec[k as int] == entry_spec_of(entries@[k as int]));
        }
        let inv1 = rat_inv(e.v1);
        proof {
            assert(inv1 == Rational { num: e.v1.den, den: e.v1.num });
            assert(Rational { num: espec[k as int].3.0 as u64, den: espec[k as int].3.1 as u64 }
                == e.v2);
            assert(Rational { num: espec[k as int].0.1 as u64, den: espec[k as int].0.0 as u64 }
                == inv1);
        }
        let w = match rat_mul(e.v2, inv1) {
            Some(w) => w,
            None => {
                proof {
                    assert(build_fold(espec.take(k + 1)) is None);
                    lemma_build_fold_none(espec, k + 1);
                    assert(espec.take(m as int) =~= espec);
                }
                return Err(Error::ArithmeticOverflow);
            },
        };
        pg_add_edge(&mut ug.g, n1, n2, (w.num, w.den));
        proof {
            assert(build_fold(espec.take(k + 1)) == Some(
                (views_of(ug.units@), graph_edges(ug.g)),
            ));
        }
        k = k + 1;
    }
    let ghost before = ug.edges_view();
    proof {
        assert(espec.take(m as int) =~= espec);
        assert(build_fold(espec) == Some((views_of(ug.units@), before)));
    }
    add_reverse_edges(&mut ug);
    proof {
        assert forall|k2: int| 0 <= k2 < lines.len() && !blank_line(lines[k2]) implies
            line_edge_ok(
            ug.edges_view(),
            count_nonblank(lines.take(k2)) as int,
            #[trigger] lines[k2],
        ) by {
            lemma_count_nonblank_mono(lines, k2, lines.len() as int);
            assert(lines.take(lines.len() as int) =~= lines);
            let ei = count_nonblank(lines.take(k2)) as int;
            assert(entry_matches(entries@[ei], lines[k2]));
            assert(ug.edges_view().take(before.len() as int)[ei] == before[ei]);
        }
    }
    Ok(ug)
}

} // verus!
