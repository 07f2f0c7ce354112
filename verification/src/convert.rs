use crate::errors::Error;
use crate::factor::{get_conversion_factor, is_factor, run_fits};
use crate::parse::{
    find_char, find_char_vec, find_sub, find_sub_vec, number_fits, opt_view, parse_number,
    spec_parse_number, subvec,
};
use crate::text::{
    chars_to_string, lower_seq, lower_vec, singular, singular_vec, str_chars, trim_chars,
    trim_seq,
};
use crate::graph::UnitGraph;
use crate::paths::{reachable, valid_epath, EdgeRec};
use crate::rational::{
    frac_eq, lemma_frac_eq_mul, lemma_frac_eq_trans, rat_inv, rat_mul, red_den, red_num, Rational,
};
use crate::resolve::{
    get_node_from_name, lemma_resolved_not_unresolvable, lemma_resolves_unique, resolves_to,
    unresolvable,
};
use crate::text::NAME_LIMIT;
use vstd::prelude::*;

verus! {

/// How far a query token may be from a unit name and still resolve.
pub const QUERY_DISTANCE: u64 = 2;

/// A tokenized conversion request: a value, the source unit, and the target
/// unit, each side optionally a ratio of two units (`miles/hour`).  Both
/// sides are compound or neither is.
pub struct Query {
    pub value: Rational,
    pub from_name: String,
    pub from_den_name: Option<String>,
    pub to_name: String,
    pub to_den_name: Option<String>,
}

impl Query {
    /// The value is a valid ratio, the names are short enough to resolve,
    /// and the two sides agree on being compound.
    pub open spec fn wf(self) -> bool {
        &&& self.value.wf()
        &&& self.from_name@.len() < NAME_LIMIT
        &&& self.to_name@.len() < NAME_LIMIT
        &&& match self.from_den_name {
            Some(a) => a@.len() < NAME_LIMIT && self.to_den_name is Some,
            None => self.to_den_name is None,
        }
        &&& match self.to_den_name {
            Some(a) => a@.len() < NAME_LIMIT,
            None => true,
        }
    }

    /// A compound (`per`-style) query.
    pub open spec fn compound(self) -> bool {
        self.from_den_name is Some
    }
}

/// The reduced product of `a` and `b` fits the machine word.
pub open spec fn mul_fits(a: Rational, b: Rational) -> bool {
    red_num(a, b) <= u64::MAX && red_den(a, b) <= u64::MAX
}

/// The exact reduced product (meaningful when it fits).
pub open spec fn red_mul(a: Rational, b: Rational) -> Rational {
    Rational { num: red_num(a, b) as u64, den: red_den(a, b) as u64 }
}

/// Exact arithmetic on this query really can outgrow the machine word:
/// some path's running product overflows, or a factor the query's tokens
/// resolve to makes one of the value products overflow.
pub open spec fn overflow_evidence(
    us: Seq<crate::unit::Unit>,
    edges: Seq<EdgeRec>,
    q: Query,
) -> bool {
    ||| exists|ch: Seq<int>|
        #[trigger] valid_epath(edges, ch) && ch.len() > 0 && !run_fits(edges, ch)
    ||| exists|fi: usize, ti: usize, f: Rational|
        #[trigger] resolves_to(us, q.from_name@, QUERY_DISTANCE, fi as int)
            && #[trigger] resolves_to(us, q.to_name@, QUERY_DISTANCE, ti as int)
            && #[trigger] is_factor(edges, fi, ti, f) && f.pos() && !mul_fits(q.value, f)
    ||| (q.compound() && exists|
        fi: usize,
        ti: usize,
        fdi: usize,
        tdi: usize,
        f1: Rational,
        f2: Rational,
    |
        {
            &&& #[trigger] resolves_to(us, q.from_name@, QUERY_DISTANCE, fi as int)
            &&& #[trigger] resolves_to(us, q.to_name@, QUERY_DISTANCE, ti as int)
            &&& #[trigger] resolves_to(us, q.from_den_name->0@, QUERY_DISTANCE, fdi as int)
            &&& #[trigger] resolves_to(us, q.to_den_name->0@, QUERY_DISTANCE, tdi as int)
            &&& #[trigger] is_factor(edges, fi, ti, f1)
            &&& #[trigger] is_factor(edges, fdi, tdi, f2)
            &&& f1.pos()
            &&& f2.pos()
            &&& mul_fits(q.value, f1)
            &&& !mul_fits(red_mul(q.value, f1), Rational { num: f2.den, den: f2.num })
        })
}

/// `ans` is `v` scaled by the factor `f`.
pub open spec fn answer_simple_ok(ans: Rational, v: Rational, f: Rational) -> bool {
    frac_eq(
        ans.num as int,
        ans.den as int,
        v.num as int * f.num as int,
        v.den as int * f.den as int,
    )
}

/// `ans` is `v` scaled by the numerator pair's factor `f1` and divided by
/// the denominator pair's factor `f2`.
pub open spec fn answer_compound_ok(ans: Rational, v: Rational, f1: Rational, f2: Rational) -> bool {
    frac_eq(
        ans.num as int,
        ans.den as int,
        (v.num as int * f1.num as int) * f2.den as int,
        (v.den as int * f1.den as int) * f2.num as int,
    )
}

/// Answers a tokenized conversion request against the graph.
///
/// Each unit token is resolved with fuzzy tolerance `QUERY_DISTANCE`; the
/// factor between the resolved nodes scales the value, and for a compound
/// query the denominator pair's factor divides it.  `UnresolvedUnit`
/// exactly when some token resolves to no unit (or ambiguously to
/// several); `NoConversionPath` exactly when the tokens resolve but the
/// pair they resolve to is not connected; `ArithmeticOverflow` only when
/// the graph or the query's own products really overflow the machine word.
#[verifier::rlimit(100)]
pub fn convert(graph: &UnitGraph, query: &Query) -> (r: Result<Rational, Error>)
    requires
        graph.wf(),
        query.wf(),
    ensures
        ({
            let us = graph.units_view();
            let edges = graph.edges_view();
            match r {
                Ok(ans) => {
                    &&& ans.wf()
                    &&& if query.compound() {
                        exists|fi: usize, ti: usize, fdi: usize, tdi: usize, f1: Rational, f2: Rational|
                            {
                                &&& #[trigger] resolves_to(
                                    us,
                                    query.from_name@,
                                    QUERY_DISTANCE,
                                    fi as int,
                                )
                                &&& resolves_to(us, query.to_name@, QUERY_DISTANCE, ti as int)
                                &&& #[trigger] resolves_to(
                                    us,
                                    query.from_den_name->0@,
                                    QUERY_DISTANCE,
                                    fdi as int,
                                )
                                &&& #[trigger] resolves_to(
                                    us,
                                    query.to_den_name->0@,
                                    QUERY_DISTANCE,
                                    tdi as int,
                                )
                                &&& #[trigger] is_factor(edges, fi, ti, f1)
                                &&& #[trigger] is_factor(edges, fdi, tdi, f2)
                                &&& f1.pos()
                                &&& f2.pos()
                                &&& answer_compound_ok(ans, query.value, f1, f2)
                            }
                    } else {
                        exists|fi: usize, ti: usize, f: Rational|
                            {
                                &&& #[trigger] resolves_to(
                                    us,
                                    query.from_name@,
                                    QUERY_DISTANCE,
                                    fi as int,
                                )
                                &&& resolves_to(us, query.to_name@, QUERY_DISTANCE, ti as int)
                                &&& #[trigger] is_factor(edges, fi, ti, f)
                                &&& f.pos()
                                &&& answer_simple_ok(ans, query.value, f)
                            }
                    }
                },
                Err(e) => {
                    &&& (e == Error::UnresolvedUnit || e == Error::NoConversionPath || e
                        == Error::ArithmeticOverflow)
                    &&& (e == Error::UnresolvedUnit <==> {
                        ||| unresolvable(us, query.from_name@, QUERY_DISTANCE)
                        ||| unresolvable(us, query.to_name@, QUERY_DISTANCE)
                        ||| (query.compound() && (unresolvable(
                            us,
                            query.from_den_name->0@,
                            QUERY_DISTANCE,
                        ) || unresolvable(us, query.to_den_name->0@, QUERY_DISTANCE)))
                    })
                    &&& e == Error::NoConversionPath ==> {
                        ||| exists|fi: usize, ti: usize|
                            #[trigger] resolves_to(us, query.from_name@, QUERY_DISTANCE, fi as int)
                                && #[trigger] resolves_to(
                                us,
                                query.to_name@,
                                QUERY_DISTANCE,
                                ti as int,
                            ) && !reachable(edges, fi, ti)
                        ||| (query.compound() && exists|fdi: usize, tdi: usize|
                            #[trigger] resolves_to(
                                us,
                                query.from_den_name->0@,
                                QUERY_DISTANCE,
                                fdi as int,
                            ) && #[trigger] resolves_to(
                                us,
                                query.to_den_name->0@,
                                QUERY_DISTANCE,
                                tdi as int,
                            ) && !reachable(edges, fdi, tdi))
                    }
                    &&& e == Error::ArithmeticOverflow ==> overflow_evidence(us, edges, *query)
                },
            }
        }),
        (exists|fi: usize, ti: usize|
            #[trigger] resolves_to(
                graph.units_view(),
                query.from_name@,
                QUERY_DISTANCE,
                fi as int,
            ) && #[trigger] resolves_to(
                graph.units_view(),
                query.to_name@,
                QUERY_DISTANCE,
                ti as int,
            ) && !reachable(graph.edges_view(), fi, ti)) && !(query.compound() && (unresolvable(
            graph.units_view(),
            query.from_den_name->0@,
            QUERY_DISTANCE,
        ) || unresolvable(graph.units_view(), query.to_den_name->0@, QUERY_DISTANCE))) ==> r
            == Err::<Rational, Error>(Error::NoConversionPath),
{
    let ghost us = graph.units_view();
    let ghost edges = graph.edges_view();
    let fi = match get_node_from_name(&graph.units, &query.from_name, QUERY_DISTANCE) {
        Some(i) => i,
        None => {
            proof {
                assert forall|fi2: usize| !(#[trigger] resolves_to(
                    us,
                    query.from_name@,
                    QUERY_DISTANCE,
                    fi2 as int,
                )) by {
                    if resolves_to(us, query.from_name@, QUERY_DISTANCE, fi2 as int) {
                        lemma_resolved_not_unresolvable(
                            us,
                            query.from_name@,
                            QUERY_DISTANCE,
                            fi2 as int,
                        );
                    }
                }
            }
            return Err(Error::UnresolvedUnit);
        },
    };
    let ti = match get_node_from_name(&graph.units, &query.to_name, QUERY_DISTANCE) {
        Some(i) => i,
        None => {
            proof {
                assert forall|ti2: usize| !(#[trigger] resolves_to(
                    us,
                    query.to_name@,
                    QUERY_DISTANCE,
                    ti2 as int,
                )) by {
                    if resolves_to(us, query.to_name@, QUERY_DISTANCE, ti2 as int) {
                        lemma_resolved_not_unresolvable(
                            us,
                            query.to_name@,
                            QUERY_DISTANCE,
                            ti2 as int,
                        );
                    }
                }
            }
            return Err(Error::UnresolvedUnit);
        },
    };
    proof {
        assert forall|fi2: usize, ti2: usize|
            #[trigger] resolves_to(us, query.from_name@, QUERY_DISTANCE, fi2 as int)
                && #[trigger] resolves_to(
                us,
                query.to_name@,
                QUERY_DISTANCE,
                ti2 as int,
            ) implies fi2 == fi && ti2 == ti by {
            lemma_resolves_unique(us, query.from_name@, QUERY_DISTANCE, fi2 as int, fi as int);
            lemma_resolves_unique(us, query.to_name@, QUERY_DISTANCE, ti2 as int, ti as int);
        }
    }
    match (&query.from_den_name, &query.to_den_name) {
        (Some(fdn), Some(tdn)) => {
            let fdi = match get_node_from_name(&graph.units, fdn, QUERY_DISTANCE) {
                Some(i) => i,
                None => {
                    return Err(Error::UnresolvedUnit);
                },
            };
            let tdi = match get_node_from_name(&graph.units, tdn, QUERY_DISTANCE) {
                Some(i) => i,
                None => {
                    return Err(Error::UnresolvedUnit);
                },
            };
            proof {
                lemma_resolved_not_unresolvable(
                    graph.units_view(),
                    query.from_name@,
                    QUERY_DISTANCE,
                    fi as int,
                );
                lemma_resolved_not_unresolvable(
                    graph.units_view(),
                    query.to_name@,
                    QUERY_DISTANCE,
                    ti as int,
                );
                lemma_resolved_not_unresolvable(
                    graph.units_view(),
                    fdn@,
                    QUERY_DISTANCE,
                    fdi as int,
                );
                lemma_resolved_not_unresolvable(
                    graph.units_view(),
                    tdn@,
                    QUERY_DISTANCE,
                    tdi as int,
                );
            }
            let f1 = match get_conversion_factor(graph, fi, ti) {
                Ok(f) => f,
                Err(e) => {
                    return Err(e);
                },
            };
            let f2 = match get_conversion_factor(graph, fdi, tdi) {
                Ok(f) => f,
                Err(e) => {
                    return Err(e);
                },
            };
            let t1 = match rat_mul(query.value, f1) {
                Some(t) => t,
                None => {
                    return Err(Error::ArithmeticOverflow);
                },
            };
            let ans = match rat_mul(t1, rat_inv(f2)) {
                Some(a) => a,
                None => {
                    return Err(Error::ArithmeticOverflow);
                },
            };
            proof {
                lemma_frac_eq_mul(
                    t1.num as int,
                    t1.den as int,
                    query.value.num as int * f1.num as int,
                    query.value.den as int * f1.den as int,
                    f2.den as int,
                    f2.num as int,
                    f2.den as int,
                    f2.num as int,
                );
                assert(query.value.den as int * f1.den as int != 0 && t1.den as int * f2.num
                    as int != 0) by (nonlinear_arith)
                    requires
                        query.value.den >= 1,
                        f1.den >= 1,
                        t1.den >= 1,
                        f2.num >= 1;
                lemma_frac_eq_trans(
                    ans.num as int,
                    ans.den as int,
                    t1.num as int * f2.den as int,
                    t1.den as int * f2.num as int,
                    (query.value.num as int * f1.num as int) * f2.den as int,
                    (query.value.den as int * f1.den as int) * f2.num as int,
                );
            }
            Ok(ans)
        },
        _ => {
            proof {
                lemma_resolved_not_unresolvable(
                    graph.units_view(),
                    query.from_name@,
                    QUERY_DISTANCE,
                    fi as int,
                );
                lemma_resolved_not_unresolvable(
                    graph.units_view(),
                    query.to_name@,
                    QUERY_DISTANCE,
                    ti as int,
                );
            }
            let f = match get_conversion_factor(graph, fi, ti) {
                Ok(f) => f,
                Err(e) => {
                    return Err(e);
                },
            };
            let ans = match rat_mul(query.value, f) {
                Some(a) => a,
                None => {
                    return Err(Error::ArithmeticOverflow);
                },
            };
            Ok(ans)
        },
    }
}


/// The conversion separators, each four characters long.
pub open spec fn sep_to() -> Seq<char> {
    seq![' ', 't', 'o', ' ']
}

pub open spec fn sep_in() -> Seq<char> {
    seq![' ', 'i', 'n', ' ']
}

pub open spec fn sep_arrow() -> Seq<char> {
    seq![' ', '-', '>', ' ']
}

/// The word form of the compound separator, five characters long.
pub open spec fn sep_per() -> Seq<char> {
    seq![' ', 'p', 'e', 'r', ' ']
}

/// The earlier of two optional positions.
pub open spec fn opt_min(a: Option<int>, b: Option<int>) -> Option<int> {
    match (a, b) {
        (Option::None, x) => x,
        (Option::Some(i), Option::None) => Some(i),
        (Option::Some(i), Option::Some(j)) => if i <= j {
            Some(i)
        } else {
            Some(j)
        },
    }
}

/// The position of the earliest conversion separator — ` to `, ` in ` or
/// ` -> ` — in `s`.
pub open spec fn find_conv_sep(s: Seq<char>) -> Option<int> {
    opt_min(find_sub(s, sep_to()), opt_min(find_sub(s, sep_in()), find_sub(s, sep_arrow())))
}

/// The position and length of the earliest compound separator in `s`:
/// a `/` or the word ` per `.
pub open spec fn find_comp_sep(s: Seq<char>) -> Option<(int, int)> {
    match (find_char(s, '/'), find_sub(s, sep_per())) {
        (Option::None, Option::None) => None,
        (Option::Some(i), Option::None) => Some((i, 1int)),
        (Option::None, Option::Some(j)) => Some((j, 5int)),
        (Option::Some(i), Option::Some(j)) => if i < j {
            Some((i, 1int))
        } else {
            Some((j, 5int))
        },
    }
}

/// A unit token as the engine wants it: trimmed, lower-cased, singularized.
pub open spec fn finish_name(s: Seq<char>) -> Seq<char> {
    singular(lower_seq(trim_seq(s)))
}

/// One side of a query split at its compound separator, if any: the unit
/// name and the optional denominator unit name, both finished.  `None`
/// when a name is missing.
pub open spec fn spec_split_side(s: Seq<char>) -> Option<(Seq<char>, Option<Seq<char>>)> {
    match find_comp_sep(s) {
        None => if trim_seq(s).len() == 0 {
            None
        } else {
            Some((finish_name(s), None))
        },
        Some((pos, len)) => {
            let a = trim_seq(s.take(pos));
            let b = trim_seq(s.skip(pos + len));
            if a.len() == 0 || b.len() == 0 {
                None
            } else {
                Some((finish_name(s.take(pos)), Some(finish_name(s.skip(pos + len)))))
            }
        },
    }
}

/// What tokenizing a whole query yields, in the order the tokenizer looks:
/// a value token before the first space (a decimal that fits the machine
/// word, else `InvalidQuantity`), then the two sides around the earliest
/// conversion separator, each side optionally split at its compound
/// separator, with both sides compound or neither.
pub open spec fn spec_parse_query(s: Seq<char>) -> Result<
    ((nat, nat), Seq<char>, Option<Seq<char>>, Seq<char>, Option<Seq<char>>),
    Error,
> {
    let t = trim_seq(s);
    match find_char(t, ' ') {
        None => Err(Error::MalformedQuery),
        Some(sp) => {
            let vt = t.take(sp);
            let rest = t.skip(sp + 1);
            match spec_parse_number(vt) {
                None => Err(Error::InvalidQuantity),
                Some(v) => if !number_fits(vt) {
                    Err(Error::InvalidQuantity)
                } else {
                    match find_conv_sep(rest) {
                        None => Err(Error::MalformedQuery),
                        Some(cp) => {
                            let lhs = rest.take(cp);
                            let rhs = rest.skip(cp + 4);
                            match (spec_split_side(lhs), spec_split_side(rhs)) {
                                (Option::Some((n1, d1)), Option::Some((n2, d2))) => if (d1
                                    is Some) != (d2 is Some) {
                                    Err(Error::MalformedQuery)
                                } else {
                                    Ok((v, n1, d1, n2, d2))
                                },
                                _ => Err(Error::MalformedQuery),
                            }
                        },
                    }
                },
            }
        },
    }
}

fn finish_exec(v: &Vec<char>) -> (r: String)
    ensures
        r@ == finish_name(v@),
        r@.len() <= v@.len(),
{
    chars_to_string(&singular_vec(lower_vec(&trim_chars(v))))
}

fn conv_sep_pos(v: &Vec<char>) -> (r: Option<usize>)
    ensures
        match r {
            Some(i) => find_conv_sep(v@) == Some(i as int) && i + 4 <= v@.len(),
            None => find_conv_sep(v@) is None,
        },
{
    let pat_to: Vec<char> = vec![' ', 't', 'o', ' '];
    let pat_in: Vec<char> = vec![' ', 'i', 'n', ' '];
    let pat_arrow: Vec<char> = vec![' ', '-', '>', ' '];
    proof {
        assert(pat_to@ =~= sep_to());
        assert(pat_in@ =~= sep_in());
        assert(pat_arrow@ =~= sep_arrow());
    }
    let a = find_sub_vec(v, &pat_to);
    let b = find_sub_vec(v, &pat_in);
    let c = find_sub_vec(v, &pat_arrow);
    let bc: Option<usize> = match (b, c) {
        (Option::None, x) => x,
        (Option::Some(i), Option::None) => Some(i),
        (Option::Some(i), Option::Some(j)) => if i <= j {
            Some(i)
        } else {
            Some(j)
        },
    };
    match (a, bc) {
        (Option::None, x) => x,
        (Option::Some(i), Option::None) => Some(i),
        (Option::Some(i), Option::Some(j)) => if i <= j {
            Some(i)
        } else {
            Some(j)
        },
    }
}

fn comp_sep_pos(v: &Vec<char>) -> (r: Option<(usize, usize)>)
    ensures
        match r {
            Some((i, l)) => find_comp_sep(v@) == Some((i as int, l as int)) && i + l <= v@.len(),
            None => find_comp_sep(v@) is None,
        },
{
    let pat_per: Vec<char> = vec![' ', 'p', 'e', 'r', ' '];
    proof {
        assert(pat_per@ =~= sep_per());
    }
    let a = find_char_vec(v, '/');
    let b = find_sub_vec(v, &pat_per);
    match (a, b) {
        (Option::None, Option::None) => None,
        (Option::Some(i), Option::None) => Some((i, 1)),
        (Option::None, Option::Some(j)) => Some((j, 5)),
        (Option::Some(i), Option::Some(j)) => if i < j {
            Some((i, 1))
        } else {
            Some((j, 5))
        },
    }
}

fn split_side(v: &Vec<char>) -> (r: Result<(String, Option<String>), Error>)
    ensures
        match r {
            Ok((n, d)) => {
                &&& n@.len() <= v@.len()
                &&& match d {
                    Some(ds) => ds@.len() <= v@.len(),
                    None => true,
                }
                &&& match spec_split_side(v@) {
                    Some((sn, sd)) => n@ == sn && opt_view(d) == sd,
                    None => false,
                }
            },
            Err(e) => e == Error::MalformedQuery && spec_split_side(v@) is None,
        },
{
    match comp_sep_pos(v) {
        None => {
            let t = trim_chars(v);
            if t.len() == 0 {
                Err(Error::MalformedQuery)
            } else {
                Ok((finish_exec(v), None))
            }
        },
        Some((pos, len)) => {
            let n = v.len();
            proof {
                assert(pos + len <= n);
            }
            let left = subvec(v, 0, pos);
            let right = subvec(v, pos + len, n);
            proof {
                assert(right@ =~= v@.skip(pos + len));
            }
            let lt = trim_chars(&left);
            let rt = trim_chars(&right);
            if lt.len() == 0 || rt.len() == 0 {
                Err(Error::MalformedQuery)
            } else {
                Ok((finish_exec(&left), Some(finish_exec(&right))))
            }
        },
    }
}

/// Tokenizes a conversion request, `<number> <unit> (to|in|->) <unit>`,
/// each side optionally `unit/unit` or `unit per unit`, exactly as
/// `spec_parse_query` describes; unit tokens come out trimmed,
/// lower-cased and singularized.
pub fn parse_query(input: &str) -> (r: Result<Query, Error>)
    requires
        input@.len() < NAME_LIMIT,
    ensures
        match r {
            Ok(q) => {
                &&& q.wf()
                &&& match spec_parse_query(input@) {
                    Ok((v, n1, d1, n2, d2)) => {
                        &&& q.value.num as nat == v.0
                        &&& q.value.den as nat == v.1
                        &&& q.from_name@ == n1
                        &&& opt_view(q.from_den_name) == d1
                        &&& q.to_name@ == n2
                        &&& opt_view(q.to_den_name) == d2
                    },
                    Err(_) => false,
                }
            },
            Err(e) => spec_parse_query(input@) == Err::<
                ((nat, nat), Seq<char>, Option<Seq<char>>, Seq<char>, Option<Seq<char>>),
                Error,
            >(e),
        },
{
    let chars = str_chars(input);
    let t = trim_chars(&chars);
    let sp: usize = match find_char_vec(&t, ' ') {
        Some(s) => s,
        None => {
            return Err(Error::MalformedQuery);
        },
    };
    let vt = subvec(&t, 0, sp);
    let rest = subvec(&t, sp + 1, t.len());
    proof {
        assert(rest@ =~= t@.skip(sp + 1));
    }
    let value = match parse_number(&vt) {
        Ok(v) => v,
        Err(e) => {
            return Err(e);
        },
    };
    let cp: usize = match conv_sep_pos(&rest) {
        Some(c) => c,
        None => {
            return Err(Error::MalformedQuery);
        },
    };
    let lhs = subvec(&rest, 0, cp);
    let rhs = subvec(&rest, cp + 4, rest.len());
    proof {
        assert(rhs@ =~= rest@.skip(cp + 4));
    }
    let (from_name, from_den_name) = match split_side(&lhs) {
        Ok(x) => x,
        Err(e) => {
            return Err(e);
        },
    };
    let (to_name, to_den_name) = match split_side(&rhs) {
        Ok(x) => x,
        Err(e) => {
            return Err(e);
        },
    };
    let compound_l = match &from_den_name {
        Some(_) => true,
        None => false,
    };
    let compound_r = match &to_den_name {
        Some(_) => true,
        None => false,
    };
    if compound_l != compound_r {
        return Err(Error::MalformedQuery);
    }
    Ok(Query { value, from_name, from_den_name, to_name, to_den_name })
}

} // verus!
