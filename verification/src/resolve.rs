use crate::distance::get_edit_distance;
use crate::text::NAME_LIMIT;
use crate::unit::{uv_dist, uv_matches_exact, Unit, UnitView};
use vstd::prelude::*;
use vstd::string::*;

verus! {

/// How many units of `us` the query `q` matches verbatim (by full name or
/// abbreviation).
pub open spec fn exact_count(us: Seq<Unit>, q: Seq<char>) -> nat
    decreases us.len(),
{
    if us.len() == 0 {
        0
    } else {
        exact_count(us.drop_last(), q) + if us.last().matches_exact(q) {
            1nat
        } else {
            0nat
        }
    }
}

/// Resolution relation for `get_node_from_name`: `q` resolves to the unit
/// at `i`, either as the only verbatim match, or — with no verbatim match,
/// fuzzy matching allowed and a token longer than three characters — as the
/// earliest unit at the global minimum edit distance, within `allowed`.
pub open spec fn resolves_to(us: Seq<Unit>, q: Seq<char>, allowed: u64, i: int) -> bool {
    ||| (exact_count(us, q) == 1 && 0 <= i < us.len() && us[i].matches_exact(q))
    ||| (exact_count(us, q) == 0 && allowed > 0 && q.len() > 3 && 0 <= i < us.len() && us[i].dist(
        q,
    ) <= allowed && (forall|j: int|
        0 <= j < us.len() ==> (#[trigger] us[j]).dist(q) >= us[i].dist(q)) && (forall|j: int|
        0 <= j < i ==> (#[trigger] us[j]).dist(q) > us[i].dist(q)))
}

/// No unit resolves: the query matches several units verbatim, or none
/// verbatim while fuzzy matching is shut off or every unit is too far.
pub open spec fn unresolvable(us: Seq<Unit>, q: Seq<char>, allowed: u64) -> bool {
    &&& exact_count(us, q) != 1
    &&& (exact_count(us, q) >= 2 || allowed == 0 || q.len() <= 3 || (forall|j: int|
        0 <= j < us.len() ==> (#[trigger] us[j]).dist(q) > allowed))
}

proof fn lemma_one_exact(us: Seq<Unit>, q: Seq<char>, i: int)
    requires
        0 <= i < us.len(),
        us[i].matches_exact(q),
    ensures
        exact_count(us, q) >= 1,
    decreases us.len(),
{
    if i < us.len() - 1 {
        assert(us.drop_last()[i] == us[i]);
        lemma_one_exact(us.drop_last(), q, i);
    }
}

proof fn lemma_two_exact(us: Seq<Unit>, q: Seq<char>, i: int, j: int)
    requires
        0 <= i < j < us.len(),
        us[i].matches_exact(q),
        us[j].matches_exact(q),
    ensures
        exact_count(us, q) >= 2,
    decreases us.len(),
{
    if j == us.len() - 1 {
        assert(us.drop_last()[i] == us[i]);
        lemma_one_exact(us.drop_last(), q, i);
    } else {
        assert(us.drop_last()[i] == us[i]);
        assert(us.drop_last()[j] == us[j]);
        lemma_two_exact(us.drop_last(), q, i, j);
    }
}

/// A token resolves to at most one unit: the verbatim winner is the only
/// verbatim match, and the fuzzy winner is the earliest minimum, which is
/// unique.
pub proof fn lemma_resolves_unique(us: Seq<Unit>, q: Seq<char>, allowed: u64, i: int, j: int)
    requires
        resolves_to(us, q, allowed, i),
        resolves_to(us, q, allowed, j),
    ensures
        i == j,
{
    if exact_count(us, q) == 1 {
        if i < j {
            lemma_two_exact(us, q, i, j);
        }
        if j < i {
            lemma_two_exact(us, q, j, i);
        }
    } else {
        if i < j {
            assert(us[i].dist(q) > us[j].dist(q));
            assert(us[j].dist(q) >= us[i].dist(q));
        }
        if j < i {
            assert(us[j].dist(q) > us[i].dist(q));
            assert(us[i].dist(q) >= us[j].dist(q));
        }
    }
}

/// A token that resolves to some unit is not unresolvable.
pub proof fn lemma_resolved_not_unresolvable(us: Seq<Unit>, q: Seq<char>, allowed: u64, i: int)
    requires
        resolves_to(us, q, allowed, i),
    ensures
        !unresolvable(us, q, allowed),
{
    if exact_count(us, q) == 1 {
    } else {
        assert(us[i].dist(q) <= allowed);
    }
}

/// `exact_count` at the view level.
pub open spec fn uv_exact_count(us: Seq<UnitView>, q: Seq<char>) -> nat
    decreases us.len(),
{
    if us.len() == 0 {
        0
    } else {
        uv_exact_count(us.drop_last(), q) + if uv_matches_exact(us.last(), q) {
            1nat
        } else {
            0nat
        }
    }
}

/// The resolution relation at the view level.
pub open spec fn uv_resolves_to(us: Seq<UnitView>, q: Seq<char>, allowed: u64, i: int) -> bool {
    ||| (uv_exact_count(us, q) == 1 && 0 <= i < us.len() && uv_matches_exact(us[i], q))
    ||| (uv_exact_count(us, q) == 0 && allowed > 0 && q.len() > 3 && 0 <= i < us.len() && uv_dist(
        us[i],
        q,
    ) <= allowed && (forall|j: int|
        0 <= j < us.len() ==> uv_dist(#[trigger] us[j], q) >= uv_dist(us[i], q)) && (forall|j: int|
        0 <= j < i ==> uv_dist(#[trigger] us[j], q) > uv_dist(us[i], q)))
}

/// What the resolver yields, as a function: the unique unit the token
/// resolves to, or nothing.
pub open spec fn spec_resolve(us: Seq<UnitView>, q: Seq<char>, allowed: u64) -> Option<int> {
    if exists|i: int| uv_resolves_to(us, q, allowed, i) {
        Some(choose|i: int| uv_resolves_to(us, q, allowed, i))
    } else {
        None
    }
}

/// The ghost contents of a unit list.
pub open spec fn views_of(us: Seq<Unit>) -> Seq<UnitView> {
    us.map_values(|u: Unit| u.view_of())
}

/// Counting matches commutes with taking views.
pub proof fn lemma_exact_count_views(us: Seq<Unit>, q: Seq<char>)
    ensures
        uv_exact_count(views_of(us), q) == exact_count(us, q),
    decreases us.len(),
{
    if us.len() > 0 {
        assert(views_of(us).drop_last() =~= views_of(us.drop_last()));
        assert(views_of(us).last() == us.last().view_of());
        lemma_exact_count_views(us.drop_last(), q);
    }
}

/// The resolution relation is the same seen through views.
pub proof fn lemma_resolves_views(us: Seq<Unit>, q: Seq<char>, allowed: u64)
    ensures
        forall|i: int|
            #[trigger] uv_resolves_to(views_of(us), q, allowed, i) <==> resolves_to(
                us,
                q,
                allowed,
                i,
            ),
{
    lemma_exact_count_views(us, q);
    let vs = views_of(us);
    assert(forall|j: int| 0 <= j < us.len() ==> #[trigger] vs[j] == us[j].view_of());
    assert forall|i: int|
        #[trigger] uv_resolves_to(vs, q, allowed, i) <==> resolves_to(us, q, allowed, i) by {
        if uv_resolves_to(vs, q, allowed, i) && uv_exact_count(vs, q) == 0 {
            assert forall|j: int| 0 <= j < us.len() implies (#[trigger] us[j]).dist(q)
                >= us[i].dist(q) by {
                assert(uv_dist(vs[j], q) >= uv_dist(vs[i], q));
            }
            assert forall|j: int| 0 <= j < i implies (#[trigger] us[j]).dist(q) > us[i].dist(
                q,
            ) by {
                assert(uv_dist(vs[j], q) > uv_dist(vs[i], q));
            }
        }
        if resolves_to(us, q, allowed, i) && exact_count(us, q) == 0 {
            assert forall|j: int| 0 <= j < vs.len() implies uv_dist(#[trigger] vs[j], q)
                >= uv_dist(vs[i], q) by {
                assert(us[j].dist(q) >= us[i].dist(q));
            }
            assert forall|j: int| 0 <= j < i implies uv_dist(#[trigger] vs[j], q) > uv_dist(
                vs[i],
                q,
            ) by {
                assert(us[j].dist(q) > us[i].dist(q));
            }
        }
    }
}

fn unit_dist_exec(u: &Unit, q: &String) -> (d: u64)
    requires
        u.wf(),
        q@.len() < NAME_LIMIT,
    ensures
        d as nat == u.dist(q@),
{
    let df: u64 = get_edit_distance(q, &u.full_name);
    match &u.ab_name {
        Some(a) => {
            let da: u64 = get_edit_distance(q, a);
            if da < df {
                da
            } else {
                df
            }
        },
        None => df,
    }
}

/// Resolves a free-text unit token to the index of exactly one unit.
///
/// An unambiguous verbatim match of the full name or abbreviation always
/// wins and never consults edit distances.  With no verbatim match, and only
/// when fuzzy matching is allowed (`allowed_distance > 0`) and the token is
/// long enough (more than three characters), the nearest unit by edit
/// distance is chosen — the earliest such unit on a tie — provided it is
/// within `allowed_distance`.  Everything else, in particular a token that
/// matches two units verbatim, resolves to `None`.
pub fn get_node_from_name(units: &Vec<Unit>, unit_name: &String, allowed_distance: u64) -> (r:
    Option<usize>)
    requires
        forall|i: int| 0 <= i < units@.len() ==> (#[trigger] units@[i]).wf(),
        unit_name@.len() < NAME_LIMIT,
    ensures
        match r {
            Some(i) => i < units@.len(),
            None => true,
        },
        match r {
            Some(i) => resolves_to(units@, unit_name@, allowed_distance, i as int),
            None => unresolvable(units@, unit_name@, allowed_distance),
        },
        exact_count(units@, unit_name@) == 1 ==> match r {
            Some(i) => units@[i as int].matches_exact(unit_name@),
            None => false,
        },
        exact_count(units@, unit_name@) >= 2 ==> r is None,
        exact_count(units@, unit_name@) == 0 && (allowed_distance == 0 || unit_name@.len() <= 3)
            ==> r is None,
        exact_count(units@, unit_name@) == 0 && allowed_distance > 0 && unit_name@.len() > 3
            ==> match r {
            Some(i) => {
                &&& units@[i as int].dist(unit_name@) <= allowed_distance
                &&& forall|j: int|
                    0 <= j < units@.len() ==> (#[trigger] units@[j]).dist(unit_name@)
                        >= units@[i as int].dist(unit_name@)
                &&& forall|j: int|
                    0 <= j < i ==> (#[trigger] units@[j]).dist(unit_name@) > units@[i as int].dist(
                        unit_name@,
                    )
            },
            None => forall|j: int|
                0 <= j < units@.len() ==> (#[trigger] units@[j]).dist(unit_name@)
                    > allowed_distance,
        },
{
    let n: usize = units.len();
    let mut match_count: usize = 0;
    let mut first_match: usize = 0;
    let mut k: usize = 0;
    while k < n
        invariant
            k <= n,
            n == units@.len(),
            match_count <= k,
            match_count as nat == exact_count(units@.take(k as int), unit_name@),
            match_count >= 1 ==> first_match < k && units@[first_match as int].matches_exact(
                unit_name@,
            ),
        decreases n - k,
    {
        let u = &units[k];
        let mut is_match: bool = u.full_name == *unit_name;
        match &u.ab_name {
            Some(a) => {
                if *a == *unit_name {
                    is_match = true;
                }
            },
            None => {},
        }
        if is_match {
            if match_count == 0 {
                first_match = k;
            }
            match_count = match_count + 1;
        }
        proof {
            assert(units@.take(k + 1).drop_last() =~= units@.take(k as int));
            assert(units@.take(k + 1).last() == units@[k as int]);
        }
        k = k + 1;
    }
    proof {
        assert(units@.take(n as int) =~= units@);
    }
    if match_count == 1 {
        return Some(first_match);
    }
    if match_count == 0 && allowed_distance > 0 && unit_name.as_str().unicode_len() > 3 {
        if n == 0 {
            return None;
        }
        let mut best_i: usize = 0;
        let mut best_d: u64 = unit_dist_exec(&units[0], unit_name);
        let mut j: usize = 1;
        while j < n
            invariant
                1 <= j <= n,
                n == units@.len(),
                best_i < j,
                forall|i: int| 0 <= i < units@.len() ==> (#[trigger] units@[i]).wf(),
                unit_name@.len() < NAME_LIMIT,
                best_d as nat == units@[best_i as int].dist(unit_name@),
                forall|i: int|
                    0 <= i < j ==> (#[trigger] units@[i]).dist(unit_name@) >= best_d as nat,
                forall|i: int|
                    0 <= i < best_i ==> (#[trigger] units@[i]).dist(unit_name@) > best_d as nat,
            decreases n - j,
        {
            let d: u64 = unit_dist_exec(&units[j], unit_name);
            if d < best_d {
                best_d = d;
                best_i = j;
            }
            j = j + 1;
        }
        if best_d > allowed_distance {
            return None;
        }
        return Some(best_i);
    }
    None
}

} // verus!
