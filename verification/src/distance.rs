use crate::text::str_chars;
use vstd::prelude::*;
use vstd::string::*;

verus! {

/// The smallest of three naturals.
pub open spec fn min3(a: nat, b: nat, c: nat) -> nat {
    if a <= b && a <= c {
        a
    } else if b <= c {
        b
    } else {
        c
    }
}

/// Levenshtein distance: the least number of single-character insertions,
/// deletions and substitutions that turn `s` into `t`.
pub open spec fn edit_dist(s: Seq<char>, t: Seq<char>) -> nat
    decreases s.len() + t.len(),
{
    if s.len() == 0 {
        t.len()
    } else if t.len() == 0 {
        s.len()
    } else if s.last() == t.last() {
        edit_dist(s.drop_last(), t.drop_last())
    } else {
        1 + min3(
            edit_dist(s.drop_last(), t),
            edit_dist(s, t.drop_last()),
            edit_dist(s.drop_last(), t.drop_last()),
        )
    }
}

/// The distance never exceeds the two lengths together.
pub proof fn lemma_edit_dist_bound(s: Seq<char>, t: Seq<char>)
    ensures
        edit_dist(s, t) <= s.len() + t.len(),
    decreases s.len() + t.len(),
{
    if s.len() == 0 || t.len() == 0 {
    } else if s.last() == t.last() {
        lemma_edit_dist_bound(s.drop_last(), t.drop_last());
    } else {
        lemma_edit_dist_bound(s.drop_last(), t.drop_last());
    }
}

fn min3_u64(a: u64, b: u64, c: u64) -> (r: u64)
    ensures
        r as nat == min3(a as nat, b as nat, c as nat),
{
    if a <= b && a <= c {
        a
    } else if b <= c {
        b
    } else {
        c
    }
}

/// Levenshtein distance of the two strings by the iterative
/// dynamic-programming table: row `i`, column `j` holds the distance between
/// the first `i` characters of `string1` and the first `j` of `string2`.
pub fn get_edit_distance(string1: &String, string2: &String) -> (d: u64)
    requires
        string1@.len() + string2@.len() < 0x8000_0000,
    ensures
        d as nat == edit_dist(string1@, string2@),
{
    let s: Vec<char> = str_chars(string1.as_str());
    let t: Vec<char> = str_chars(string2.as_str());
    let m: usize = s.len();
    let n: usize = t.len();
    let mut dp: Vec<Vec<u64>> = Vec::new();
    let mut i: usize = 0;
    while i <= m
        invariant
            i <= m + 1,
            s@ == string1@,
            t@ == string2@,
            m == s@.len(),
            n == t@.len(),
            m + n < 0x8000_0000,
            dp@.len() == i,
            forall|ii: int| 0 <= ii < i ==> #[trigger] dp@[ii]@.len() == n + 1,
            forall|ii: int, jj: int|
                0 <= ii < i && 0 <= jj <= n ==> #[trigger] dp@[ii]@[jj] as nat == edit_dist(
                    s@.take(ii),
                    t@.take(jj),
                ),
        decreases m + 1 - i,
    {
        let mut row: Vec<u64> = Vec::new();
        let mut j: usize = 0;
        while j <= n
            invariant
                j <= n + 1,
                i <= m,
                s@ == string1@,
                t@ == string2@,
                m == s@.len(),
                n == t@.len(),
                m + n < 0x8000_0000,
                dp@.len() == i,
                forall|ii: int| 0 <= ii < i ==> #[trigger] dp@[ii]@.len() == n + 1,
                forall|ii: int, jj: int|
                    0 <= ii < i && 0 <= jj <= n ==> #[trigger] dp@[ii]@[jj] as nat == edit_dist(
                        s@.take(ii),
                        t@.take(jj),
                    ),
                row@.len() == j,
                forall|jj: int|
                    0 <= jj < j ==> #[trigger] row@[jj] as nat == edit_dist(
                        s@.take(i as int),
                        t@.take(jj),
                    ),
            decreases n + 1 - j,
        {
            proof {
                lemma_edit_dist_bound(s@.take(i as int), t@.take(j as int));
                if i > 0 && j > 0 {
                    assert(s@.take(i as int).drop_last() =~= s@.take(i - 1));
                    assert(t@.take(j as int).drop_last() =~= t@.take(j - 1));
                    lemma_edit_dist_bound(s@.take(i - 1), t@.take(j as int));
                    lemma_edit_dist_bound(s@.take(i as int), t@.take(j - 1));
                    lemma_edit_dist_bound(s@.take(i - 1), t@.take(j - 1));
                }
            }
            let cell: u64 = if i == 0 {
                j as u64
            } else if j == 0 {
                i as u64
            } else if s[i - 1] == t[j - 1] {
                dp[i - 1][j - 1]
            } else {
                1 + min3_u64(dp[i - 1][j], row[j - 1], dp[i - 1][j - 1])
            };
            row.push(cell);
            j = j + 1;
        }
        dp.push(row);
        i = i + 1;
    }
    proof {
        assert(s@.take(m as int) =~= s@);
        assert(t@.take(n as int) =~= t@);
    }
    dp[m][n]
}

} // verus!
