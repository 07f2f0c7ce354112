use crate::errors::Error;
use crate::rational::Rational;
use crate::text::{
    chars_to_string, lemma_trim_ends, lemma_trim_len, lower_seq, lower_vec, singular,
    singular_vec, trim_chars, trim_seq, NAME_LIMIT,
};
use vstd::prelude::*;

verus! {

/// The index of the first occurrence of `c` in `s`.
pub open spec fn find_char(s: Seq<char>, c: char) -> Option<int>
    decreases s.len(),
{
    if s.len() == 0 {
        None
    } else if s[0] == c {
        Some(0int)
    } else {
        match find_char(s.drop_first(), c) {
            Some(i) => Some(i + 1),
            None => None,
        }
    }
}

/// `find_char` really is the first occurrence.
pub proof fn lemma_find_char(s: Seq<char>, c: char)
    ensures
        match find_char(s, c) {
            Some(i) => 0 <= i < s.len() && s[i] == c && forall|k: int| 0 <= k < i ==> s[k] != c,
            None => forall|k: int| 0 <= k < s.len() ==> s[k] != c,
        },
    decreases s.len(),
{
    if s.len() == 0 {
    } else if s[0] == c {
    } else {
        lemma_find_char(s.drop_first(), c);
        match find_char(s, c) {
            Some(i) => {
                assert forall|k: int| 0 <= k < i implies s[k] != c by {
                    if k > 0 {
                        assert(s.drop_first()[k - 1] == s[k]);
                    }
                }
                assert(s[i] == s.drop_first()[i - 1]);
            },
            None => {
                assert forall|k: int| 0 <= k < s.len() implies s[k] != c by {
                    if k > 0 {
                        assert(s.drop_first()[k - 1] == s[k]);
                    }
                }
            },
        }
    }
}

/// First occurrence of `c` in `v`, by a left-to-right scan.
pub fn find_char_vec(v: &Vec<char>, c: char) -> (r: Option<usize>)
    ensures
        match r {
            Some(i) => i < v@.len() && find_char(v@, c) == Some(i as int),
            None => find_char(v@, c) is None,
        },
{
    let n: usize = v.len();
    let mut i: usize = 0;
    while i < n
        invariant
            i <= n,
            n == v@.len(),
            forall|k: int| 0 <= k < i ==> v@[k] != c,
        decreases n - i,
    {
        if v[i] == c {
            proof {
                lemma_find_char(v@, c);
            }
            return Some(i);
        }
        i = i + 1;
    }
    proof {
        lemma_find_char(v@, c);
    }
    None
}

/// The characters of `v` between `lo` (inclusive) and `hi` (exclusive).
pub fn subvec(v: &Vec<char>, lo: usize, hi: usize) -> (r: Vec<char>)
    requires
        lo <= hi <= v@.len(),
    ensures
        r@ == v@.subrange(lo as int, hi as int),
{
    let mut r: Vec<char> = Vec::new();
    let mut i: usize = lo;
    while i < hi
        invariant
            lo <= i <= hi <= v@.len(),
            r@ == v@.subrange(lo as int, i as int),
        decreases hi - i,
    {
        r.push(v[i]);
        proof {
            assert(v@.subrange(lo as int, i as int).push(v@[i as int]) =~= v@.subrange(
                lo as int,
                i + 1,
            ));
        }
        i = i + 1;
    }
    r
}

/// A decimal digit.
pub open spec fn is_digit(c: char) -> bool {
    48 <= c as int <= 57
}

/// The value of a decimal digit.
pub open spec fn digit_val(c: char) -> nat {
    (c as int - 48) as nat
}

/// The scanning state after reading a number token from the left: whether a
/// decimal point was seen, how many digits were read, and the accumulated
/// numerator and denominator.  `None` means the characters read so far can
/// not open a number.
pub open spec fn num_state(s: Seq<char>) -> Option<(bool, nat, nat, nat)>
    decreases s.len(),
{
    if s.len() == 0 {
        Some((false, 0nat, 0nat, 1nat))
    } else {
        match num_state(s.drop_last()) {
            None => None,
            Some((dot, nd, num, den)) => {
                let c = s.last();
                if is_digit(c) {
                    Some(
                        (
                            dot,
                            nd + 1,
                            num * 10 + digit_val(c),
                            if dot {
                                den * 10
                            } else {
                                den
                            },
                        ),
                    )
                } else if c == '.' && !dot {
                    Some((true, nd, num, den))
                } else {
                    None
                }
            },
        }
    }
}

/// The exact value of a decimal number token — digits with at most one
/// decimal point and at least one digit — as a (numerator, denominator)
/// pair; `None` when `s` is no such token.
pub open spec fn spec_parse_number(s: Seq<char>) -> Option<(nat, nat)> {
    match num_state(s) {
        Some((dot, nd, num, den)) => if nd >= 1 {
            Some((num, den))
        } else {
            None
        },
        None => None,
    }
}

/// Reading further characters never shrinks the accumulated numerator or
/// denominator, and never turns a rejected prefix back into a number.
pub proof fn lemma_num_state_monotone(s: Seq<char>, i: int)
    requires
        0 <= i <= s.len(),
    ensures
        match num_state(s) {
            Some((dot, nd, num, den)) => match num_state(s.take(i)) {
                Some((dot_i, nd_i, num_i, den_i)) => num_i <= num && den_i <= den,
                None => false,
            },
            None => true,
        },
    decreases s.len(),
{
    if num_state(s) is Some {
        if i == s.len() {
            assert(s.take(i) =~= s);
        } else {
            let t = s.drop_last();
            assert(s.take(i) =~= t.take(i));
            lemma_num_state_monotone(t, i);
            match num_state(t) {
                Some((dot, nd, num, den)) => {
                    let c = s.last();
                    if is_digit(c) {
                        assert(num * 10 + digit_val(c) >= num) by (nonlinear_arith)
                            requires num >= 0;
                        assert(den * 10 >= den) by (nonlinear_arith)
                            requires den >= 0;
                    }
                },
                None => {},
            }
        }
    }
}

/// The numeric value of a decimal digit character, or `None`.
fn digit_of(c: char) -> (r: Option<u64>)
    ensures
        match r {
            Some(d) => is_digit(c) && d as nat == digit_val(c) && d <= 9,
            None => !is_digit(c),
        },
{
    if c == '0' {
        Some(0)
    } else if c == '1' {
        Some(1)
    } else if c == '2' {
        Some(2)
    } else if c == '3' {
        Some(3)
    } else if c == '4' {
        Some(4)
    } else if c == '5' {
        Some(5)
    } else if c == '6' {
        Some(6)
    } else if c == '7' {
        Some(7)
    } else if c == '8' {
        Some(8)
    } else if c == '9' {
        Some(9)
    } else {
        None
    }
}

/// Parses a decimal number token into an exact ratio.  Succeeds exactly
/// when the token is a well-formed decimal whose numerator and denominator
/// both fit in a `u64`.  Quantities are deliberately unsigned plain
/// decimals: the equivalence data model works with positive factors only,
/// so a signed or exponent-notation value is rejected as `InvalidQuantity`
/// rather than silently mishandled.
pub fn parse_number(tok: &Vec<char>) -> (r: Result<Rational, Error>)
    ensures
        match r {
            Ok(v) => v.wf() && spec_parse_number(tok@) == Some((v.num as nat, v.den as nat)),
            Err(e) => e == Error::InvalidQuantity,
        },
        r is Ok <==> match spec_parse_number(tok@) {
            Some((n, d)) => n <= u64::MAX && d <= u64::MAX,
            None => false,
        },
{
    let n: usize = tok.len();
    let mut seen_dot: bool = false;
    let mut ndigits: u64 = 0;
    let mut num: u64 = 0;
    let mut den: u64 = 1;
    let mut i: usize = 0;
    while i < n
        invariant
            i <= n,
            n == tok@.len(),
            ndigits <= i,
            den >= 1,
            num_state(tok@.take(i as int)) == Some(
                (seen_dot, ndigits as nat, num as nat, den as nat),
            ),
        decreases n - i,
    {
        let c = tok[i];
        proof {
            assert(tok@.take(i + 1).drop_last() =~= tok@.take(i as int));
            assert(tok@.take(i + 1).last() == tok@[i as int]);
        }
        if let Some(d) = digit_of(c) {
            let nn: u128 = (num as u128) * 10 + (d as u128);
            let nd: u128 = if seen_dot {
                (den as u128) * 10
            } else {
                den as u128
            };
            if nn > u64::MAX as u128 || nd > u64::MAX as u128 {
                proof {
                    lemma_num_state_monotone(tok@, i + 1);
                }
                return Err(Error::InvalidQuantity);
            }
            num = nn as u64;
            den = nd as u64;
            ndigits = ndigits + 1;
        } else if c == '.' && !seen_dot {
            seen_dot = true;
        } else {
            proof {
                lemma_num_state_monotone(tok@, i + 1);
            }
            return Err(Error::InvalidQuantity);
        }
        i = i + 1;
    }
    proof {
        assert(tok@.take(n as int) =~= tok@);
    }
    if ndigits == 0 {
        return Err(Error::InvalidQuantity);
    }
    Ok(Rational { num, den })
}


/// A number token parses and both components fit the machine word.
pub open spec fn number_fits(vt: Seq<char>) -> bool {
    match spec_parse_number(vt) {
        Some((n, d)) => n <= u64::MAX && d <= u64::MAX,
        None => false,
    }
}

/// One side of a table line, split into its raw value token, its finished
/// (lower-cased, singularized) name, and its finished abbreviation.
pub type SideSpec = (Seq<char>, Seq<char>, Option<Seq<char>>);

/// The view of an optional string.
pub open spec fn opt_view(o: Option<String>) -> Option<Seq<char>> {
    match o {
        Some(s) => Some(s@),
        None => None,
    }
}

/// Splits one side of a table line, `<value> <name>[(<abbrev>)]`, into its
/// value token, lower-cased singularized name, and lower-cased abbreviation.
/// `None` when the side does not fit that shape.
pub open spec fn spec_side_shape(s: Seq<char>) -> Option<SideSpec> {
    let t = trim_seq(s);
    match find_char(t, ' ') {
        None => None,
        Some(sp) => {
            let val_tok = t.take(sp);
            let rest = trim_seq(t.skip(sp + 1));
            match find_char(rest, '(') {
                None => if rest.len() == 0 {
                    None
                } else {
                    Some((val_tok, singular(lower_seq(rest)), None))
                },
                Some(op) => if rest.len() < 2 || rest.last() != ')' || op + 1 > rest.len() - 1 {
                    None
                } else {
                    let name_raw = trim_seq(rest.take(op));
                    let ab = trim_seq(rest.subrange(op + 1, rest.len() - 1));
                    if name_raw.len() == 0 || ab.len() == 0 {
                        None
                    } else {
                        Some((val_tok, singular(lower_seq(name_raw)), Some(lower_seq(ab))))
                    }
                },
            }
        },
    }
}

/// What parsing a whole table line yields, in the order the parser looks:
/// the line must hold exactly one `=`, each side must have the
/// `<value> <name>[(<abbrev>)]` shape (else `MalformedTableLine`), and each
/// value token must be a decimal that fits the machine word (else
/// `InvalidQuantity`), left side first.
pub open spec fn spec_line_result(line: Seq<char>) -> Result<(SideSpec, SideSpec), Error> {
    match find_char(line, '=') {
        None => Err(Error::MalformedTableLine),
        Some(eq) => {
            let left = line.take(eq);
            let right = line.skip(eq + 1);
            if find_char(right, '=') is Some {
                Err(Error::MalformedTableLine)
            } else {
                match spec_side_shape(left) {
                    None => Err(Error::MalformedTableLine),
                    Some(a) => if !number_fits(a.0) {
                        Err(Error::InvalidQuantity)
                    } else {
                        match spec_side_shape(right) {
                            None => Err(Error::MalformedTableLine),
                            Some(b) => if !number_fits(b.0) {
                                Err(Error::InvalidQuantity)
                            } else {
                                Ok((a, b))
                            },
                        }
                    },
                }
            }
        },
    }
}

/// One equivalence from the table, with both values held exactly.
#[derive(Debug)]
pub struct TableEntry {
    pub v1: Rational,
    pub name1: String,
    pub ab1: Option<String>,
    pub v2: Rational,
    pub name2: String,
    pub ab2: Option<String>,
}

impl TableEntry {
    /// Values are valid ratios and names are short enough to resolve.
    pub open spec fn wf(self) -> bool {
        &&& self.v1.wf()
        &&& self.v2.wf()
        &&& self.name1@.len() < NAME_LIMIT
        &&& self.name2@.len() < NAME_LIMIT
        &&& match self.ab1 {
            Some(a) => a@.len() < NAME_LIMIT,
            None => true,
        }
        &&& match self.ab2 {
            Some(a) => a@.len() < NAME_LIMIT,
            None => true,
        }
    }
}

/// `e` holds exactly what `spec_line_result` yields for `line`.
pub open spec fn entry_matches(e: TableEntry, line: Seq<char>) -> bool {
    match spec_line_result(line) {
        Ok((a, b)) => {
            &&& e.name1@ == a.1
            &&& opt_view(e.ab1) == a.2
            &&& spec_parse_number(a.0) == Some((e.v1.num as nat, e.v1.den as nat))
            &&& e.name2@ == b.1
            &&& opt_view(e.ab2) == b.2
            &&& spec_parse_number(b.0) == Some((e.v2.num as nat, e.v2.den as nat))
        },
        Err(_) => false,
    }
}

fn parse_side(side: &Vec<char>) -> (r: Result<(Rational, String, Option<String>), Error>)
    requires
        side@.len() < NAME_LIMIT,
    ensures
        match r {
            Ok((v, name, ab)) => {
                &&& v.wf()
                &&& name@.len() < NAME_LIMIT
                &&& match ab {
                    Some(a) => a@.len() < NAME_LIMIT,
                    None => true,
                }
                &&& match spec_side_shape(side@) {
                    Some((vt, nm, abo)) => name@ == nm && opt_view(ab) == abo && number_fits(vt)
                        && spec_parse_number(vt) == Some((v.num as nat, v.den as nat)),
                    None => false,
                }
            },
            Err(e) => e == Error::MalformedTableLine || e == Error::InvalidQuantity,
        },
        (match r {
            Err(e) => e == Error::MalformedTableLine,
            Ok(_) => false,
        }) <==> spec_side_shape(side@) is None,
        r is Ok <==> match spec_side_shape(side@) {
            Some((vt, nm, abo)) => number_fits(vt),
            None => false,
        },
{
    let t = trim_chars(side);
    let sp: usize = match find_char_vec(&t, ' ') {
        Some(s) => s,
        None => {
            return Err(Error::MalformedTableLine);
        },
    };
    let val_tok = subvec(&t, 0, sp);
    let rest0 = subvec(&t, sp + 1, t.len());
    proof {
        assert(rest0@ =~= t@.skip(sp + 1));
    }
    let rest = trim_chars(&rest0);
    match find_char_vec(&rest, '(') {
        None => {
            if rest.len() == 0 {
                return Err(Error::MalformedTableLine);
            }
            let v = match parse_number(&val_tok) {
                Ok(v) => v,
                Err(e) => {
                    return Err(e);
                },
            };
            let name = chars_to_string(&singular_vec(lower_vec(&rest)));
            Ok((v, name, None))
        },
        Some(op) => {
            if rest.len() < 2 {
                return Err(Error::MalformedTableLine);
            }
            if rest[rest.len() - 1] != ')' {
                return Err(Error::MalformedTableLine);
            }
            if op + 1 > rest.len() - 1 {
                return Err(Error::MalformedTableLine);
            }
            let name_raw = trim_chars(&subvec(&rest, 0, op));
            let ab_raw = trim_chars(&subvec(&rest, op + 1, rest.len() - 1));
            if name_raw.len() == 0 || ab_raw.len() == 0 {
                return Err(Error::MalformedTableLine);
            }
            let v = match parse_number(&val_tok) {
                Ok(v) => v,
                Err(e) => {
                    return Err(e);
                },
            };
            let name = chars_to_string(&singular_vec(lower_vec(&name_raw)));
            let ab = chars_to_string(&lower_vec(&ab_raw));
            Ok((v, name, Some(ab)))
        },
    }
}

/// Parses one table line, `<value> <name>[(<abbrev>)] = <value>
/// <name>[(<abbrev>)]`, exactly as `spec_line_result` describes.
pub fn parse_line(line: &Vec<char>) -> (r: Result<TableEntry, Error>)
    requires
        line@.len() < NAME_LIMIT,
    ensures
        match r {
            Ok(e) => e.wf() && entry_matches(e, line@) && spec_line_result(line@) is Ok,
            Err(e) => spec_line_result(line@) == Err::<(SideSpec, SideSpec), Error>(e),
        },
{
    let eq: usize = match find_char_vec(line, '=') {
        Some(i) => i,
        None => {
            return Err(Error::MalformedTableLine);
        },
    };
    let left = subvec(line, 0, eq);
    let right = subvec(line, eq + 1, line.len());
    proof {
        assert(right@ =~= line@.skip(eq + 1));
    }
    match find_char_vec(&right, '=') {
        Some(_) => {
            return Err(Error::MalformedTableLine);
        },
        None => {},
    }
    let (v1, name1, ab1) = match parse_side(&left) {
        Ok(x) => x,
        Err(e) => {
            return Err(e);
        },
    };
    let (v2, name2, ab2) = match parse_side(&right) {
        Ok(x) => x,
        Err(e) => {
            return Err(e);
        },
    };
    Ok(TableEntry { v1, name1, ab1, v2, name2, ab2 })
}


/// `s` split at every occurrence of `sep`; the separators themselves are
/// dropped and empty pieces are kept.
pub open spec fn split_at_sep(s: Seq<char>, sep: char) -> Seq<Seq<char>>
    decreases s.len() via split_at_sep_decreases
{
    match find_char(s, sep) {
        None => seq![s],
        Some(i) => seq![s.take(i)] + split_at_sep(s.skip(i + 1), sep),
    }
}

#[via_fn]
proof fn split_at_sep_decreases(s: Seq<char>, sep: char) {
    match find_char(s, sep) {
        Some(i) => {
            lemma_find_char(s, sep);
        },
        None => {},
    }
}

/// Every piece of the split is no longer than the whole.
pub proof fn lemma_split_parts_len(s: Seq<char>, sep: char)
    ensures
        forall|i: int|
            0 <= i < split_at_sep(s, sep).len() ==> (#[trigger] split_at_sep(s, sep)[i]).len()
                <= s.len(),
    decreases s.len(),
{
    match find_char(s, sep) {
        None => {},
        Some(i) => {
            lemma_find_char(s, sep);
            lemma_split_parts_len(s.skip(i + 1), sep);
            assert forall|ii: int| 0 <= ii < split_at_sep(s, sep).len() implies (#[trigger]
            split_at_sep(s, sep)[ii]).len() <= s.len() by {
                if ii > 0 {
                    assert(split_at_sep(s, sep)[ii] == split_at_sep(s.skip(i + 1), sep)[ii - 1]);
                }
            }
        },
    }
}

/// Splits `v` at every occurrence of `sep`, as `split_at_sep` describes.
pub fn split_chars(v: Vec<char>, sep: char) -> (r: Vec<Vec<char>>)
    ensures
        r.deep_view() == split_at_sep(v@, sep),
        r@.len() >= 1,
    decreases v@.len(),
{
    match find_char_vec(&v, sep) {
        None => {
            let mut r: Vec<Vec<char>> = Vec::new();
            r.push(v);
            proof {
                assert(r.deep_view() =~~= seq![r@[0]@]);
            }
            r
        },
        Some(j) => {
            proof {
                lemma_find_char(v@, sep);
            }
            let n: usize = v.len();
            let part = subvec(&v, 0, j);
            let rest = subvec(&v, j + 1, n);
            proof {
                assert(rest@ =~= v@.skip(j + 1));
            }
            let mut r = split_chars(rest, sep);
            r.insert(0, part);
            proof {
                assert(r.deep_view() =~~= seq![part@] + split_at_sep(v@.skip(j + 1), sep));
            }
            r
        },
    }
}

/// The line holds nothing but whitespace.
pub open spec fn blank_line(l: Seq<char>) -> bool {
    trim_seq(l).len() == 0
}

/// How many lines are not blank.
pub open spec fn count_nonblank(lines: Seq<Seq<char>>) -> nat
    decreases lines.len(),
{
    if lines.len() == 0 {
        0
    } else {
        count_nonblank(lines.drop_last()) + if blank_line(lines.last()) {
            0nat
        } else {
            1nat
        }
    }
}

/// The lengths of all pieces together.
pub open spec fn sum_lens(parts: Seq<Seq<char>>) -> nat
    decreases parts.len(),
{
    if parts.len() == 0 {
        0
    } else {
        sum_lens(parts.drop_last()) + parts.last().len()
    }
}

proof fn lemma_sum_lens_concat(a: Seq<Seq<char>>, b: Seq<Seq<char>>)
    ensures
        sum_lens(a + b) == sum_lens(a) + sum_lens(b),
    decreases b.len(),
{
    if b.len() == 0 {
        assert(a + b =~= a);
    } else {
        assert((a + b).drop_last() =~= a + b.drop_last());
        assert((a + b).last() == b.last());
        lemma_sum_lens_concat(a, b.drop_last());
    }
}

/// Splitting accounts for every character: the pieces plus one separator
/// between each neighbouring pair.
pub proof fn lemma_split_sum(s: Seq<char>, sep: char)
    ensures
        sum_lens(split_at_sep(s, sep)) + split_at_sep(s, sep).len() == s.len() + 1,
    decreases s.len(),
{
    match find_char(s, sep) {
        None => {
            assert(seq![s].len() == 1 && seq![s].last() == s);
            assert(seq![s].drop_last() =~= Seq::<Seq<char>>::empty());
            assert(sum_lens(Seq::<Seq<char>>::empty()) == 0);
            assert(sum_lens(seq![s]) == s.len());
        },
        Some(i) => {
            lemma_find_char(s, sep);
            lemma_split_sum(s.skip(i + 1), sep);
            lemma_sum_lens_concat(seq![s.take(i)], split_at_sep(s.skip(i + 1), sep));
            assert(seq![s.take(i)].len() == 1 && seq![s.take(i)].last() == s.take(i));
            assert(seq![s.take(i)].drop_last() =~= Seq::<Seq<char>>::empty());
            assert(sum_lens(Seq::<Seq<char>>::empty()) == 0);
            assert(sum_lens(seq![s.take(i)]) == i);
        },
    }
}

/// A side that fits the `<value> <name>[(<abbrev>)]` shape holds at least
/// a value character, a space and a name character.
pub proof fn lemma_side_min_len(s: Seq<char>)
    ensures
        spec_side_shape(s) is Some ==> s.len() >= 3,
{
    if spec_side_shape(s) is Some {
        let t = trim_seq(s);
        lemma_trim_len(s);
        lemma_trim_ends(s);
        match find_char(t, ' ') {
            Some(sp) => {
                lemma_find_char(t, ' ');
                assert(sp >= 1);
                lemma_trim_len(t.skip(sp + 1));
                assert(trim_seq(t.skip(sp + 1)).len() >= 1);
            },
            None => {},
        }
    }
}

/// A line that parses holds two sides of at least three characters around
/// its `=`.
pub proof fn lemma_line_min_len(line: Seq<char>)
    ensures
        spec_line_result(line) is Ok ==> line.len() >= 7,
{
    if spec_line_result(line) is Ok {
        match find_char(line, '=') {
            Some(eq) => {
                lemma_find_char(line, '=');
                lemma_side_min_len(line.take(eq));
                lemma_side_min_len(line.skip(eq + 1));
            },
            None => {},
        }
    }
}

/// When every non-blank line holds at least seven characters, the
/// non-blank count is bounded by a seventh of all the text.
pub proof fn lemma_count_bound(lines: Seq<Seq<char>>)
    requires
        forall|k: int|
            0 <= k < lines.len() && !blank_line(lines[k]) ==> (#[trigger] lines[k]).len() >= 7,
    ensures
        7 * count_nonblank(lines) <= sum_lens(lines),
    decreases lines.len(),
{
    if lines.len() > 0 {
        assert(forall|k: int|
            0 <= k < lines.drop_last().len() ==> #[trigger] lines.drop_last()[k] == lines[k]);
        lemma_count_bound(lines.drop_last());
    }
}

/// One table entry as ghost values alone: value, name and abbreviation of
/// each side, the values as exact (numerator, denominator) pairs.
pub type EntrySpec = ((nat, nat), Seq<char>, Option<Seq<char>>, (nat, nat), Seq<char>, Option<
    Seq<char>,
>);

/// The ghost entry a parsed line denotes (meaningful when
/// `spec_line_result` is `Ok`).
pub open spec fn line_entry(line: Seq<char>) -> EntrySpec {
    match spec_line_result(line) {
        Ok((a, b)) => (
            match spec_parse_number(a.0) {
                Some(v) => v,
                None => (0nat, 1nat),
            },
            a.1,
            a.2,
            match spec_parse_number(b.0) {
                Some(v) => v,
                None => (0nat, 1nat),
            },
            b.1,
            b.2,
        ),
        Err(_) => ((0nat, 1nat), Seq::empty(), None, (0nat, 1nat), Seq::empty(), None),
    }
}

/// The ghost entries of the table: one per non-blank line, in order.
pub open spec fn entries_of(lines: Seq<Seq<char>>) -> Seq<EntrySpec>
    decreases lines.len(),
{
    if lines.len() == 0 {
        Seq::empty()
    } else {
        entries_of(lines.drop_last()) + if blank_line(lines.last()) {
            Seq::empty()
        } else {
            seq![line_entry(lines.last())]
        }
    }
}

/// The ghost content of a parsed entry.
pub open spec fn entry_spec_of(e: TableEntry) -> EntrySpec {
    (
        (e.v1.num as nat, e.v1.den as nat),
        e.name1@,
        opt_view(e.ab1),
        (e.v2.num as nat, e.v2.den as nat),
        e.name2@,
        opt_view(e.ab2),
    )
}

/// Earlier non-blank lines give strictly smaller counts.
pub proof fn lemma_count_nonblank_mono(lines: Seq<Seq<char>>, j: int, k: int)
    requires
        0 <= j < k <= lines.len(),
        !blank_line(lines[j]),
    ensures
        count_nonblank(lines.take(j)) < count_nonblank(lines.take(k)),
    decreases k,
{
    if k == j + 1 {
        assert(lines.take(k).drop_last() =~= lines.take(j));
        assert(lines.take(k).last() == lines[j]);
    } else {
        lemma_count_nonblank_mono(lines, j, k - 1);
        assert(lines.take(k).drop_last() =~= lines.take(k - 1));
        assert(lines.take(k).last() == lines[k - 1]);
    }
}

/// Every count below the total is reached at some non-blank line.
pub proof fn lemma_count_nonblank_surj(lines: Seq<Seq<char>>, j: int)
    requires
        0 <= j < count_nonblank(lines),
    ensures
        exists|k: int|
            0 <= k < lines.len() && !blank_line(#[trigger] lines[k]) && count_nonblank(
                lines.take(k),
            ) == j,
    decreases lines.len(),
{
    let prev = lines.drop_last();
    assert(lines.take(lines.len() - 1) =~= prev);
    if !blank_line(lines.last()) && j == count_nonblank(prev) {
        assert(!blank_line(lines[lines.len() - 1]));
    } else {
        lemma_count_nonblank_surj(prev, j);
        let k = choose|k: int|
            0 <= k < prev.len() && !blank_line(#[trigger] prev[k]) && count_nonblank(prev.take(k))
                == j;
        assert(prev.take(k) =~= lines.take(k));
        assert(!blank_line(lines[k]));
    }
}

proof fn lemma_table_step(lv: Seq<Seq<char>>, k: int, old_es: Seq<TableEntry>, e: TableEntry)
    requires
        0 <= k < lv.len(),
        !blank_line(lv[k]),
        entry_matches(e, lv[k]),
        old_es.map_values(|e2: TableEntry| entry_spec_of(e2)) == entries_of(lv.take(k)),
    ensures
        old_es.push(e).map_values(|e2: TableEntry| entry_spec_of(e2)) == entries_of(
            lv.take(k + 1),
        ),
{
    assert(lv.take(k + 1).drop_last() =~= lv.take(k));
    assert(lv.take(k + 1).last() == lv[k]);
    assert(entry_spec_of(e) == line_entry(lv[k]));
    assert(old_es.push(e).map_values(|e2: TableEntry| entry_spec_of(e2)) =~= entries_of(
        lv.take(k),
    ).push(entry_spec_of(e)));
    assert(entries_of(lv.take(k)).push(line_entry(lv[k])) =~= entries_of(lv.take(k + 1)));
}

proof fn lemma_table_step_blank(lv: Seq<Seq<char>>, k: int)
    requires
        0 <= k < lv.len(),
        blank_line(lv[k]),
    ensures
        entries_of(lv.take(k + 1)) == entries_of(lv.take(k)),
{
    assert(lv.take(k + 1).drop_last() =~= lv.take(k));
    assert(lv.take(k + 1).last() == lv[k]);
    assert(entries_of(lv.take(k)) + Seq::<EntrySpec>::empty() =~= entries_of(lv.take(k)));
}

/// Parses the whole table text: blank lines are skipped, every other line
/// must parse.  On success the entries hold, line by line and in order,
/// exactly what `spec_line_result` yields for each non-blank line; on
/// failure the error is the one for the first offending line.
#[verifier::rlimit(100)]
pub fn parse_table(input: &str) -> (r: Result<Vec<TableEntry>, Error>)
    requires
        input@.len() < NAME_LIMIT,
    ensures
        ({
            let lines = split_at_sep(input@, '\n');
            match r {
                Ok(es) => {
                    &&& es@.len() == count_nonblank(lines)
                    &&& es@.map_values(|e: TableEntry| entry_spec_of(e)) == entries_of(lines)
                    &&& forall|i: int| 0 <= i < es@.len() ==> (#[trigger] es@[i]).wf()
                    &&& forall|k: int|
                        0 <= k < lines.len() && !blank_line(lines[k]) ==> entry_matches(
                            es@[count_nonblank(lines.take(k)) as int],
                            #[trigger] lines[k],
                        )
                },
                Err(e) => exists|k: int|
                    0 <= k < lines.len() && !(#[trigger] blank_line(lines[k]))
                        && spec_line_result(lines[k]) == Err::<(SideSpec, SideSpec), Error>(e)
                        && forall|j: int|
                        0 <= j < k ==> blank_line(lines[j]) || spec_line_result(lines[j]) is Ok,
            }
        }),
{
    let chars = crate::text::str_chars(input);
    let ghost full = chars@;
    let lines = split_chars(chars, '\n');
    let ghost lv = lines.deep_view();
    proof {
        lemma_split_parts_len(full, '\n');
    }
    let n: usize = lines.len();
    let mut es: Vec<TableEntry> = Vec::new();
    let mut k: usize = 0;
    while k < n
        invariant
            k <= n,
            n == lines@.len(),
            lv == lines.deep_view(),
            lv == split_at_sep(full, '\n'),
            lv.len() == n,
            full == input@,
            full.len() < NAME_LIMIT,
            forall|i: int| 0 <= i < lv.len() ==> (#[trigger] lv[i]).len() <= full.len(),
            es@.len() == count_nonblank(lv.take(k as int)),
            es@.map_values(|e: TableEntry| entry_spec_of(e)) == entries_of(lv.take(k as int)),
            forall|i: int| 0 <= i < es@.len() ==> (#[trigger] es@[i]).wf(),
            forall|j: int|
                0 <= j < k && !blank_line(lv[j]) ==> entry_matches(
                    es@[count_nonblank(lv.take(j)) as int],
                    #[trigger] lv[j],
                ),
            forall|j: int|
                0 <= j < k ==> blank_line(lv[j]) || spec_line_result(#[trigger] lv[j]) is Ok,
        decreases n - k,
    {
        let line = &lines[k];
        proof {
            assert(lv[k as int] == line@);
            assert(lv.take(k + 1).drop_last() =~= lv.take(k as int));
            assert(lv.take(k + 1).last() == lv[k as int]);
        }
        let t = trim_chars(line);
        if t.len() == 0 {
            proof {
                lemma_table_step_blank(lv, k as int);
            }
        } else {
            match parse_line(line) {
                Ok(e) => {
                    let ghost old_es = es@;
                    es.push(e);
                    proof {
                        lemma_table_step(lv, k as int, old_es, e);
                        assert forall|j: int| 0 <= j < k + 1 && !blank_line(lv[j]) implies
                            entry_matches(es@[count_nonblank(lv.take(j)) as int], lv[j]) by {
                            if j < k {
                                lemma_count_nonblank_mono(lv, j, k as int);
                                assert(es@[count_nonblank(lv.take(j)) as int] == old_es[
                                    count_nonblank(lv.take(j)) as int]);
                            } else {
                                assert(es@[count_nonblank(lv.take(k as int)) as int] == e);
                            }
                        }
                    }
                },
                Err(err) => {
                    proof {
                        assert(!blank_line(lv[k as int]));
                        assert(spec_line_result(lv[k as int]) == Err::<
                            (SideSpec, SideSpec),
                            Error,
                        >(err));
                    }
                    return Err(err);
                },
            }
        }
        k = k + 1;
    }
    proof {
        assert(lv.take(n as int) =~= lv);
    }
    Ok(es)
}

/// `entries_of` counts exactly the non-blank lines.
pub proof fn lemma_entries_of_len(lines: Seq<Seq<char>>)
    ensures
        entries_of(lines).len() == count_nonblank(lines),
    decreases lines.len(),
{
    if lines.len() > 0 {
        lemma_entries_of_len(lines.drop_last());
    }
}


/// The index of the first occurrence of `p` as a contiguous run in `s`.
pub open spec fn find_sub(s: Seq<char>, p: Seq<char>) -> Option<int>
    decreases s.len() via find_sub_decreases
{
    if p.len() > s.len() {
        None
    } else if s.subrange(0, p.len() as int) == p {
        Some(0int)
    } else {
        match find_sub(s.drop_first(), p) {
            Some(i) => Some(i + 1),
            None => None,
        }
    }
}

#[via_fn]
proof fn find_sub_decreases(s: Seq<char>, p: Seq<char>) {
    if p.len() <= s.len() && s.len() == 0 {
        assert(s.subrange(0, p.len() as int) =~= p);
    }
}

/// `find_sub` really is the first occurrence.
pub proof fn lemma_find_sub(s: Seq<char>, p: Seq<char>)
    ensures
        match find_sub(s, p) {
            Some(i) => 0 <= i && i + p.len() <= s.len() && s.subrange(i, i + p.len()) == p
                && forall|k: int| 0 <= k < i ==> #[trigger] s.subrange(k, k + p.len()) != p,
            None => forall|k: int|
                0 <= k && k + p.len() <= s.len() ==> #[trigger] s.subrange(k, k + p.len()) != p,
        },
    decreases s.len(),
{
    if p.len() > s.len() {
    } else if s.subrange(0, p.len() as int) == p {
    } else {
        if s.len() == 0 {
            assert(s.subrange(0, p.len() as int) =~= p);
        }
        lemma_find_sub(s.drop_first(), p);
        match find_sub(s, p) {
            Some(i) => {
                assert(find_sub(s.drop_first(), p) == Some(i - 1));
                assert(s.drop_first().subrange(i - 1, i - 1 + p.len() as int) =~= s.subrange(
                    i,
                    i + p.len(),
                ));
                assert forall|k: int| 0 <= k < i implies #[trigger] s.subrange(k, k + p.len()) != p by {
                    if k > 0 {
                        assert(s.drop_first().subrange(k - 1, k - 1 + p.len() as int) =~= s.subrange(
                            k,
                            k + p.len(),
                        ));
                    }
                }
            },
            None => {
                assert forall|k: int| 0 <= k && k + p.len() <= s.len() implies #[trigger] s.subrange(
                    k,
                    k + p.len(),
                ) != p by {
                    if k > 0 {
                        assert(s.drop_first().subrange(k - 1, k - 1 + p.len() as int) =~= s.subrange(
                            k,
                            k + p.len(),
                        ));
                    }
                }
            },
        }
    }
}

/// First occurrence of the run `pat` in `v`, by scanning left to right.
pub fn find_sub_vec(v: &Vec<char>, pat: &Vec<char>) -> (r: Option<usize>)
    ensures
        match r {
            Some(i) => find_sub(v@, pat@) == Some(i as int) && i + pat@.len() <= v@.len(),
            None => find_sub(v@, pat@) is None,
        },
{
    let n: usize = v.len();
    let m: usize = pat.len();
    if m > n {
        return None;
    }
    if m == 0 {
        proof {
            assert(v@.subrange(0, 0) =~= pat@);
        }
        return Some(0);
    }
    let mut i: usize = 0;
    while i <= n - m
        invariant
            m <= n,
            n == v@.len(),
            m == pat@.len(),
            1 <= m <= n,
            i <= n - m + 1,
            forall|k: int| 0 <= k < i ==> #[trigger] v@.subrange(k, k + m) != pat@,
        decreases n - m + 1 - i,
    {
        let mut j: usize = 0;
        let mut ok: bool = true;
        while j < m
            invariant
                j <= m,
                i + m <= n,
                n == v@.len(),
                m == pat@.len(),
                ok ==> forall|t: int| 0 <= t < j ==> v@[i + t] == pat@[t],
                !ok ==> v@.subrange(i as int, i + m) != pat@,
            decreases m - j,
        {
            if v[i + j] != pat[j] {
                proof {
                    assert(v@.subrange(i as int, i + m)[j as int] == v@[i + j]);
                }
                ok = false;
            }
            j = j + 1;
        }
        if ok {
            proof {
                assert(v@.subrange(i as int, i + m) =~= pat@);
                lemma_find_sub(v@, pat@);
            }
            return Some(i);
        }
        i = i + 1;
    }
    proof {
        lemma_find_sub(v@, pat@);
    }
    None
}

} // verus!
