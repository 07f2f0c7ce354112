use vstd::arithmetic::div_mod::{lemma_div_by_multiple, lemma_fundamental_div_mod};
use vstd::prelude::*;

verus! {

/// An exact non-negative ratio `num / den` of machine words.  Conversion
/// factors and parsed quantities are held in this form instead of floating
/// point, so every arithmetic step is exact.
#[derive(Clone, Copy, Debug, PartialEq, Eq, Structural)]
pub struct Rational {
    pub num: u64,
    pub den: u64,
}

impl Rational {
    /// Any value: the denominator is never zero.
    pub open spec fn wf(self) -> bool {
        self.den >= 1
    }

    /// A strictly positive ratio, as every conversion factor is.
    pub open spec fn pos(self) -> bool {
        self.num >= 1 && self.den >= 1
    }
}

/// The fractions `n1 / d1` and `n2 / d2` denote the same rational number
/// (stated by cross-multiplication, so no division is involved).
pub open spec fn frac_eq(n1: int, d1: int, n2: int, d2: int) -> bool {
    n1 * d2 == n2 * d1
}

/// `a` and `b` denote the same rational number.
pub open spec fn rat_eq(a: Rational, b: Rational) -> bool {
    frac_eq(a.num as int, a.den as int, b.num as int, b.den as int)
}

/// Greatest common divisor by Euclid's recurrence; `gcd(a, 0) == a`.
pub open spec fn gcd(a: nat, b: nat) -> nat
    decreases b,
{
    if b == 0 {
        a
    } else {
        gcd(b, a % b)
    }
}

/// `d` divides `x` exactly.
pub open spec fn divides(d: nat, x: nat) -> bool {
    exists|k: nat| x == #[trigger] (k * d)
}

/// For `a >= 1`, the gcd is at least one and divides both arguments.
pub proof fn lemma_gcd_divides(a: nat, b: nat)
    requires
        a >= 1,
    ensures
        gcd(a, b) >= 1,
        divides(gcd(a, b), a),
        divides(gcd(a, b), b),
    decreases b,
{
    if b == 0 {
        assert(a == 1 * a) by (nonlinear_arith);
        assert(b == 0 * a) by (nonlinear_arith)
            requires b == 0;
    } else {
        lemma_gcd_divides(b, a % b);
        let g = gcd(b, a % b);
        let k1 = choose|k: nat| b == #[trigger] (k * g);
        let k2 = choose|k: nat| (a % b) == #[trigger] (k * g);
        lemma_fundamental_div_mod(a as int, b as int);
        assert(a == b * ((a as int / b as int)) + (a % b));
        let q = a as int / b as int;
        assert(q >= 0) by (nonlinear_arith)
            requires q == a as int / b as int, a >= 0, b >= 1;
        assert(a == ((k1 * q + k2) as nat) * g) by (nonlinear_arith)
            requires
                a == b * q + (a % b),
                b == k1 * g,
                (a % b) == k2 * g,
                q >= 0;
    }
}

/// If `x == k * d` with `d > 0`, then `x / d == k`.
pub proof fn lemma_exact_div(x: nat, d: nat, k: nat)
    requires
        d >= 1,
        x == k * d,
    ensures
        x / d == k,
{
    lemma_div_by_multiple(k as int, d as int);
}

/// Equal fractions stay equal through a common non-zero middle fraction.
pub proof fn lemma_frac_eq_trans(n1: int, d1: int, n2: int, d2: int, n3: int, d3: int)
    requires
        frac_eq(n1, d1, n2, d2),
        frac_eq(n2, d2, n3, d3),
        d2 != 0,
    ensures
        frac_eq(n1, d1, n3, d3),
{
    assert(n1 * d3 == n3 * d1) by (nonlinear_arith)
        requires
            n1 * d2 == n2 * d1,
            n2 * d3 == n3 * d2,
            d2 != 0;
}

/// Fraction equality is compatible with multiplying numerators and
/// denominators pointwise.
pub proof fn lemma_frac_eq_mul(
    n1: int, d1: int, n2: int, d2: int,
    m1: int, e1: int, m2: int, e2: int,
)
    requires
        frac_eq(n1, d1, n2, d2),
        frac_eq(m1, e1, m2, e2),
    ensures
        frac_eq(n1 * m1, d1 * e1, n2 * m2, d2 * e2),
{
    assert((n1 * m1) * (d2 * e2) == (n1 * d2) * (m1 * e2)) by (nonlinear_arith);
    assert((n1 * d2) * (m1 * e2) == (n2 * d1) * (m2 * e1)) by (nonlinear_arith)
        requires
            n1 * d2 == n2 * d1,
            m1 * e2 == m2 * e1;
    assert((n2 * d1) * (m2 * e1) == (n2 * m2) * (d1 * e1)) by (nonlinear_arith);
}

/// The numerator of the unreduced product of `a` and `b`.
pub open spec fn prod_num(a: Rational, b: Rational) -> nat {
    (a.num * b.num) as nat
}

/// The denominator of the unreduced product of `a` and `b`.
pub open spec fn prod_den(a: Rational, b: Rational) -> nat {
    (a.den * b.den) as nat
}

/// The numerator of the product of `a` and `b` in lowest terms.
pub open spec fn red_num(a: Rational, b: Rational) -> nat {
    prod_num(a, b) / gcd(prod_den(a, b), prod_num(a, b))
}

/// The denominator of the product of `a` and `b` in lowest terms.
pub open spec fn red_den(a: Rational, b: Rational) -> nat {
    prod_den(a, b) / gcd(prod_den(a, b), prod_num(a, b))
}

/// Euclid's algorithm on machine words.
pub fn gcd_u128(a0: u128, b0: u128) -> (g: u128)
    requires
        a0 >= 1,
    ensures
        g as nat == gcd(a0 as nat, b0 as nat),
        g >= 1,
{
    let mut a: u128 = a0;
    let mut b: u128 = b0;
    while b != 0
        invariant
            a >= 1,
            gcd(a as nat, b as nat) == gcd(a0 as nat, b0 as nat),
        decreases b,
    {
        let t: u128 = a % b;
        a = b;
        b = t;
    }
    proof {
        lemma_gcd_divides(a as nat, 0);
    }
    a
}

/// Exact product of two ratios, reduced to lowest terms; `None` exactly
/// when the reduced numerator or denominator does not fit in a `u64`.
pub fn rat_mul(a: Rational, b: Rational) -> (r: Option<Rational>)
    requires
        a.wf(),
        b.wf(),
    ensures
        r is Some <==> red_num(a, b) <= u64::MAX && red_den(a, b) <= u64::MAX,
        match r {
            Some(c) => {
                &&& c.wf()
                &&& c.num == red_num(a, b)
                &&& c.den == red_den(a, b)
                &&& frac_eq(
                    c.num as int,
                    c.den as int,
                    a.num as int * b.num as int,
                    a.den as int * b.den as int,
                )
                &&& a.pos() && b.pos() ==> c.pos()
            },
            None => true,
        },
{
    proof {
        assert(a.num as int * b.num as int <= u64::MAX as int * u64::MAX as int
            && a.den as int * b.den as int <= u64::MAX as int * u64::MAX as int
            && a.den as int * b.den as int >= 1) by (nonlinear_arith)
            requires
                a.num <= u64::MAX,
                b.num <= u64::MAX,
                1 <= a.den <= u64::MAX,
                1 <= b.den <= u64::MAX;
        assert((u64::MAX as int) * (u64::MAX as int) < (u128::MAX as int));
    }
    let n: u128 = (a.num as u128) * (b.num as u128);
    let d: u128 = (a.den as u128) * (b.den as u128);
    let g: u128 = gcd_u128(d, n);
    proof {
        lemma_gcd_divides(d as nat, n as nat);
    }
    let ghost kn = choose|k: nat| n as nat == #[trigger] (k * (g as nat));
    let ghost kd = choose|k: nat| d as nat == #[trigger] (k * (g as nat));
    proof {
        lemma_exact_div(n as nat, g as nat, kn);
        lemma_exact_div(d as nat, g as nat, kd);
        assert(kd >= 1) by (nonlinear_arith)
            requires d as nat == kd * (g as nat), d >= 1;
    }
    let rn: u128 = n / g;
    let rd: u128 = d / g;
    if rn <= u64::MAX as u128 && rd <= u64::MAX as u128 {
        let c = Rational { num: rn as u64, den: rd as u64 };
        proof {
            assert(c.num as int * (d as int) == (n as int) * (c.den as int))
                by (nonlinear_arith)
                requires
                    n as nat == kn * (g as nat),
                    d as nat == kd * (g as nat),
                    c.num == kn,
                    c.den == kd;
            if a.pos() && b.pos() {
                assert(n >= 1) by (nonlinear_arith)
                    requires
                        n as int == a.num as int * b.num as int,
                        a.num >= 1,
                        b.num >= 1;
                assert(kn >= 1) by (nonlinear_arith)
                    requires n as nat == kn * (g as nat), n >= 1;
            }
        }
        Some(c)
    } else {
        None
    }
}

/// The multiplicative unit.
pub fn rat_one() -> (r: Rational)
    ensures
        r.num == 1,
        r.den == 1,
{
    Rational { num: 1, den: 1 }
}

/// The reciprocal of a positive ratio.
pub fn rat_inv(a: Rational) -> (r: Rational)
    requires
        a.pos(),
    ensures
        r.pos(),
        r.num == a.den,
        r.den == a.num,
{
    Rational { num: a.den, den: a.num }
}

} // verus!
