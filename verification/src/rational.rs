use vstd::arithmetic::div_mod::*;
use vstd::arithmetic::mul::*;
use vstd::math::abs;
use vstd::prelude::*;

verus! {

/// An exact rational number with a positive denominator. Every
/// constructor and arithmetic operation returns the canonical reduced
/// representative, so structural equality on well-formed results agrees
/// with equality of the represented values.
#[derive(Debug, Clone, Copy, PartialEq, Eq, Structural)]
pub struct Rat {
    pub num: i64,
    pub den: i64,
}

/// Mathematical (unbounded) fraction: the model that contracts speak of.
pub struct Frac {
    pub n: int,
    pub d: int,
}

impl View for Rat {
    type V = Frac;

    open spec fn view(&self) -> Frac {
        Frac { n: self.num as int, d: self.den as int }
    }
}

impl Rat {
    /// Well-formedness: the denominator is positive.
    pub open spec fn wf(self) -> bool {
        self.den > 0
    }
}

/// Greatest common divisor, by Euclid's recurrence.
pub open spec fn gcd(a: nat, b: nat) -> nat
    decreases b,
{
    if b == 0 {
        a
    } else {
        gcd(b, a % b)
    }
}

/// The positive divisor a fraction `n / d` is reduced by.
pub open spec fn fgcd(n: int, d: int) -> int {
    gcd(abs(n), abs(d)) as int
}

/// The canonical reduced form of `n / d` for a positive denominator `d`.
pub open spec fn fnorm(n: int, d: int) -> Frac
    recommends
        d > 0,
{
    let g = fgcd(n, d);
    Frac { n: n / g, d: d / g }
}

/// Whether a fraction is representable in a `Rat`.
pub open spec fn frac_fits(f: Frac) -> bool {
    &&& i64::MIN as int <= f.n <= i64::MAX as int
    &&& 1 <= f.d <= i64::MAX as int
}

pub open spec fn frac_add(a: Frac, b: Frac) -> Frac {
    fnorm(a.n * b.d + b.n * a.d, a.d * b.d)
}

pub open spec fn frac_sub(a: Frac, b: Frac) -> Frac {
    fnorm(a.n * b.d - b.n * a.d, a.d * b.d)
}

pub open spec fn frac_mul(a: Frac, b: Frac) -> Frac {
    fnorm(a.n * b.n, a.d * b.d)
}

/// Division, used only with a strictly positive divisor.
pub open spec fn frac_div(a: Frac, b: Frac) -> Frac
    recommends
        b.n > 0,
{
    fnorm(a.n * b.d, a.d * b.n)
}

pub open spec fn frac_neg(a: Frac) -> Frac {
    Frac { n: -a.n, d: a.d }
}

pub open spec fn frac_abs(a: Frac) -> Frac {
    if a.n < 0 {
        frac_neg(a)
    } else {
        a
    }
}

pub open spec fn frac_of_int(i: int) -> Frac {
    Frac { n: i, d: 1 }
}

/// Strict order on fractions with positive denominators, by
/// cross-multiplication.
pub open spec fn frac_lt(a: Frac, b: Frac) -> bool {
    a.n * b.d < b.n * a.d
}

/// The gcd divides both arguments and is zero only when both are.
pub proof fn lemma_gcd_properties(a: nat, b: nat)
    ensures
        gcd(a, b) == 0 ==> a == 0 && b == 0,
        gcd(a, b) > 0 ==> a as int % (gcd(a, b) as int) == 0,
        gcd(a, b) > 0 ==> b as int % (gcd(a, b) as int) == 0,
    decreases b,
{
    if b == 0 {
        if a > 0 {
            lemma_mod_self_0(a as int);
            lemma_small_mod(0, a);
        }
    } else {
        let r = a % b;
        lemma_gcd_properties(b, r);
        let g = gcd(b, r) as int;
        assert(gcd(a, b) == gcd(b, r));
        if g > 0 {
            lemma_fundamental_div_mod(a as int, b as int);
            let q = a as int / b as int;
            assert((q * (b as int)) % g == 0) by {
                lemma_mul_mod_noop_right(q, b as int, g);
                assert(b as int % g == 0);
                lemma_mul_basics(q);
                lemma_small_mod(0, g as nat);
            }
            lemma_add_mod_noop(q * (b as int), r as int, g);
            lemma_small_mod(0, g as nat);
            assert(a as int == (b as int) * q + r);
            lemma_mul_is_commutative(b as int, q);
        }
    }
}

/// What normalization does: the reduced denominator stays positive and
/// no larger, the numerator keeps its sign and shrinks in magnitude, and
/// both are the exact quotients by the gcd.
pub proof fn lemma_fnorm(n: int, d: int)
    requires
        d > 0,
    ensures
        ({
            let g = fgcd(n, d);
            let f = fnorm(n, d);
            &&& g >= 1
            &&& abs(n) as int % g == 0
            &&& d % g == 0
            &&& f.d == d / g
            &&& 1 <= f.d <= d
            &&& (n >= 0 ==> f.n == abs(n) as int / g)
            &&& (n < 0 ==> f.n == -(abs(n) as int / g))
            &&& abs(f.n) <= abs(n)
            &&& (f.n == 0 <==> n == 0)
            &&& (f.n > 0 <==> n > 0)
            &&& (f.n < 0 <==> n < 0)
        }),
{
    let a = abs(n);
    lemma_gcd_properties(a, d as nat);
    let g = fgcd(n, d);
    assert(abs(d) == d);
    assert(g >= 1);
    let k = a as int / g;
    lemma_fundamental_div_mod(a as int, g);
    lemma_div_pos_is_pos(a as int, g);
    assert(a as int == g * k);
    if n >= 0 {
        assert(n == a as int);
    } else {
        assert(n == -(a as int));
        assert(n == g * (-k) + 0) by {
            lemma_mul_unary_negation(g, k);
        }
        lemma_fundamental_div_mod_converse(n, g, -k, 0);
        assert(n / g == -k);
    }
    let m = d / g;
    lemma_fundamental_div_mod(d, g);
    lemma_div_pos_is_pos(d, g);
    assert(d == g * m);
    assert(m != 0) by {
        if m == 0 {
            assert(g * 0 == 0) by {
                lemma_mul_basics(g);
            }
        }
    }
    lemma_div_nonincreasing(d, g);
    lemma_div_nonincreasing(a as int, g);
    assert(k == 0 ==> a == 0) by {
        if k == 0 {
            assert(g * 0 == 0) by {
                lemma_mul_basics(g);
            }
        }
    }
    assert(k > 0 ==> a > 0) by {
        if k > 0 {
            assert(g * k > 0) by (nonlinear_arith)
                requires
                    g >= 1,
                    k > 0,
            ;
        }
    }
    assert(a > 0 ==> k > 0);
}

/// Euclid's algorithm.
fn gcd_u128(a: u128, b: u128) -> (g: u128)
    ensures
        g as nat == gcd(a as nat, b as nat),
{
    let mut x: u128 = a;
    let mut y: u128 = b;
    while y != 0
        invariant
            gcd(x as nat, y as nat) == gcd(a as nat, b as nat),
        decreases y,
    {
        let t: u128 = x % y;
        x = y;
        y = t;
    }
    x
}

/// Reduce a raw fraction with positive denominator to a `Rat`, or report
/// that the reduced form does not fit in 64 bits.
fn normalize_i128(n: i128, d: i128) -> (r: Option<Rat>)
    requires
        0 < d,
        -i128::MAX <= n,
    ensures
        r matches Some(c) ==> c@ == fnorm(n as int, d as int) && c.wf(),
        r is Some <==> frac_fits(fnorm(n as int, d as int)),
{
    proof {
        lemma_fnorm(n as int, d as int);
    }
    let neg: bool = n < 0;
    let mag: u128 = if neg {
        (-n) as u128
    } else {
        n as u128
    };
    assert(mag as int == abs(n as int));
    let g: u128 = gcd_u128(mag, d as u128);
    assert(g as int == fgcd(n as int, d as int));
    let nn: u128 = mag / g;
    let dd: u128 = (d as u128) / g;
    assert(nn as int == abs(n as int) as int / (g as int));
    assert(dd as int == fnorm(n as int, d as int).d);
    if dd > i64::MAX as u128 {
        return None;
    }
    if neg {
        if nn > 9223372036854775808u128 {
            return None;
        }
        let num: i64 = (-(nn as i128)) as i64;
        assert(num as int == fnorm(n as int, d as int).n);
        Some(Rat { num, den: dd as i64 })
    } else {
        if nn > i64::MAX as u128 {
            return None;
        }
        Some(Rat { num: nn as i64, den: dd as i64 })
    }
}

/// Bound on products of 64-bit components, used to justify the 128-bit
/// intermediate arithmetic below.
proof fn lemma_prod_bound(x: int, y: int)
    requires
        -0x8000000000000000 <= x <= 0x7fffffffffffffff,
        -0x8000000000000000 <= y <= 0x7fffffffffffffff,
    ensures
        -0x40000000000000000000000000000000 <= x * y
            <= 0x40000000000000000000000000000000,
{
    assert(-0x40000000000000000000000000000000 <= x * y
        <= 0x40000000000000000000000000000000) by (nonlinear_arith)
        requires
            -0x8000000000000000 <= x <= 0x8000000000000000,
            -0x8000000000000000 <= y <= 0x8000000000000000,
    ;
}

/// Tighter bound for a numerator-by-denominator product: the denominator
/// is positive, so two such products can be summed within 128 bits.
proof fn lemma_prod_bound_den(x: int, y: int)
    requires
        -0x8000000000000000 <= x <= 0x7fffffffffffffff,
        1 <= y <= 0x7fffffffffffffff,
    ensures
        -0x3fffffffffffffff8000000000000000 <= x * y <= 0x3fffffffffffffff8000000000000000,
{
    assert(-0x3fffffffffffffff8000000000000000 <= x * y
        <= 0x3fffffffffffffff8000000000000000) by (nonlinear_arith)
        requires
            -0x8000000000000000 <= x <= 0x8000000000000000,
            0 <= y <= 0x7fffffffffffffff,
    ;
}

/// Sum of two rationals, reduced; `None` when the result does not fit.
pub fn rat_add(a: Rat, b: Rat) -> (r: Option<Rat>)
    requires
        a.wf(),
        b.wf(),
    ensures
        r matches Some(c) ==> c@ == frac_add(a@, b@) && c.wf(),
        r is Some <==> frac_fits(frac_add(a@, b@)),
{
    proof {
        lemma_prod_bound_den(a.num as int, b.den as int);
        lemma_prod_bound_den(b.num as int, a.den as int);
        lemma_prod_bound(a.den as int, b.den as int);
        assert((a.den as int) * (b.den as int) >= 1) by (nonlinear_arith)
            requires
                a.den as int >= 1,
                b.den as int >= 1,
        ;
    }
    let n: i128 = (a.num as i128) * (b.den as i128) + (b.num as i128) * (a.den as i128);
    let d: i128 = (a.den as i128) * (b.den as i128);
    normalize_i128(n, d)
}

/// Difference of two rationals, reduced; `None` when the result does not fit.
pub fn rat_sub(a: Rat, b: Rat) -> (r: Option<Rat>)
    requires
        a.wf(),
        b.wf(),
    ensures
        r matches Some(c) ==> c@ == frac_sub(a@, b@) && c.wf(),
        r is Some <==> frac_fits(frac_sub(a@, b@)),
{
    proof {
        lemma_prod_bound_den(a.num as int, b.den as int);
        lemma_prod_bound_den(b.num as int, a.den as int);
        lemma_prod_bound(a.den as int, b.den as int);
        assert((a.den as int) * (b.den as int) >= 1) by (nonlinear_arith)
            requires
                a.den as int >= 1,
                b.den as int >= 1,
        ;
    }
    let n: i128 = (a.num as i128) * (b.den as i128) - (b.num as i128) * (a.den as i128);
    let d: i128 = (a.den as i128) * (b.den as i128);
    normalize_i128(n, d)
}

/// Product of two rationals, reduced; `None` when the result does not fit.
pub fn rat_mul(a: Rat, b: Rat) -> (r: Option<Rat>)
    requires
        a.wf(),
        b.wf(),
    ensures
        r matches Some(c) ==> c@ == frac_mul(a@, b@) && c.wf(),
        r is Some <==> frac_fits(frac_mul(a@, b@)),
{
    proof {
        lemma_prod_bound(a.num as int, b.num as int);
        lemma_prod_bound(a.den as int, b.den as int);
        assert((a.den as int) * (b.den as int) >= 1) by (nonlinear_arith)
            requires
                a.den as int >= 1,
                b.den as int >= 1,
        ;
    }
    let n: i128 = (a.num as i128) * (b.num as i128);
    let d: i128 = (a.den as i128) * (b.den as i128);
    normalize_i128(n, d)
}

/// Quotient of two rationals for a strictly positive divisor, reduced;
/// `None` when the result does not fit.
pub fn rat_div(a: Rat, b: Rat) -> (r: Option<Rat>)
    requires
        a.wf(),
        b.wf(),
        b.num > 0,
    ensures
        r matches Some(c) ==> c@ == frac_div(a@, b@) && c.wf(),
        r is Some <==> frac_fits(frac_div(a@, b@)),
{
    proof {
        lemma_prod_bound(a.num as int, b.den as int);
        lemma_prod_bound(a.den as int, b.num as int);
        assert((a.den as int) * (b.num as int) >= 1) by (nonlinear_arith)
            requires
                a.den as int >= 1,
                b.num as int >= 1,
        ;
    }
    let n: i128 = (a.num as i128) * (b.den as i128);
    let d: i128 = (a.den as i128) * (b.num as i128);
    normalize_i128(n, d)
}

/// Negation; `None` only at the most negative representable numerator.
pub fn rat_neg(a: Rat) -> (r: Option<Rat>)
    requires
        a.wf(),
    ensures
        r matches Some(c) ==> c@ == frac_neg(a@) && c.wf(),
        r is Some <==> frac_fits(frac_neg(a@)),
{
    if a.num == i64::MIN {
        None
    } else {
        Some(Rat { num: -a.num, den: a.den })
    }
}

/// Absolute value; `None` only at the most negative representable numerator.
pub fn rat_abs(a: Rat) -> (r: Option<Rat>)
    requires
        a.wf(),
    ensures
        r matches Some(c) ==> c@ == frac_abs(a@) && c.wf(),
        r is Some <==> frac_fits(frac_abs(a@)),
{
    if a.num < 0 {
        rat_neg(a)
    } else {
        Some(a)
    }
}

/// Strict order test by cross-multiplication.
pub fn rat_lt(a: Rat, b: Rat) -> (r: bool)
    requires
        a.wf(),
        b.wf(),
    ensures
        r == frac_lt(a@, b@),
{
    proof {
        lemma_prod_bound(a.num as int, b.den as int);
        lemma_prod_bound(b.num as int, a.den as int);
    }
    (a.num as i128) * (b.den as i128) < (b.num as i128) * (a.den as i128)
}

impl Rat {
    /// The canonical rational `num / den` for a positive denominator.
    pub fn new(num: i64, den: i64) -> (r: Rat)
        requires
            den > 0,
        ensures
            r@ == fnorm(num as int, den as int),
            r.wf(),
    {
        proof {
            lemma_fnorm(num as int, den as int);
        }
        match normalize_i128(num as i128, den as i128) {
            Some(c) => c,
            None => {
                proof {
                    assert(false);
                }
                Rat { num: 0, den: 1 }
            },
        }
    }

    /// The rational representing an integer.
    pub fn from_int(i: i64) -> (r: Rat)
        ensures
            r@ == frac_of_int(i as int),
            r.wf(),
    {
        Rat { num: i, den: 1 }
    }
}

} // verus!
