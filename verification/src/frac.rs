//! Exact rational durations: a fraction of two machine integers, kept small
//! by dividing out the greatest common divisor after every operation.

use vstd::arithmetic::div_mod::{
    lemma_fundamental_div_mod, lemma_div_nonincreasing, lemma_div_pos_is_pos,
};
use vstd::prelude::*;

verus! {

/// Magnitude bound on the numerator and the denominator of a `Fraction`.
/// Chosen so that cross products of two in-bound fractions fit in `i64`.
pub const FRAC_BOUND: i64 = 1_073_741_824;

/// An exact rational number `num / den` with `0 < den`.
#[derive(Clone, Copy, Debug, PartialEq, Eq, Structural)]
pub struct Fraction {
    pub num: i64,
    pub den: i64,
}

/// Euclid's greatest common divisor.
pub open spec fn spec_gcd(a: nat, b: nat) -> nat
    decreases b,
{
    if b == 0 {
        a
    } else {
        spec_gcd(b, a % b)
    }
}

/// `d` divides `x`.
pub open spec fn divides(d: nat, x: nat) -> bool {
    exists|k: nat| x == #[trigger] (d * k)
}

/// The gcd divides both arguments and is positive when the second is.
pub proof fn lemma_gcd_divides(a: nat, b: nat)
    ensures
        divides(spec_gcd(a, b), a),
        divides(spec_gcd(a, b), b),
        b > 0 ==> spec_gcd(a, b) > 0,
        b == 0 ==> spec_gcd(a, b) == a,
    decreases b,
{
    if b == 0 {
        assert(a == a * 1) by (nonlinear_arith);
        assert(a == a * 0 + a) by (nonlinear_arith);
        assert(0 == a * 0) by (nonlinear_arith);
        assert(divides(a, a));
        assert(divides(a, 0));
    } else {
        lemma_gcd_divides(b, a % b);
        let g = spec_gcd(b, a % b);
        let k1 = choose|k1: nat| b == #[trigger] (g * k1);
        let k2 = choose|k2: nat| a % b == #[trigger] (g * k2);
        lemma_fundamental_div_mod(a as int, b as int);
        let q = a as int / b as int;
        assert(q >= 0) by {
            lemma_div_pos_is_pos(a as int, b as int);
        }
        assert(a == b * q + a % b);
        assert(a == g * (q * k1 + k2)) by (nonlinear_arith)
            requires
                a == b as int * q + (a % b) as int,
                b == g * k1,
                a % b == g * k2,
                q >= 0,
        ;
        let kk = (q * k1 + k2) as nat;
        assert(a == g * kk) by (nonlinear_arith)
            requires
                a as int == g as int * (q * k1 + k2),
                q >= 0,
                kk == (q * k1 + k2) as nat,
        ;
        assert(divides(g, a));
        assert(g > 0) by {
            if g == 0 {
                assert(b == g * k1);
                assert(b == 0) by (nonlinear_arith)
                    requires
                        b == g * k1,
                        g == 0,
                ;
            }
        }
    }
}

/// If `d` divides `x` and both are positive, integer division is exact and shrinking.
pub proof fn lemma_exact_div(d: nat, x: nat)
    requires
        divides(d, x),
        d > 0,
    ensures
        x == d * (x / d),
        x / d <= x,
        x > 0 ==> x / d >= 1,
        x > 0 ==> d <= x,
{
    let k = choose|k: nat| x == #[trigger] (d * k);
    assert(x / d == k) by (nonlinear_arith)
        requires
            x == d * k,
            d > 0,
    ;
    lemma_div_nonincreasing(x as int, d as int);
    if x > 0 {
        assert(k >= 1 && d <= x) by (nonlinear_arith)
            requires
                x == d * k,
                x > 0,
                d > 0,
        ;
    }
}

/// Does `f` hold the fraction `n / d` (for `d != 0`)?
pub open spec fn frac_is(f: Fraction, n: int, d: int) -> bool {
    f.num * d == n * f.den
}

/// The representation invariant: positive, in-bound denominator and in-bound numerator.
pub open spec fn frac_valid(f: Fraction) -> bool {
    0 < f.den <= FRAC_BOUND && -FRAC_BOUND <= f.num <= FRAC_BOUND
}

pub open spec fn spec_abs(x: int) -> nat {
    if x < 0 {
        (-x) as nat
    } else {
        x as nat
    }
}

/// Divide out the gcd of `na / da` (sign given by `neg`), then admit the result
/// only if both reduced components are in bounds.
pub open spec fn spec_reduce(neg: bool, na: nat, da: nat) -> Option<Fraction> {
    let g = spec_gcd(na, da);
    let rn = na / g;
    let rd = da / g;
    if rn > FRAC_BOUND as nat || rd > FRAC_BOUND as nat {
        None
    } else if neg {
        Some(Fraction { num: -(rn as int) as i64, den: rd as i64 })
    } else {
        Some(Fraction { num: rn as i64, den: rd as i64 })
    }
}

/// What reduction yields: a valid fraction holding exactly `±na / da`.
pub proof fn lemma_reduce_props(neg: bool, na: nat, da: nat)
    requires
        da > 0,
    ensures
        spec_reduce(neg, na, da) matches Some(f) ==> {
            &&& frac_valid(f)
            &&& frac_is(f, if neg { -(na as int) } else { na as int }, da as int)
            &&& (na == 0 ==> f.num == 0)
            &&& (!neg && na > 0 ==> f.num > 0)
            &&& (neg && na > 0 ==> f.num < 0)
        },
        na <= FRAC_BOUND as nat && da <= FRAC_BOUND as nat ==> spec_reduce(neg, na, da) is Some,
{
    let g = spec_gcd(na, da);
    lemma_gcd_divides(na, da);
    lemma_exact_div(g, na);
    lemma_exact_div(g, da);
    let rn = na / g;
    let rd = da / g;
    if rn <= FRAC_BOUND as nat && rd <= FRAC_BOUND as nat {
        let f = spec_reduce(neg, na, da)->Some_0;
        assert(rd >= 1);
        if neg {
            assert(f.num * da as int == (-(na as int)) * f.den) by (nonlinear_arith)
                requires
                    na == g * rn,
                    da == g * rd,
                    f.num == -(rn as int),
                    f.den == rd as int,
            ;
        } else {
            assert(f.num * da as int == na as int * f.den) by (nonlinear_arith)
                requires
                    na == g * rn,
                    da == g * rd,
                    f.num == rn as int,
                    f.den == rd as int,
            ;
        }
        if na > 0 {
            assert(rn >= 1);
        }
    }
}

/// Building a fraction from a (possibly negative, possibly zero) pair.
pub open spec fn spec_frac_new(num: int, den: int) -> Option<Fraction> {
    if den == 0 {
        None
    } else {
        spec_reduce((num < 0) != (den < 0), spec_abs(num), spec_abs(den))
    }
}

/// The exact sum of two valid fractions, as the implementation reduces it.
pub open spec fn spec_frac_add(a: Fraction, b: Fraction) -> Option<Fraction> {
    let g0 = spec_gcd(a.den as nat, b.den as nat);
    let q1 = a.den as int / g0 as int;
    let q2 = b.den as int / g0 as int;
    let n = a.num * q2 + b.num * q1;
    let d = q1 * b.den;
    spec_reduce(n < 0, spec_abs(n), d as nat)
}

/// The exact quotient of a valid fraction by a count, as the implementation reduces it.
pub open spec fn spec_frac_div(a: Fraction, k: nat) -> Option<Fraction> {
    if k == 0 {
        None
    } else {
        spec_reduce(a.num < 0, spec_abs(a.num as int), (a.den * k) as nat)
    }
}

/// The exact product of a valid fraction and a count, as the implementation reduces it.
pub open spec fn spec_frac_mul(a: Fraction, k: nat) -> Option<Fraction> {
    spec_reduce(a.num < 0 && k > 0, spec_abs(a.num as int) * k, a.den as nat)
}

/// What `Fraction::mul_count` yields: a valid fraction holding `a * k` exactly.
pub proof fn lemma_frac_mul_props(a: Fraction, k: nat)
    requires
        frac_valid(a),
        k < 0x1_0000_0000,
    ensures
        spec_frac_mul(a, k) matches Some(f) ==> frac_valid(f) && f.num * a.den as int == a.num * k
            * f.den,
{
    lemma_reduce_props(a.num < 0 && k > 0, spec_abs(a.num as int) * k, a.den as nat);
    if spec_frac_mul(a, k) is Some {
        let f = spec_frac_mul(a, k)->Some_0;
        let na = spec_abs(a.num as int) * k;
        let neg = a.num < 0 && k > 0;
        let sn: int = if neg {
            -(na as int)
        } else {
            na as int
        };
        assert(sn == a.num * k) by (nonlinear_arith)
            requires
                na == spec_abs(a.num as int) * k,
                sn == if neg {
                    -(na as int)
                } else {
                    na as int
                },
                neg == (a.num < 0 && k > 0),
                spec_abs(a.num as int) == if a.num < 0 {
                    -(a.num as int)
                } else {
                    a.num as int
                },
        ;
        assert(f.num * a.den as int == a.num * k * f.den);
    }
}

impl Fraction {
    /// Exact product with an integer count; `None` when the reduced product
    /// leaves `FRAC_BOUND`.
    pub fn mul_count(self, k: u32) -> (r: Option<Fraction>)
        requires
            frac_valid(self),
        ensures
            r == spec_frac_mul(self, k as nat),
    {
        let na = abs_u64(self.num);
        proof {
            let b = 1_073_741_824int;
            assert(na * (k as int) <= b * 4294967296int) by (nonlinear_arith)
                requires
                    0 <= (na as int) <= b,
                    0 <= (k as int) < 4294967296int,
            ;
        }
        let nk = na * (k as u64);
        let g = gcd_u64(nk, self.den as u64);
        proof {
            lemma_gcd_divides(nk as nat, self.den as nat);
            lemma_exact_div(g as nat, nk as nat);
            lemma_exact_div(g as nat, self.den as nat);
        }
        let rn = nk / g;
        let rd = (self.den as u64) / g;
        if rn > FRAC_BOUND as u64 || rd > FRAC_BOUND as u64 {
            None
        } else if self.num < 0 && k > 0 {
            Some(Fraction { num: -(rn as i64), den: rd as i64 })
        } else {
            Some(Fraction { num: rn as i64, den: rd as i64 })
        }
    }
}

/// `a <= b` on the represented rationals.
pub open spec fn spec_frac_le(a: Fraction, b: Fraction) -> bool {
    a.num * b.den <= b.num * a.den
}

/// Cross products of two valid fractions stay far inside `i64`.
pub proof fn lemma_cross_products_fit(a: Fraction, b: Fraction)
    requires
        frac_valid(a),
        frac_valid(b),
    ensures
        -0x1000_0000_0000_0000 <= a.num * b.den <= 0x1000_0000_0000_0000,
        -0x1000_0000_0000_0000 <= b.num * a.den <= 0x1000_0000_0000_0000,
        1 <= a.den * b.den <= 0x1000_0000_0000_0000,
{
    let bd = 1_073_741_824int;
    assert(-(bd * bd) <= a.num * b.den <= bd * bd && -(bd * bd) <= b.num * a.den <= bd * bd && 1
        <= a.den * b.den <= bd * bd) by (nonlinear_arith)
        requires
            -bd <= a.num <= bd,
            -bd <= b.num <= bd,
            0 < a.den <= bd,
            0 < b.den <= bd,
    ;
}

/// What `Fraction::new` yields: a valid fraction holding exactly `num / den`.
pub proof fn lemma_frac_new_props(num: int, den: int)
    requires
        den != 0,
    ensures
        spec_frac_new(num, den) matches Some(f) ==> frac_valid(f) && frac_is(f, num, den) && (num
            == 0 ==> f.num == 0),
        spec_abs(num) <= FRAC_BOUND as nat && spec_abs(den) <= FRAC_BOUND as nat
            ==> spec_frac_new(num, den) is Some,
{
    let neg = (num < 0) != (den < 0);
    let na = spec_abs(num);
    let da = spec_abs(den);
    lemma_reduce_props(neg, na, da);
    if spec_frac_new(num, den) is Some {
        let f = spec_frac_new(num, den)->Some_0;
        let sn: int = if neg {
            -(na as int)
        } else {
            na as int
        };
        assert(f.num * den == num * f.den) by (nonlinear_arith)
            requires
                f.num * (da as int) == sn * f.den,
                da == spec_abs(den),
                na == spec_abs(num),
                sn == if neg {
                    -(na as int)
                } else {
                    na as int
                },
                neg == ((num < 0) != (den < 0)),
                den != 0,
                da as int == if den < 0 {
                    -den
                } else {
                    den
                },
                na as int == if num < 0 {
                    -num
                } else {
                    num
                },
        ;
    }
}

/// What `Fraction::add` yields: a valid fraction holding the exact sum.
pub proof fn lemma_frac_add_props(a: Fraction, b: Fraction)
    requires
        frac_valid(a),
        frac_valid(b),
    ensures
        spec_frac_add(a, b) matches Some(f) ==> frac_valid(f) && f.num * (a.den * b.den) == (a.num
            * b.den + b.num * a.den) * f.den,
{
    let g0 = spec_gcd(a.den as nat, b.den as nat);
    lemma_gcd_divides(a.den as nat, b.den as nat);
    lemma_exact_div(g0, a.den as nat);
    lemma_exact_div(g0, b.den as nat);
    let q1 = a.den as int / g0 as int;
    let q2 = b.den as int / g0 as int;
    let n = a.num * q2 + b.num * q1;
    let d = q1 * b.den;
    assert(d > 0) by (nonlinear_arith)
        requires
            q1 >= 1,
            b.den > 0,
            d == q1 * b.den,
    ;
    lemma_reduce_props(n < 0, spec_abs(n), d as nat);
    if spec_frac_add(a, b) is Some {
        let f = spec_frac_add(a, b)->Some_0;
        let sn: int = if n < 0 {
            -(spec_abs(n) as int)
        } else {
            spec_abs(n) as int
        };
        assert(sn == n);
        assert(f.num * d == n * f.den);
        // n / d equals the textbook sum over the product denominator.
        assert(n * (a.den * b.den) == (a.num * b.den + b.num * a.den) * d) by (nonlinear_arith)
            requires
                n == a.num * q2 + b.num * q1,
                d == q1 * b.den,
                a.den == g0 * (a.den as nat / g0),
                b.den == g0 * (b.den as nat / g0),
                q1 == a.den as int / g0 as int,
                q2 == b.den as int / g0 as int,
                g0 > 0,
                q1 >= 1,
                q2 >= 1,
                a.den as int / g0 as int == a.den as nat / g0,
                b.den as int / g0 as int == b.den as nat / g0,
    ;
        assert(f.num * (a.den * b.den) == (a.num * b.den + b.num * a.den) * f.den)
            by (nonlinear_arith)
            requires
                f.num * d == n * f.den,
                n * (a.den * b.den) == (a.num * b.den + b.num * a.den) * d,
                d > 0,
        ;
    }
}

/// What `Fraction::div_count` yields: a valid fraction holding `a / k` exactly.
pub proof fn lemma_frac_div_props(a: Fraction, k: nat)
    requires
        frac_valid(a),
        k >= 1,
        k < 0x1_0000_0000,
    ensures
        spec_frac_div(a, k) matches Some(f) ==> frac_valid(f) && f.num * (a.den * k) == a.num
            * f.den,
{
    let d = (a.den * k) as nat;
    assert(a.den * k > 0) by (nonlinear_arith)
        requires
            a.den > 0,
            k >= 1,
    ;
    lemma_reduce_props(a.num < 0, spec_abs(a.num as int), d);
    if spec_frac_div(a, k) is Some {
        let f = spec_frac_div(a, k)->Some_0;
        let sn: int = if a.num < 0 {
            -(spec_abs(a.num as int) as int)
        } else {
            spec_abs(a.num as int) as int
        };
        assert(sn == a.num);
        assert(f.num * (a.den * k) == a.num * f.den);
    }
}

/// Relies on num_integer::gcd: the greatest common divisor of two unsigned
/// integers, which for non-negative arguments is Euclid's gcd.
#[verifier::external_body]
fn gcd_u64(a: u64, b: u64) -> (g: u64)
    ensures
        g == spec_gcd(a as nat, b as nat),
{
    num_integer::gcd(a, b)
}

/// Magnitude of an `i64`, total even at `i64::MIN`.
fn abs_u64(x: i64) -> (r: u64)
    ensures
        r == spec_abs(x as int),
{
    if x < 0 {
        (-(x as i128)) as u64
    } else {
        x as u64
    }
}

impl Fraction {
    /// The zero duration.
    pub fn zero() -> (r: Fraction)
        ensures
            r == (Fraction { num: 0, den: 1 }),
    {
        Fraction { num: 0, den: 1 }
    }

    /// The placeholder duration of one unit.
    pub fn one() -> (r: Fraction)
        ensures
            r == (Fraction { num: 1, den: 1 }),
    {
        Fraction { num: 1, den: 1 }
    }

    /// Exact sum, reduced; `None` when the reduced sum leaves `FRAC_BOUND`.
    pub fn add(self, other: Fraction) -> (r: Option<Fraction>)
        requires
            frac_valid(self),
            frac_valid(other),
        ensures
            r == spec_frac_add(self, other),
    {
        let g0 = gcd_u64(self.den as u64, other.den as u64);
        proof {
            lemma_gcd_divides(self.den as nat, other.den as nat);
            lemma_exact_div(g0 as nat, self.den as nat);
            lemma_exact_div(g0 as nat, other.den as nat);
        }
        let q1 = self.den / (g0 as i64);
        let q2 = other.den / (g0 as i64);
        proof {
            let b = 1_073_741_824int;
            assert(self.num * q2 <= b * b && self.num * q2 >= -(b * b) && other.num * q1 <= b * b
                && other.num * q1 >= -(b * b) && q1 * other.den <= b * b && q1 * other.den
                >= 1) by (nonlinear_arith)
                requires
                    1 <= q1 <= b,
                    1 <= q2 <= b,
                    -b <= self.num <= b,
                    -b <= other.num <= b,
                    0 < other.den <= b,
            ;
        }
        let n = self.num * q2 + other.num * q1;
        let d = q1 * other.den;
        let na = abs_u64(n);
        let g = gcd_u64(na, d as u64);
        proof {
            lemma_gcd_divides(na as nat, d as nat);
            lemma_exact_div(g as nat, na as nat);
            lemma_exact_div(g as nat, d as nat);
        }
        let rn = na / g;
        let rd = (d as u64) / g;
        if rn > FRAC_BOUND as u64 || rd > FRAC_BOUND as u64 {
            None
        } else if n < 0 {
            Some(Fraction { num: -(rn as i64), den: rd as i64 })
        } else {
            Some(Fraction { num: rn as i64, den: rd as i64 })
        }
    }

    /// Exact division by a positive integer count; `None` for a zero count or
    /// when the reduced quotient leaves `FRAC_BOUND`.
    pub fn div_count(self, k: u32) -> (r: Option<Fraction>)
        requires
            frac_valid(self),
        ensures
            r == spec_frac_div(self, k as nat),
    {
        if k == 0 {
            return None;
        }
        proof {
            let b = 1_073_741_824int;
            assert(1 <= self.den * (k as int) <= b * 4294967296int) by (nonlinear_arith)
                requires
                    0 < self.den <= b,
                    1 <= (k as int) < 4294967296int,
            ;
        }
        let d = self.den * (k as i64);
        let na = abs_u64(self.num);
        let g = gcd_u64(na, d as u64);
        proof {
            lemma_gcd_divides(na as nat, d as nat);
            lemma_exact_div(g as nat, na as nat);
            lemma_exact_div(g as nat, d as nat);
        }
        let rn = na / g;
        let rd = (d as u64) / g;
        if rn > FRAC_BOUND as u64 || rd > FRAC_BOUND as u64 {
            None
        } else if self.num < 0 {
            Some(Fraction { num: -(rn as i64), den: rd as i64 })
        } else {
            Some(Fraction { num: rn as i64, den: rd as i64 })
        }
    }

    /// Exact order on the represented rationals.
    pub fn le(self, other: Fraction) -> (r: bool)
        requires
            frac_valid(self),
            frac_valid(other),
        ensures
            r == spec_frac_le(self, other),
    {
        proof {
            lemma_cross_products_fit(self, other);
        }
        self.num * other.den <= other.num * self.den
    }

    /// Is the represented rational strictly positive?
    pub fn is_positive(self) -> (r: bool)
        requires
            frac_valid(self),
        ensures
            r == (self.num > 0),
    {
        self.num > 0
    }

    /// Do `self` and `other` represent the same rational?
    pub fn same_value(self, other: Fraction) -> (r: bool)
        requires
            frac_valid(self),
            frac_valid(other),
        ensures
            r == frac_is(self, other.num as int, other.den as int),
    {
        proof {
            lemma_cross_products_fit(self, other);
        }
        self.num * other.den == other.num * self.den
    }

    /// Reduce `num / den` and return it if it is representable; `None` for a
    /// zero denominator or when a reduced component exceeds `FRAC_BOUND`.
    pub fn new(num: i64, den: i64) -> (r: Option<Fraction>)
        ensures
            r == spec_frac_new(num as int, den as int),
    {
        if den == 0 {
            return None;
        }
        let neg = (num < 0) != (den < 0);
        let na = abs_u64(num);
        let da = abs_u64(den);
        let g = gcd_u64(na, da);
        proof {
            lemma_gcd_divides(na as nat, da as nat);
            lemma_exact_div(g as nat, na as nat);
            lemma_exact_div(g as nat, da as nat);
        }
        let rn = na / g;
        let rd = da / g;
        if rn > FRAC_BOUND as u64 || rd > FRAC_BOUND as u64 {
            None
        } else if neg {
            Some(Fraction { num: -(rn as i64), den: rd as i64 })
        } else {
            Some(Fraction { num: rn as i64, den: rd as i64 })
        }
    }
}

} // verus!
