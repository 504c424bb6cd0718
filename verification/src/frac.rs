use vstd::prelude::*;
use vstd::arithmetic::div_mod::lemma_fundamental_div_mod_converse;
use crate::hex::{Cube, iabs};

verus! {

/// A fractional cube coordinate, held as exact fixed-point rationals: the
/// component values are `qn/den`, `rn/den`, `sn/den`. The axial invariant
/// holds exactly before rounding, as the numerators sum to zero.
#[derive(Clone, Copy, PartialEq, Eq, Structural, Debug)]
pub struct FracCube {
    pub qn: i128,
    pub rn: i128,
    pub sn: i128,
    pub den: i128,
}

/// Rounding a rational `n/d` (`d > 0`) to the nearest integer, halves
/// rounding up.
pub open spec fn nearest(n: int, d: int) -> int {
    (2 * n + d) / (2 * d)
}

/// What `round` returns, componentwise: each component is rounded to the
/// nearest integer, then the component whose rounding error is largest is
/// recomputed from the other two so that the axial invariant holds exactly.
/// Ties on the largest error prefer `q`, then `r`.
pub open spec fn round_spec(f: FracCube) -> (int, int, int) {
    let nq = nearest(f.qn as int, f.den as int);
    let nr = nearest(f.rn as int, f.den as int);
    let ns = nearest(f.sn as int, f.den as int);
    let eq = iabs(2 * f.qn - 2 * nq * f.den);
    let er = iabs(2 * f.rn - 2 * nr * f.den);
    let es = iabs(2 * f.sn - 2 * ns * f.den);
    if eq >= er && eq >= es {
        (-nr - ns, nr, ns)
    } else if er >= es {
        (nq, -nq - ns, ns)
    } else {
        (nq, nr, -nq - nr)
    }
}

impl FracCube {
    /// A positive, bounded denominator and an exactly zero component sum:
    /// the axial invariant holds exactly before rounding.
    pub open spec fn wf(self) -> bool {
        self.den > 0 && self.qn + self.rn + self.sn == 0 && self.den <= 0x1000_0000_0000_0000_0000_0000
    }

    /// Every component value lies within `bound` of zero.
    pub open spec fn in_range(self, bound: int) -> bool {
        iabs(self.qn as int) <= bound * self.den && iabs(self.rn as int) <= bound * self.den
            && iabs(self.sn as int) <= bound * self.den
    }

    /// An integer coordinate seen as an exact fraction.
    pub fn from_cube(c: Cube) -> (f: FracCube)
        ensures
            f.den == 1,
            f.qn == c.q,
            f.rn == c.r,
            f.sn == c.s,
            c.wf() ==> f.wf(),
    {
        FracCube { qn: c.q as i128, rn: c.r as i128, sn: c.s as i128, den: 1 }
    }

    /// Rounds to an integer coordinate: each component to the nearest
    /// integer, then the component with the largest rounding error is
    /// corrected so that `q + r + s == 0` holds exactly — naive
    /// per-component rounding would break the invariant. Deterministic,
    /// including on exact half-integer ties (halves round up; error ties
    /// prefer correcting `q`, then `r`).
    pub fn round(self) -> (c: Cube)
        requires
            self.wf(),
            self.in_range(1000000),
        ensures
            c.wf(),
            (c.q as int, c.r as int, c.s as int) == round_spec(self),
            iabs(c.q * self.den - self.qn) <= self.den,
            iabs(c.r * self.den - self.rn) <= self.den,
            iabs(c.s * self.den - self.sn) <= self.den,
            self.qn % self.den == 0 && self.rn % self.den == 0 ==> c.q * self.den == self.qn
                && c.r * self.den == self.rn && c.s * self.den == self.sn,
    {
        let nq: i128 = round_to_nearest(self.qn, self.den);
        let nr: i128 = round_to_nearest(self.rn, self.den);
        let ns: i128 = round_to_nearest(self.sn, self.den);
        proof {
            lemma_scaled_bounds(self.qn as int, self.den as int, nq as int);
            lemma_scaled_bounds(self.rn as int, self.den as int, nr as int);
            lemma_scaled_bounds(self.sn as int, self.den as int, ns as int);
        }
        let eq: i128 = abs128(2 * self.qn - 2 * nq * self.den);
        let er: i128 = abs128(2 * self.rn - 2 * nr * self.den);
        let es: i128 = abs128(2 * self.sn - 2 * ns * self.den);
        let (cq, cr, cs): (i128, i128, i128) = if eq >= er && eq >= es {
            (-nr - ns, nr, ns)
        } else if er >= es {
            (nq, -nq - ns, ns)
        } else {
            (nq, nr, -nq - nr)
        };
        proof {
            lemma_round_errors(self, nq as int, nr as int, ns as int);
            if self.qn % self.den == 0 && self.rn % self.den == 0 {
                lemma_round_exact(self, nq as int, nr as int, ns as int);
            }
        }
        Cube { q: cq as i32, r: cr as i32, s: cs as i32 }
    }
}

/// Absolute value; the argument must not be the smallest `i128`.
fn abs128(x: i128) -> (r: i128)
    requires
        x > i128::MIN,
    ensures
        r == iabs(x as int),
{
    if x < 0 {
        -x
    } else {
        x
    }
}

/// Intermediate bounds that keep the error terms of `round` inside `i128`.
proof fn lemma_scaled_bounds(n: int, d: int, v: int)
    requires
        0 < d <= 0x1000_0000_0000_0000_0000_0000,
        iabs(n) <= 1000000 * d,
        iabs(v) <= 1000001,
    ensures
        iabs(n) <= 0x10_0000_0000_0000_0000_0000_0000_0000,
        iabs(v * d) <= 0x10_0000_0000_0000_0000_0000_0000_0000,
        iabs(2 * v * d) <= 0x20_0000_0000_0000_0000_0000_0000_0000,
{
    assert(iabs(n) <= 0x10_0000_0000_0000_0000_0000_0000_0000) by (nonlinear_arith)
        requires
            0 < d <= 0x1000_0000_0000_0000_0000_0000,
            iabs(n) <= 1000000 * d,
    ;
    assert(iabs(v * d) <= 0x10_0000_0000_0000_0000_0000_0000_0000 && iabs(2 * v * d)
        <= 0x20_0000_0000_0000_0000_0000_0000_0000) by (nonlinear_arith)
        requires
            0 < d <= 0x1000_0000_0000_0000_0000_0000,
            iabs(v) <= 1000001,
    ;
}

/// Floor division for a positive divisor, agreeing with the mathematical
/// (Euclidean) quotient.
fn floor_div(a: i128, b: i128) -> (r: i128)
    requires
        b > 0,
        iabs(a as int) < 0x4000_0000_0000_0000_0000_0000_0000_0000,
    ensures
        r == (a as int) / (b as int),
{
    let neg: bool = a < 0;
    let ua: u128 = if neg { (-a) as u128 } else { a as u128 };
    let ub: u128 = b as u128;
    let t: u128 = ua / ub;
    let rem: u128 = ua % ub;
    proof {
        vstd::arithmetic::div_mod::lemma_fundamental_div_mod(ua as int, ub as int);
        assert(ua as int == (t as int) * (b as int) + (rem as int)) by (nonlinear_arith)
            requires
                ua as int == (ub as int) * (t as int) + (rem as int),
                ub as int == b as int,
        ;
    }
    if !neg {
        proof {
            lemma_fundamental_div_mod_converse(a as int, b as int, t as int, rem as int);
        }
        t as i128
    } else if rem == 0 {
        proof {
            assert((-(t as int)) * (b as int) + 0 == a as int) by (nonlinear_arith)
                requires
                    (t as int) * (b as int) + (rem as int) == -(a as int),
                    rem == 0,
            ;
            lemma_fundamental_div_mod_converse(a as int, b as int, -(t as int), 0);
        }
        -(t as i128)
    } else {
        proof {
            assert((-(t as int) - 1) * (b as int) + ((b as int) - (rem as int)) == a as int)
                by (nonlinear_arith)
                requires
                    (t as int) * (b as int) + (rem as int) == -(a as int),
            ;
            lemma_fundamental_div_mod_converse(
                a as int,
                b as int,
                -(t as int) - 1,
                (b as int) - (rem as int),
            );
        }
        -(t as i128) - 1
    }
}

/// Rounds `n/d` to the nearest integer, halves up.
fn round_to_nearest(n: i128, d: i128) -> (r: i128)
    requires
        d > 0,
        d <= 0x1000_0000_0000_0000_0000_0000,
        iabs(n as int) <= 1000000 * d,
    ensures
        r == nearest(n as int, d as int),
        iabs(r as int) <= 1000001,
{
    let r = floor_div(2 * n + d, 2 * d);
    proof {
        lemma_nearest_close(n as int, d as int);
        let v = nearest(n as int, d as int);
        assert(iabs(2 * n - 2 * v * d) <= d);
        assert(iabs(v) <= 1000001) by (nonlinear_arith)
            requires
                iabs(n as int) <= 1000000 * d,
                iabs(2 * n - 2 * v * d) <= d,
                d > 0,
        ;
    }
    r
}

/// The nearest integer is within half a unit of the value:
/// `|2n - 2*nearest(n,d)*d| <= d`, and an exact multiple rounds to itself.
pub proof fn lemma_nearest_close(n: int, d: int)
    requires
        d > 0,
    ensures
        iabs(2 * n - 2 * nearest(n, d) * d) <= d,
        n % d == 0 ==> nearest(n, d) * d == n,
{
    let a = 2 * n + d;
    let b = 2 * d;
    let v = a / b;
    let m = a % b;
    vstd::arithmetic::div_mod::lemma_fundamental_div_mod(a, b);
    assert(a == b * v + m);
    assert(0 <= m < b);
    assert(2 * n - 2 * v * d == m - d) by (nonlinear_arith)
        requires
            a == b * v + m,
            a == 2 * n + d,
            b == 2 * d,
    ;
    if n % d == 0 {
        let k = n / d;
        vstd::arithmetic::div_mod::lemma_fundamental_div_mod(n, d);
        assert(n == d * k);
        assert(k * (2 * d) + d == 2 * n + d) by (nonlinear_arith)
            requires
                n == d * k,
        ;
        lemma_fundamental_div_mod_converse(2 * n + d, 2 * d, k, d);
        assert(v == k);
        assert(v * d == n) by (nonlinear_arith)
            requires
                v == k,
                n == d * k,
        ;
    }
}

/// After correction, every component of the rounded coordinate is within
/// one unit of the fractional component.
proof fn lemma_round_errors(f: FracCube, nq: int, nr: int, ns: int)
    requires
        f.wf(),
        nq == nearest(f.qn as int, f.den as int),
        nr == nearest(f.rn as int, f.den as int),
        ns == nearest(f.sn as int, f.den as int),
    ensures
        iabs(round_spec(f).0 * f.den - f.qn) <= f.den,
        iabs(round_spec(f).1 * f.den - f.rn) <= f.den,
        iabs(round_spec(f).2 * f.den - f.sn) <= f.den,
{
    lemma_nearest_close(f.qn as int, f.den as int);
    lemma_nearest_close(f.rn as int, f.den as int);
    lemma_nearest_close(f.sn as int, f.den as int);
    let d = f.den as int;
    assert(iabs(nq * d - f.qn) <= d) by (nonlinear_arith)
        requires
            d > 0,
            iabs(2 * f.qn - 2 * nq * d) <= d,
    ;
    assert(iabs(nr * d - f.rn) <= d) by (nonlinear_arith)
        requires
            d > 0,
            iabs(2 * f.rn - 2 * nr * d) <= d,
    ;
    assert(iabs(ns * d - f.sn) <= d) by (nonlinear_arith)
        requires
            d > 0,
            iabs(2 * f.sn - 2 * ns * d) <= d,
    ;
    assert(iabs((-nr - ns) * d - f.qn) <= d) by (nonlinear_arith)
        requires
            d > 0,
            f.qn + f.rn + f.sn == 0,
            iabs(2 * f.rn - 2 * nr * d) <= d,
            iabs(2 * f.sn - 2 * ns * d) <= d,
    ;
    assert(iabs((-nq - ns) * d - f.rn) <= d) by (nonlinear_arith)
        requires
            d > 0,
            f.qn + f.rn + f.sn == 0,
            iabs(2 * f.qn - 2 * nq * d) <= d,
            iabs(2 * f.sn - 2 * ns * d) <= d,
    ;
    assert(iabs((-nq - nr) * d - f.sn) <= d) by (nonlinear_arith)
        requires
            d > 0,
            f.qn + f.rn + f.sn == 0,
            iabs(2 * f.qn - 2 * nq * d) <= d,
            iabs(2 * f.rn - 2 * nr * d) <= d,
    ;
}

/// A fraction whose components are exact integers rounds to exactly those
/// integers, whichever component the correction step rewrites.
proof fn lemma_round_exact(f: FracCube, nq: int, nr: int, ns: int)
    requires
        f.wf(),
        f.qn % f.den == 0,
        f.rn % f.den == 0,
        nq == nearest(f.qn as int, f.den as int),
        nr == nearest(f.rn as int, f.den as int),
        ns == nearest(f.sn as int, f.den as int),
    ensures
        round_spec(f).0 * f.den == f.qn,
        round_spec(f).1 * f.den == f.rn,
        round_spec(f).2 * f.den == f.sn,
{
    let d = f.den as int;
    assert((f.sn as int) % d == 0) by {
        vstd::arithmetic::div_mod::lemma_fundamental_div_mod(f.qn as int, d);
        vstd::arithmetic::div_mod::lemma_fundamental_div_mod(f.rn as int, d);
        let kq = (f.qn as int) / d;
        let kr = (f.rn as int) / d;
        assert((-kq - kr) * d + 0 == f.sn as int) by (nonlinear_arith)
            requires
                f.qn as int == d * kq,
                f.rn as int == d * kr,
                f.qn + f.rn + f.sn == 0,
        ;
        lemma_fundamental_div_mod_converse(f.sn as int, d, -kq - kr, 0);
    }
    lemma_nearest_close(f.qn as int, d);
    lemma_nearest_close(f.rn as int, d);
    lemma_nearest_close(f.sn as int, d);
    assert(nq * d + nr * d + ns * d == 0) by (nonlinear_arith)
        requires
            nq * d == f.qn as int,
            nr * d == f.rn as int,
            ns * d == f.sn as int,
            f.qn + f.rn + f.sn == 0,
    ;
    assert((-nr - ns) * d == nq * d) by (nonlinear_arith)
        requires
            nq * d + nr * d + ns * d == 0,
    ;
    assert((-nq - ns) * d == nr * d) by (nonlinear_arith)
        requires
            nq * d + nr * d + ns * d == 0,
    ;
    assert((-nq - nr) * d == ns * d) by (nonlinear_arith)
        requires
            nq * d + nr * d + ns * d == 0,
    ;
}

} // verus!
