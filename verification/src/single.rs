//! Single-precision floating point, computed with integers.
//!
//! A positive number is a mantissa of 24 bits times a power of two. Every operation gives the
//! number of this form that is nearest to the exact result, and of two that are equally near the
//! one with the even mantissa. The numbers here stay far from the largest and the smallest ones, so
//! exponents are unlimited.

use vstd::arithmetic::power2::{
    lemma2_to64, lemma2_to64_rest, lemma_pow2_adds, lemma_pow2_pos, lemma_pow2_strictly_increases,
    lemma_pow2_unfold, pow2,
};
use vstd::prelude::*;

verus! {

/// The number `mantissa` times two to the power of `exponent`.
pub struct SingleView {
    pub mantissa: nat,
    pub exponent: int,
}

/// The integer nearest to `num / den`, the even one of two that are equally near.
pub open spec fn half_even(num: nat, den: nat) -> nat {
    let low = num / den;
    let rest = num % den;
    if 2 * rest < den || (2 * rest == den && low % 2 == 0) {
        low
    } else {
        low + 1
    }
}

/// The number nearest to `num / den` times two to the power of `exponent`.
pub open spec fn nearest(num: nat, den: nat, exponent: int) -> SingleView
    decreases
            if num < 0x80_0000 * den {
                1int
            } else {
                0int
            },
            if num < 0x80_0000 * den {
                0x80_0000 * den - num
            } else {
                num - 0x80_0000 * den
            },
    when den > 0
{
    if num == 0 {
        SingleView { mantissa: 0, exponent: 0 }
    } else if num < 0x80_0000 * den {
        nearest(2 * num, den, exponent - 1)
    } else if num >= 0x100_0000 * den {
        nearest(num, 2 * den, exponent + 1)
    } else {
        SingleView { mantissa: half_even(num, den), exponent }
    }
}

/// Two to the power of `exponent`, as a numerator.
pub open spec fn up(exponent: int) -> nat {
    if exponent > 0 {
        pow2(exponent as nat)
    } else {
        1
    }
}

/// Two to the power of `exponent`, as a denominator.
pub open spec fn down(exponent: int) -> nat {
    if exponent < 0 {
        pow2((-exponent) as nat)
    } else {
        1
    }
}

impl SingleView {
    /// The numerator of the number as a fraction.
    pub open spec fn num(self) -> nat {
        self.mantissa * up(self.exponent)
    }

    /// The denominator of the number as a fraction.
    pub open spec fn den(self) -> nat {
        down(self.exponent)
    }

    /// The number divided by another one.
    pub open spec fn divided(self, by: SingleView) -> SingleView {
        nearest(self.mantissa, by.mantissa, self.exponent - by.exponent)
    }

    /// The number times an integer that is itself such a number.
    pub open spec fn times(self, k: nat) -> SingleView {
        nearest(k * self.mantissa, 1, self.exponent)
    }

    /// An integer that is itself such a number, less the number. There is none where the
    /// difference is not positive.
    pub open spec fn taken_from(self, k: nat) -> Option<SingleView> {
        if k * self.den() > self.num() {
            Some(nearest((k * self.den() - self.num()) as nat, self.den(), 0))
        } else {
            None
        }
    }

    /// The nearest integer, the larger one of two that are equally near.
    pub open spec fn rounded(self) -> nat {
        (2 * self.num() + self.den()) / (2 * self.den())
    }

    /// Whether the mantissa has 24 bits, or the number is zero. The mantissa may have been rounded
    /// up to the next power of two.
    pub open spec fn wf(self) -> bool {
        self.mantissa == 0 || 0x80_0000 <= self.mantissa <= 0x100_0000
    }

    /// Whether the number is at most another one.
    pub open spec fn le(self, other: SingleView) -> bool {
        self.num() * other.den() <= other.num() * self.den()
    }
}

/// The number nearest to an integer.
pub open spec fn from_integer(i: nat) -> SingleView {
    nearest(i, 1, 0)
}

// ---------------------------------------------------------------------------
// Powers of two
// ---------------------------------------------------------------------------

pub(crate) proof fn lemma_units(exponent: int)
    ensures
        up(exponent) >= 1,
        down(exponent) >= 1,
        exponent > 0 ==> up(exponent) == 2 * up(exponent - 1) && down(exponent - 1) == 1
            && down(exponent) == 1,
        exponent <= 0 ==> down(exponent - 1) == 2 * down(exponent) && up(exponent - 1) == 1
            && up(exponent) == 1,
{
    lemma2_to64();
    if exponent > 0 {
        lemma_pow2_pos(exponent as nat);
        lemma_pow2_unfold(exponent as nat);
        if exponent == 1 {
            assert(up(0) == 1);
        }
    } else {
        lemma_pow2_pos((-exponent) as nat);
        lemma_pow2_unfold((-(exponent - 1)) as nat);
        assert((-(exponent - 1)) as nat - 1 == (-exponent) as nat);
    }
}

/// Two powers of two differ by the power of two of the difference.
proof fn lemma_ratio(e1: int, e2: int)
    requires
        e1 <= e2,
    ensures
        up(e2) * down(e1) == pow2((e2 - e1) as nat) * (up(e1) * down(e2)),
    decreases e2 - e1,
{
    lemma_units(e2);
    let (u, d) = (up(e1), down(e1));
    let (v, w) = (up(e2), down(e2));
    let k = pow2((e2 - e1) as nat);
    if e1 == e2 {
        lemma2_to64();
        assert(v * d == k * (u * w)) by (nonlinear_arith)
            requires
                k == 1,
                u == v,
                d == w,
        ;
    } else {
        lemma_ratio(e1, e2 - 1);
        lemma_pow2_unfold((e2 - e1) as nat);
        let (v0, w0) = (up(e2 - 1), down(e2 - 1));
        let k0 = pow2((e2 - 1 - e1) as nat);
        assert(v * d == k * (u * w)) by (nonlinear_arith)
            requires
                v0 * d == k0 * (u * w0),
                k == 2 * k0,
                (v == 2 * v0 && w == 1 && w0 == 1) || (w0 == 2 * w && v == 1 && v0 == 1),
        ;
    }
}

// ---------------------------------------------------------------------------
// Rounding
// ---------------------------------------------------------------------------

/// No integer is nearer than the one that is rounded to, and it is even where another one is as
/// near.
pub proof fn law_half_even_nearest(num: nat, den: nat)
    requires
        den > 0,
    ensures
        2 * num <= 2 * (half_even(num, den) * den) + den,
        2 * (half_even(num, den) * den) <= 2 * num + den,
        2 * num == 2 * (half_even(num, den) * den) + den || 2 * (half_even(num, den) * den) == 2
            * num + den ==> half_even(num, den) % 2 == 0,
{
    let low = num / den;
    let rest = num % den;
    assert(num == low * den + rest && rest < den) by (nonlinear_arith)
        requires
            den > 0,
            low == num / den,
            rest == num % den,
    ;
    assert((low + 1) * den == low * den + den) by (nonlinear_arith);
}

proof fn lemma_half_even_range(num: nat, den: nat)
    requires
        den > 0,
        0x80_0000 * den <= num < 0x100_0000 * den,
    ensures
        0x80_0000 <= half_even(num, den) <= 0x100_0000,
{
    assert(0x80_0000 <= num / den < 0x100_0000) by (nonlinear_arith)
        requires
            den > 0,
            0x80_0000 * den <= num < 0x100_0000 * den,
    ;
}

proof fn lemma_half_even_exact(m: nat, den: nat)
    requires
        den > 0,
    ensures
        half_even(m * den, den) == m,
{
    assert((m * den) / den == m && (m * den) % den == 0) by (nonlinear_arith)
        requires
            den > 0,
    ;
}

proof fn lemma_half_even_monotone(n1: nat, d1: nat, n2: nat, d2: nat)
    requires
        d1 > 0,
        d2 > 0,
        n1 * d2 <= n2 * d1,
    ensures
        half_even(n1, d1) <= half_even(n2, d2),
{
    let m1 = half_even(n1, d1);
    let m2 = half_even(n2, d2);
    law_half_even_nearest(n1, d1);
    law_half_even_nearest(n2, d2);
    if m1 > m2 {
        let h = 2 * m2 + 1;
        assert(h * d1 <= 2 * n1) by (nonlinear_arith)
            requires
                m1 >= m2 + 1,
                2 * (m1 * d1) <= 2 * n1 + d1,
                h == 2 * m2 + 1,
        ;
        assert(2 * n2 <= h * d2) by (nonlinear_arith)
            requires
                2 * n2 <= 2 * (m2 * d2) + d2,
                h == 2 * m2 + 1,
        ;
        assert(h * d1 * d2 <= 2 * n1 * d2) by (nonlinear_arith)
            requires
                h * d1 <= 2 * n1,
        ;
        assert(2 * n2 * d1 <= h * d2 * d1) by (nonlinear_arith)
            requires
                2 * n2 <= h * d2,
        ;
        assert(h * d1 * d2 == h * d2 * d1) by (nonlinear_arith);
        assert(2 * n1 * d2 == 2 * (n1 * d2) && 2 * n2 * d1 == 2 * (n2 * d1)) by (nonlinear_arith);
        assert(2 * n1 == h * d1) by (nonlinear_arith)
            requires
                d2 > 0,
                2 * n1 * d2 == h * d1 * d2,
        ;
        assert(2 * n2 == h * d2) by (nonlinear_arith)
            requires
                d1 > 0,
                2 * n2 * d1 == h * d2 * d1,
        ;
        assert(h * d2 == 2 * (m2 * d2) + d2) by (nonlinear_arith)
            requires
                h == 2 * m2 + 1,
        ;
        assert(m2 % 2 == 0);
        assert(m1 == m2 + 1 && 2 * (m1 * d1) == 2 * n1 + d1) by (nonlinear_arith)
            requires
                m1 >= m2 + 1,
                d1 > 0,
                2 * (m1 * d1) <= 2 * n1 + d1,
                2 * n1 == h * d1,
                h == 2 * m2 + 1,
        ;
        assert(m1 % 2 == 0);
    }
}

/// The mantissa has 24 bits.
pub(crate) proof fn lemma_nearest_wf(num: nat, den: nat, exponent: int)
    requires
        den > 0,
    ensures
        nearest(num, den, exponent).wf(),
        num > 0 ==> nearest(num, den, exponent).mantissa > 0,
        num == 0 ==> nearest(num, den, exponent) == (SingleView { mantissa: 0, exponent: 0 }),
    decreases
            if num < 0x80_0000 * den {
                1int
            } else {
                0int
            },
            if num < 0x80_0000 * den {
                0x80_0000 * den - num
            } else {
                num - 0x80_0000 * den
            },
{
    if num == 0 {
    } else if num < 0x80_0000 * den {
        lemma_nearest_wf(2 * num, den, exponent - 1);
    } else if num >= 0x100_0000 * den {
        lemma_nearest_wf(num, 2 * den, exponent + 1);
    } else {
        lemma_half_even_range(num, den);
    }
}

// ---------------------------------------------------------------------------
// The order of the numbers
// ---------------------------------------------------------------------------

/// Whether `n1 / d1` times two to the power of `e1` is at most `n2 / d2` times two to the power of
/// `e2`.
pub open spec fn fraction_le(n1: nat, d1: nat, e1: int, n2: nat, d2: nat, e2: int) -> bool {
    (n1 * up(e1)) * (d2 * down(e2)) <= (n2 * up(e2)) * (d1 * down(e1))
}

/// Equal fractions compare alike.
proof fn lemma_same_fraction(a: nat, b: nat, a1: nat, b1: nat, c: nat, d: nat)
    requires
        b > 0,
        b1 > 0,
        a1 * b == a * b1,
    ensures
        a * d <= c * b ==> a1 * d <= c * b1,
        c * b <= a * d ==> c * b1 <= a1 * d,
{
    assert(a1 * d * b == a * d * b1) by (nonlinear_arith)
        requires
            a1 * b == a * b1,
    ;
    assert(c * b1 * b == c * b * b1) by (nonlinear_arith);
    if a * d <= c * b {
        assert(a * d * b1 <= c * b * b1) by (nonlinear_arith)
            requires
                a * d <= c * b,
        ;
        assert(a1 * d <= c * b1) by (nonlinear_arith)
            requires
                a1 * d * b <= c * b1 * b,
                b > 0,
        ;
    }
    if c * b <= a * d {
        assert(c * b * b1 <= a * d * b1) by (nonlinear_arith)
            requires
                c * b <= a * d,
        ;
        assert(c * b1 <= a1 * d) by (nonlinear_arith)
            requires
                c * b1 * b <= a1 * d * b,
                b > 0,
        ;
    }
}

/// Twice the numerator with the exponent below, and twice the denominator with the exponent above,
/// give the same fraction.
proof fn lemma_shifted(num: nat, den: nat, e: int)
    requires
        den > 0,
    ensures
        den * down(e) > 0,
        den * down(e - 1) > 0,
        2 * den * down(e + 1) > 0,
        (2 * num * up(e - 1)) * (den * down(e)) == (num * up(e)) * (den * down(e - 1)),
        (num * up(e + 1)) * (den * down(e)) == (num * up(e)) * (2 * den * down(e + 1)),
{
    lemma_units(e);
    lemma_units(e - 1);
    lemma_units(e + 1);
    let (u, u0, u1) = (up(e), up(e - 1), up(e + 1));
    let (d, d0, d1) = (down(e), down(e - 1), down(e + 1));
    assert(den * d > 0 && den * d0 > 0 && 2 * den * d1 > 0) by (nonlinear_arith)
        requires
            den > 0,
            d > 0,
            d0 > 0,
            d1 > 0,
    ;
    assert(2 * u0 * d == u * d0) by (nonlinear_arith)
        requires
            (u == 2 * u0 && d == 1 && d0 == 1) || (d0 == 2 * d && u == 1 && u0 == 1),
    ;
    assert(u1 * d == 2 * u * d1) by (nonlinear_arith)
        requires
            (u1 == 2 * u && d == 1 && d1 == 1) || (d == 2 * d1 && u == 1 && u1 == 1),
    ;
    assert((2 * num * u0) * (den * d) == num * den * (2 * u0 * d)) by (nonlinear_arith);
    assert((num * u) * (den * d0) == num * den * (u * d0)) by (nonlinear_arith);
    assert((num * u1) * (den * d) == num * den * (u1 * d)) by (nonlinear_arith);
    assert((num * u) * (2 * den * d1) == num * den * (2 * u * d1)) by (nonlinear_arith);
}

/// A larger fraction has a larger nearest number, or the same one.
pub proof fn law_nearest_monotone(n1: nat, d1: nat, e1: int, n2: nat, d2: nat, e2: int)
    requires
        d1 > 0,
        d2 > 0,
        fraction_le(n1, d1, e1, n2, d2, e2),
    ensures
        nearest(n1, d1, e1).le(nearest(n2, d2, e2)),
    decreases
            if n1 < 0x80_0000 * d1 {
                1int
            } else {
                0int
            },
            if n1 < 0x80_0000 * d1 {
                0x80_0000 * d1 - n1
            } else {
                n1 - 0x80_0000 * d1
            },
            if n2 < 0x80_0000 * d2 {
                1int
            } else {
                0int
            },
            if n2 < 0x80_0000 * d2 {
                0x80_0000 * d2 - n2
            } else {
                n2 - 0x80_0000 * d2
            },
{
    let (a, b) = (n1 * up(e1), d1 * down(e1));
    let (c, d) = (n2 * up(e2), d2 * down(e2));
    lemma_units(e1);
    lemma_units(e2);
    lemma_shifted(n1, d1, e1);
    lemma_shifted(n2, d2, e2);
    if n1 == 0 {
        let x = nearest(n2, d2, e2);
        assert(0 * up(0) == 0);
        assert(0 * x.den() == 0);
        assert(x.num() * down(0) >= 0) by (nonlinear_arith);
    } else if n2 == 0 {
        assert(c * b == 0) by (nonlinear_arith)
            requires
                c == 0 * up(e2),
        ;
        assert(a * d > 0) by (nonlinear_arith)
            requires
                a == n1 * up(e1),
                n1 > 0,
                up(e1) > 0,
                d > 0,
        ;
    } else if n1 < 0x80_0000 * d1 {
        lemma_same_fraction(a, b, 2 * n1 * up(e1 - 1), d1 * down(e1 - 1), c, d);
        law_nearest_monotone(2 * n1, d1, e1 - 1, n2, d2, e2);
    } else if n1 >= 0x100_0000 * d1 {
        lemma_same_fraction(a, b, n1 * up(e1 + 1), 2 * d1 * down(e1 + 1), c, d);
        law_nearest_monotone(n1, 2 * d1, e1 + 1, n2, d2, e2);
    } else if n2 < 0x80_0000 * d2 {
        lemma_same_fraction(c, d, 2 * n2 * up(e2 - 1), d2 * down(e2 - 1), a, b);
        law_nearest_monotone(n1, d1, e1, 2 * n2, d2, e2 - 1);
    } else if n2 >= 0x100_0000 * d2 {
        lemma_same_fraction(c, d, n2 * up(e2 + 1), 2 * d2 * down(e2 + 1), a, b);
        law_nearest_monotone(n1, d1, e1, n2, 2 * d2, e2 + 1);
    } else {
        lemma_normal_monotone(n1, d1, e1, n2, d2, e2);
    }
}

proof fn lemma_normal_monotone(n1: nat, d1: nat, e1: int, n2: nat, d2: nat, e2: int)
    requires
        d1 > 0,
        d2 > 0,
        0x80_0000 * d1 <= n1 < 0x100_0000 * d1,
        0x80_0000 * d2 <= n2 < 0x100_0000 * d2,
        fraction_le(n1, d1, e1, n2, d2, e2),
    ensures
        nearest(n1, d1, e1).le(nearest(n2, d2, e2)),
{
    let (u1, w1) = (up(e1), down(e1));
    let (u2, w2) = (up(e2), down(e2));
    let m1 = half_even(n1, d1);
    let m2 = half_even(n2, d2);
    lemma_units(e1);
    lemma_units(e2);
    lemma_half_even_range(n1, d1);
    lemma_half_even_range(n2, d2);
    // With `p` and `q` for the powers of two on the two sides, `n1 * d2 * p <= n2 * d1 * q`.
    let p = u1 * w2;
    let q = u2 * w1;
    assert((n1 * u1) * (d2 * w2) == n1 * d2 * p) by (nonlinear_arith)
        requires
            p == u1 * w2,
    ;
    assert((n2 * u2) * (d1 * w1) == n2 * d1 * q) by (nonlinear_arith)
        requires
            q == u2 * w1,
    ;
    assert((m1 * u1) * w2 == m1 * p) by (nonlinear_arith)
        requires
            p == u1 * w2,
    ;
    assert((m2 * u2) * w1 == m2 * q) by (nonlinear_arith)
        requires
            q == u2 * w1,
    ;
    assert(p > 0 && q > 0) by (nonlinear_arith)
        requires
            p == u1 * w2,
            q == u2 * w1,
            u1 > 0,
            u2 > 0,
            w1 > 0,
            w2 > 0,
    ;
    if e1 == e2 {
        assert(n1 * d2 <= n2 * d1) by (nonlinear_arith)
            requires
                n1 * d2 * p <= n2 * d1 * q,
                p == q,
                p > 0,
        ;
        lemma_half_even_monotone(n1, d1, n2, d2);
        assert(m1 * p <= m2 * q) by (nonlinear_arith)
            requires
                m1 <= m2,
                p == q,
        ;
    } else if e1 < e2 {
        lemma_ratio(e1, e2);
        lemma_pow2_unfold((e2 - e1) as nat);
        lemma_pow2_pos((e2 - e1 - 1) as nat);
        assert(2 * p <= q) by (nonlinear_arith)
            requires
                q == pow2((e2 - e1) as nat) * p,
                pow2((e2 - e1) as nat) >= 2,
        ;
        assert(m1 * p <= m2 * q) by (nonlinear_arith)
            requires
                m1 <= 0x100_0000,
                m2 >= 0x80_0000,
                2 * p <= q,
        ;
    } else {
        lemma_ratio(e2, e1);
        lemma_pow2_unfold((e1 - e2) as nat);
        lemma_pow2_pos((e1 - e2 - 1) as nat);
        assert(2 * q <= p) by (nonlinear_arith)
            requires
                p == pow2((e1 - e2) as nat) * q,
                pow2((e1 - e2) as nat) >= 2,
        ;
        let dd = d1 * d2;
        assert(0x80_0000 * dd <= n1 * d2) by (nonlinear_arith)
            requires
                dd == d1 * d2,
                0x80_0000 * d1 <= n1,
        ;
        assert(n2 * d1 < 0x100_0000 * dd) by (nonlinear_arith)
            requires
                dd == d1 * d2,
                n2 < 0x100_0000 * d2,
                d1 > 0,
        ;
        assert(n2 * d1 * q < n1 * d2 * p) by (nonlinear_arith)
            requires
                0x80_0000 * dd <= n1 * d2,
                n2 * d1 < 0x100_0000 * dd,
                2 * q <= p,
                q > 0,
        ;
    }
}

// ---------------------------------------------------------------------------
// Exact numbers
// ---------------------------------------------------------------------------

/// A mantissa of 24 bits times a power of two is its own nearest number.
proof fn lemma_nearest_exact_above(num: nat, den: nat, exponent: int, m: nat, j: nat)
    requires
        den > 0,
        0x80_0000 <= m < 0x100_0000,
        num == m * den * pow2(j),
    ensures
        nearest(num, den, exponent) == (SingleView { mantissa: m, exponent: exponent + j }),
    decreases j,
{
    lemma_pow2_pos(j);
    assert(m * den >= 0x80_0000 * den && m * den < 0x100_0000 * den) by (nonlinear_arith)
        requires
            den > 0,
            0x80_0000 <= m < 0x100_0000,
    ;
    if j == 0 {
        lemma2_to64();
        assert(num == m * den) by (nonlinear_arith)
            requires
                num == m * den * pow2(j),
                pow2(j) == 1,
        ;
        lemma_half_even_exact(m, den);
    } else {
        let half = pow2((j - 1) as nat);
        lemma_pow2_unfold(j);
        lemma_pow2_pos((j - 1) as nat);
        assert(num == m * (2 * den) * half && num >= 2 * (m * den)) by (nonlinear_arith)
            requires
                num == m * den * pow2(j),
                pow2(j) == 2 * half,
                half >= 1,
        ;
        lemma_nearest_exact_above(num, 2 * den, exponent + 1, m, (j - 1) as nat);
    }
}

/// Whether the fraction `num / den` is the integer `k` times two to the power of `exponent`.
pub open spec fn is_integer(num: nat, den: nat, k: nat, exponent: int) -> bool {
    num * down(exponent) == k * up(exponent) * den
}

/// An integer of at most 24 bits times a power of two is its own nearest number.
pub(crate) proof fn lemma_nearest_exact(k: nat, den: nat, j: nat, exponent: int)
    requires
        den > 0,
        0 < k < 0x100_0000,
    ensures
        ({
            let r = nearest(k * den * pow2(j), den, exponent);
            is_integer(r.num(), r.den(), k, exponent + j)
        }),
    decreases 0x100_0000 - k,
{
    let num = k * den * pow2(j);
    let r = nearest(num, den, exponent);
    let e = exponent + j;
    if k >= 0x80_0000 {
        lemma_nearest_exact_above(num, den, exponent, k, j);
    } else {
        lemma_units(e);
        if j == 0 {
            lemma2_to64();
            assert(num == k * den) by (nonlinear_arith)
                requires
                    num == k * den * pow2(j),
                    pow2(j) == 1,
            ;
            assert(0 < k * den < 0x80_0000 * den) by (nonlinear_arith)
                requires
                    den > 0,
                    0 < k < 0x80_0000,
            ;
            assert(2 * num == 2 * k * den * pow2(0)) by (nonlinear_arith)
                requires
                    num == k * den,
                    pow2(0) == 1,
            ;
            lemma_nearest_exact(2 * k, den, 0, exponent - 1);
        } else {
            let half = pow2((j - 1) as nat);
            lemma_pow2_unfold(j);
            assert(num == 2 * k * den * half) by (nonlinear_arith)
                requires
                    num == k * den * pow2(j),
                    pow2(j) == 2 * half,
            ;
            lemma_nearest_exact(2 * k, den, (j - 1) as nat, exponent);
        }
        let (u, u0) = (up(e), up(e - 1));
        let (d, d0) = (down(e), down(e - 1));
        assert(r.num() * d == k * u * r.den()) by (nonlinear_arith)
            requires
                r.num() * d0 == 2 * k * u0 * r.den(),
                (u == 2 * u0 && d == 1 && d0 == 1) || (d0 == 2 * d && u == 1 && u0 == 1),
        ;
    }
}

/// A small integer is its own nearest number, and it is rounded to itself.
pub(crate) proof fn lemma_integer(k: nat, den: nat)
    requires
        den > 0,
        0 < k < 0x100_0000,
    ensures
        nearest(k * den, den, 0).num() == k * nearest(k * den, den, 0).den(),
        nearest(k * den, den, 0).rounded() == k,
{
    let r = nearest(k * den, den, 0);
    lemma2_to64();
    lemma_units(0);
    lemma_units(r.exponent);
    assert(k * den * pow2(0) == k * den) by (nonlinear_arith)
        requires
            pow2(0) == 1,
    ;
    lemma_nearest_exact(k, den, 0, 0);
    let d = r.den();
    assert(r.num() == k * d) by (nonlinear_arith)
        requires
            r.num() * down(0) == k * up(0) * d,
            down(0) == 1,
            up(0) == 1,
    ;
    assert((2 * (k * d) + d) / (2 * d) == k) by (nonlinear_arith)
        requires
            d > 0,
    ;
}

// ---------------------------------------------------------------------------
// What the operations keep
// ---------------------------------------------------------------------------

/// A comparison rests on the difference of the exponents alone.
proof fn lemma_le_shifted(x: SingleView, y: SingleView, by: int)
    requires
        x.le(y),
    ensures
        (x.mantissa * up(x.exponent - by)) * down(y.exponent - by) <= (y.mantissa * up(
            y.exponent - by,
        )) * down(x.exponent - by),
{
    let (a, b) = (x.exponent, y.exponent);
    let (m, n) = (x.mantissa, y.mantissa);
    lemma_units(a);
    lemma_units(b);
    lemma_units(a - by);
    lemma_units(b - by);
    let p = up(a) * down(b);
    let q = up(b) * down(a);
    let p1 = up(a - by) * down(b - by);
    let q1 = up(b - by) * down(a - by);
    assert(p > 0 && q > 0) by (nonlinear_arith)
        requires
            p == up(a) * down(b),
            q == up(b) * down(a),
            up(a) > 0,
            down(b) > 0,
            up(b) > 0,
            down(a) > 0,
    ;
    assert((m * up(a)) * down(b) == m * p) by (nonlinear_arith)
        requires
            p == up(a) * down(b),
    ;
    assert((n * up(b)) * down(a) == n * q) by (nonlinear_arith)
        requires
            q == up(b) * down(a),
    ;
    assert((m * up(a - by)) * down(b - by) == m * p1) by (nonlinear_arith)
        requires
            p1 == up(a - by) * down(b - by),
    ;
    assert((n * up(b - by)) * down(a - by) == n * q1) by (nonlinear_arith)
        requires
            q1 == up(b - by) * down(a - by),
    ;
    if a <= b {
        let k = pow2((b - a) as nat);
        lemma_ratio(a, b);
        lemma_ratio(a - by, b - by);
        assert(b - by - (a - by) == b - a);
        assert(m <= n * k) by (nonlinear_arith)
            requires
                m * p <= n * q,
                q == k * p,
                p > 0,
        ;
        assert(m * p1 <= n * q1) by (nonlinear_arith)
            requires
                m <= n * k,
                q1 == k * p1,
        ;
    } else {
        let k = pow2((a - b) as nat);
        lemma_ratio(b, a);
        lemma_ratio(b - by, a - by);
        assert(a - by - (b - by) == a - b);
        assert(m * k <= n) by (nonlinear_arith)
            requires
                m * p <= n * q,
                p == k * q,
                q > 0,
        ;
        assert(m * p1 <= n * q1) by (nonlinear_arith)
            requires
                m * k <= n,
                p1 == k * q1,
        ;
    }
}

/// The operations keep the order, and taking away turns it round.
pub proof fn law_operations_monotone(x: SingleView, y: SingleView, z: SingleView, k: nat)
    requires
        x.le(y),
        z.mantissa > 0,
    ensures
        x.divided(z).le(y.divided(z)),
        x.times(k).le(y.times(k)),
        y.taken_from(k) matches Some(less) ==> x.taken_from(k) matches Some(more) && less.le(more),
        x.rounded() <= y.rounded(),
{
    let (a, b) = (x.exponent, y.exponent);
    let (m, n) = (x.mantissa, y.mantissa);
    lemma_units(a);
    lemma_units(b);
    let c = z.mantissa;
    let by = z.exponent;
    lemma_le_shifted(x, y, by);
    let (u, v) = (up(a - by), up(b - by));
    let (d, w) = (down(a - by), down(b - by));
    assert((m * u) * (c * w) <= (n * v) * (c * d)) by (nonlinear_arith)
        requires
            (m * u) * w <= (n * v) * d,
    ;
    law_nearest_monotone(m, c, a - by, n, c, b - by);
    let (u, v) = (up(a), up(b));
    let (d, w) = (down(a), down(b));
    assert((k * m * u) * (1 * w) <= (k * n * v) * (1 * d)) by (nonlinear_arith)
        requires
            (m * u) * w <= (n * v) * d,
    ;
    law_nearest_monotone(k * m, 1, a, k * n, 1, b);
    let (p, q) = (x.num(), y.num());
    if k * w > q {
        assert(k * d > p) by (nonlinear_arith)
            requires
                p * w <= q * d,
                k * w > q,
                d > 0,
        ;
        let less = (k * w - q) as nat;
        let more = (k * d - p) as nat;
        assert((less * up(0)) * (d * down(0)) <= (more * up(0)) * (w * down(0)))
            by (nonlinear_arith)
            requires
                up(0) == 1,
                down(0) == 1,
                p * w <= q * d,
                less == k * w - q,
                more == k * d - p,
        ;
        law_nearest_monotone(less, w, 0, more, d, 0);
    }
    lemma_rounded_monotone(p, d, q, w);
}

proof fn lemma_rounded_monotone(p: nat, d: nat, q: nat, w: nat)
    requires
        d > 0,
        w > 0,
        p * w <= q * d,
    ensures
        (2 * p + d) / (2 * d) <= (2 * q + w) / (2 * w),
{
    let (s, t) = (2 * p + d, 2 * q + w);
    let f = s / (2 * d);
    assert(f * (2 * d) <= s) by (nonlinear_arith)
        requires
            d > 0,
            f == s / (2 * d),
    ;
    assert(s * w <= t * d) by (nonlinear_arith)
        requires
            s == 2 * p + d,
            t == 2 * q + w,
            p * w <= q * d,
    ;
    assert(f * (2 * w) <= t) by (nonlinear_arith)
        requires
            d > 0,
            f * (2 * d) <= s,
            s * w <= t * d,
    {
        assert(f * (2 * d) * w <= s * w);
        assert(f * (2 * w) * d == f * (2 * d) * w);
        assert(f * (2 * w) * d <= t * d);
    }
    assert(f <= t / (2 * w)) by (nonlinear_arith)
        requires
            w > 0,
            f * (2 * w) <= t,
    ;
}

// ---------------------------------------------------------------------------
// The numbers in integers of the machine
// ---------------------------------------------------------------------------

proof fn lemma_pow2_limit(k: nat)
    ensures
        pow2(120) == 0x100_0000_0000_0000_0000_0000_0000_0000,
        k <= 120 ==> pow2(k) <= 0x100_0000_0000_0000_0000_0000_0000_0000,
        k >= 120 ==> pow2(k) >= 0x100_0000_0000_0000_0000_0000_0000_0000,
{
    lemma2_to64_rest();
    lemma_pow2_adds(60, 60);
    if k < 120 {
        lemma_pow2_strictly_increases(k, 120);
    } else if k > 120 {
        lemma_pow2_strictly_increases(120, k);
    }
}

/// A fraction between two powers of two has an exponent between two bounds.
proof fn lemma_exponent_range(num: nat, den: nat, exponent: int, lo: nat, hi: nat)
    requires
        num > 0,
        den > 0,
        num * pow2(lo) >= 0x80_0000 * den,
        num < 0x100_0000 * den * pow2(hi),
    ensures
        exponent - lo <= nearest(num, den, exponent).exponent <= exponent + hi,
    decreases lo + hi,
{
    lemma2_to64();
    assert(num * 1 == num && 0x100_0000 * den * 1 == 0x100_0000 * den) by (nonlinear_arith);
    if num < 0x80_0000 * den {
        assert(lo > 0);
        let half = pow2((lo - 1) as nat);
        lemma_pow2_unfold(lo);
        assert(2 * num * half == num * pow2(lo)) by (nonlinear_arith)
            requires
                pow2(lo) == 2 * half,
        ;
        lemma_exponent_range(2 * num, den, exponent - 1, (lo - 1) as nat, 0);
    } else if num >= 0x100_0000 * den {
        assert(hi > 0);
        let half = pow2((hi - 1) as nat);
        lemma_pow2_unfold(hi);
        assert(0x100_0000 * (2 * den) * half == 0x100_0000 * den * pow2(hi)) by (nonlinear_arith)
            requires
                pow2(hi) == 2 * half,
        ;
        lemma_exponent_range(num, 2 * den, exponent + 1, 0, (hi - 1) as nat);
    }
}

/// A single-precision number that is not negative.
#[derive(Clone, Copy)]
pub struct Single {
    mantissa: u32,
    exponent: i32,
}

impl View for Single {
    type V = SingleView;

    closed spec fn view(&self) -> SingleView {
        SingleView { mantissa: self.mantissa as nat, exponent: self.exponent as int }
    }
}

/// Two to the power of `k`.
fn power(k: u32) -> (r: u128)
    requires
        k <= 120,
    ensures
        r == pow2(k as nat),
{
    let mut r: u128 = 1;
    let mut j: u32 = 0;
    proof {
        lemma2_to64();
    }
    while j < k
        invariant
            j <= k <= 120,
            r == pow2(j as nat),
        decreases k - j,
    {
        proof {
            lemma_pow2_limit(j as nat);
            lemma_pow2_unfold((j + 1) as nat);
        }
        r = 2 * r;
        j += 1;
    }
    r
}

/// The number nearest to a fraction times a power of two.
fn nearest_single(num: u128, den: u128, exponent: i32) -> (r: Single)
    requires
        num <= 0x10_0000_0000_0000_0000_0000_0000,
        0 < den <= 0x1_0000_0000_0000_0000_0000_0000,
        -1000 <= exponent <= 1000,
    ensures
        r@ == nearest(num as nat, den as nat, exponent as int),
{
    if num == 0 {
        return Single { mantissa: 0, exponent: 0 };
    }
    let mut n: u128 = num;
    let mut d: u128 = den;
    let mut e: i32 = exponent;
    proof {
        lemma2_to64();
    }
    while n < 0x80_0000 * d
        invariant
            n > 0,
            n <= 0x100_0000_0000_0000_0000_0000_0000_0000,
            d == den,
            0 < d <= 0x1_0000_0000_0000_0000_0000_0000,
            -1000 <= exponent <= 1000,
            exponent - 120 <= e <= exponent,
            n >= pow2((exponent - e) as nat),
            nearest(n as nat, d as nat, e as int) == nearest(
                num as nat,
                den as nat,
                exponent as int,
            ),
        decreases 0x100_0000 * d - n,
    {
        proof {
            lemma_pow2_limit((exponent - e) as nat);
            lemma_pow2_unfold((exponent - e + 1) as nat);
        }
        n = 2 * n;
        e -= 1;
    }
    let ghost start = e;
    while n >= 0x100_0000 * d
        invariant
            0x80_0000 * d <= n <= 0x100_0000_0000_0000_0000_0000_0000_0000,
            0 < d <= 0x2_0000_0000_0000_0000_0000_0000,
            -2000 <= start <= 1000,
            start <= e <= start + 120,
            d >= pow2((e - start) as nat),
            nearest(n as nat, d as nat, e as int) == nearest(
                num as nat,
                den as nat,
                exponent as int,
            ),
        decreases n - 0x80_0000 * d,
    {
        proof {
            lemma_pow2_limit((e - start) as nat);
            lemma_pow2_unfold((e - start + 1) as nat);
        }
        d = 2 * d;
        e += 1;
    }
    let low: u128 = n / d;
    let rest: u128 = n % d;
    proof {
        lemma_half_even_range(n as nat, d as nat);
        assert(low <= 0x100_0000) by (nonlinear_arith)
            requires
                n < 0x100_0000 * d,
                low == n / d,
                d > 0,
        ;
        assert(rest < d);
    }
    let mantissa: u32 = if 2 * rest < d || (2 * rest == d && low % 2 == 0) {
        low as u32
    } else {
        low as u32 + 1
    };
    Single { mantissa, exponent: e }
}

impl Single {
    /// The number nearest to an integer.
    pub(crate) fn from_integer(i: u64) -> (r: Single)
        ensures
            r@ == from_integer(i as nat),
            r@.wf(),
            i > 0 ==> r@.mantissa > 0,
            -23 <= r@.exponent <= 40,
    {
        proof {
            lemma_nearest_wf(i as nat, 1, 0);
            if i > 0 {
                lemma2_to64();
                lemma2_to64_rest();
                lemma_exponent_range(i as nat, 1, 0, 23, 40);
            }
        }
        nearest_single(i as u128, 1, 0)
    }

    /// The number divided by another one.
    pub(crate) fn divided(self, by: Single) -> (r: Single)
        requires
            self@.wf(),
            by@.wf(),
            by@.mantissa > 0,
            -23 <= self@.exponent <= 40,
            -23 <= by@.exponent <= 40,
        ensures
            r@ == self@.divided(by@),
            r@.wf(),
            -87 <= r@.exponent <= 63,
    {
        proof {
            let e = self@.exponent - by@.exponent;
            lemma_nearest_wf(self@.mantissa, by@.mantissa, e);
            if self@.mantissa > 0 {
                lemma2_to64();
                lemma_exponent_range(self@.mantissa, by@.mantissa, e, 24, 0);
            }
        }
        nearest_single(
            self.mantissa as u128,
            by.mantissa as u128,
            self.exponent - by.exponent,
        )
    }

    /// The number times a small integer.
    pub(crate) fn times(self, k: u8) -> (r: Single)
        requires
            self@.wf(),
            -87 <= self@.exponent <= 63,
        ensures
            r@ == self@.times(k as nat),
            r@.wf(),
            -87 <= r@.exponent <= 71,
    {
        let ghost n: nat = k as nat * self@.mantissa;
        assert(n <= 255 * 0x100_0000) by (nonlinear_arith)
            requires
                n == k as nat * self@.mantissa,
                self@.mantissa <= 0x100_0000,
                k <= 255,
        ;
        proof {
            lemma_nearest_wf(n, 1, self@.exponent);
            if n > 0 {
                lemma2_to64();
                assert(n >= 0x80_0000) by (nonlinear_arith)
                    requires
                        n == k as nat * self@.mantissa,
                        n > 0,
                        self@.mantissa == 0 || self@.mantissa >= 0x80_0000,
                ;
                lemma_exponent_range(n, 1, self@.exponent, 0, 8);
            }
        }
        nearest_single(k as u128 * self.mantissa as u128, 1, self.exponent)
    }

    /// A small integer less the number, if that is positive.
    pub(crate) fn taken_from(self, k: u8) -> (r: Option<Single>)
        requires
            self@.wf(),
            -87 <= self@.exponent <= 71,
        ensures
            match r {
                Some(s) => self@.taken_from(k as nat) == Some(s@) && s@.wf() && -110
                    <= s@.exponent <= 0,
                None => self@.taken_from(k as nat) is None,
            },
    {
        let ghost e = self@.exponent;
        proof {
            lemma_pow2_87();
            lemma_units(e);
        }
        let den: u128 = if self.exponent < 0 {
            power((-self.exponent) as u32)
        } else {
            1
        };
        let unit: u128 = if self.exponent > 0 {
            power(self.exponent as u32)
        } else {
            1
        };
        proof {
            if e < 0 {
                lemma_pow2_up_to_87((-e) as nat);
            }
            if e > 0 {
                lemma_pow2_up_to_87(e as nat);
            }
        }
        assert(self.mantissa * unit <= 0x80_0000_0000_0000_0000_0000 * 0x100_0000)
            by (nonlinear_arith)
            requires
                unit <= 0x80_0000_0000_0000_0000_0000,
                self.mantissa <= 0x100_0000,
        ;
        assert(k * den <= 255 * 0x80_0000_0000_0000_0000_0000) by (nonlinear_arith)
            requires
                den <= 0x80_0000_0000_0000_0000_0000,
                k <= 255,
        ;
        let num: u128 = self.mantissa as u128 * unit;
        let whole: u128 = k as u128 * den;
        if whole > num {
            let left: u128 = whole - num;
            proof {
                lemma_nearest_wf(left as nat, den as nat, 0);
                lemma2_to64();
                lemma_pow2_limit(110);
                lemma_pow2_adds(23, 87);
                assert(left * pow2(110) >= 0x80_0000 * den) by (nonlinear_arith)
                    requires
                        left >= 1,
                        pow2(110) == 0x80_0000 * 0x80_0000_0000_0000_0000_0000,
                        den <= 0x80_0000_0000_0000_0000_0000,
                ;
                assert(left < 0x100_0000 * den * 1) by (nonlinear_arith)
                    requires
                        left <= k * den,
                        k <= 255,
                        den > 0,
                ;
                lemma_exponent_range(left as nat, den as nat, 0, 110, 0);
            }
            Some(nearest_single(left, den, 0))
        } else {
            None
        }
    }

    /// The nearest integer, the larger one of two that are equally near.
    pub(crate) fn rounded(self) -> (r: u128)
        requires
            self@.wf(),
            -110 <= self@.exponent <= 0,
        ensures
            r == self@.rounded(),
    {
        proof {
            lemma2_to64();
            lemma_pow2_pos((-self@.exponent) as nat);
            lemma_pow2_limit((-self@.exponent) as nat);
        }
        let den: u128 = power((-self.exponent) as u32);
        assert(self@.num() == self.mantissa) by (nonlinear_arith)
            requires
                self@.num() == self.mantissa as nat * 1,
        ;
        (2 * self.mantissa as u128 + den) / (2 * den)
    }
}

proof fn lemma_pow2_87()
    ensures
        pow2(87) == 0x80_0000_0000_0000_0000_0000,
{
    lemma2_to64();
    lemma2_to64_rest();
    lemma_pow2_adds(23, 64);
}

proof fn lemma_pow2_up_to_87(k: nat)
    requires
        k <= 87,
    ensures
        0 < pow2(k) <= 0x80_0000_0000_0000_0000_0000,
{
    lemma_pow2_87();
    lemma_pow2_pos(k);
    if k < 87 {
        lemma_pow2_strictly_increases(k, 87);
    }
}

}
