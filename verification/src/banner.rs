//! Colours of the startup banner.

use crate::single::{
    down, from_integer, is_integer, law_nearest_monotone, law_operations_monotone, lemma_integer,
    lemma_nearest_exact, lemma_nearest_wf, lemma_units, nearest, up, SingleView,
};
use crate::single::Single;
use vstd::arithmetic::power2::pow2;
use vstd::prelude::*;

verus! {

/// What is left of a channel after `lost` of it faded, as a whole number: at the least zero.
pub open spec fn channel_left(top: u8, lost: SingleView) -> nat {
    match lost.taken_from(top as nat) {
        Some(left) => left.rounded(),
        None => 0,
    }
}

/// The colour channel of line `i` of `n`, fading from `top` down to `bottom`, in single precision:
/// the share of the way down, times the distance, taken from the top, and rounded to a whole
/// number. Past the last line it goes on fading, to zero at the most.
pub open spec fn faded(top: u8, bottom: u8, i: nat, n: nat) -> nat
    recommends
        bottom <= top,
{
    if n <= 1 {
        top as nat
    } else {
        let share = from_integer(i).divided(from_integer((n - 1) as nat));
        channel_left(top, share.times((top - bottom) as nat))
    }
}

fn fade(top: u8, bottom: u8, i: usize, n: usize) -> (r: u8)
    requires
        bottom <= top,
    ensures
        r == faded(top, bottom, i as nat, n as nat),
{
    if n <= 1 {
        return top;
    }
    let share = Single::from_integer(i as u64).divided(Single::from_integer((n - 1) as u64));
    let lost = share.times(top - bottom);
    proof {
        lemma_channel_bounded(top, lost@);
    }
    match lost.taken_from(top) {
        Some(left) => left.rounded() as u8,
        None => 0,
    }
}

/// Light violet (top) to deep violet (bottom): the colour of line `i` of `n`.
pub fn gradient(i: usize, n: usize) -> (r: (u8, u8, u8))
    ensures
        r.0 == faded(199, 124, i as nat, n as nat),
        r.1 == faded(146, 58, i as nat, n as nat),
        r.2 == faded(255, 237, i as nat, n as nat),
{
    (fade(199, 124, i, n), fade(146, 58, i, n), fade(255, 237, i, n))
}

/// Where nothing fades, everything is left.
proof fn lemma_nothing_lost(top: u8)
    ensures
        channel_left(top, SingleView { mantissa: 0, exponent: 0 }) == top,
{
    let zero = SingleView { mantissa: 0, exponent: 0 };
    lemma_units(0);
    assert(0 * up(0) == 0);
    assert(top as nat * zero.den() == top) by (nonlinear_arith)
        requires
            zero.den() == 1,
    ;
    if top > 0 {
        lemma_integer(top as nat, 1);
        assert(top as nat * 1 == top);
    }
}

/// No more is left than there was.
proof fn lemma_channel_bounded(top: u8, lost: SingleView)
    ensures
        channel_left(top, lost) <= top,
{
    let zero = SingleView { mantissa: 0, exponent: 0 };
    let one = SingleView { mantissa: 1, exponent: 0 };
    assert(zero.num() == 0 && 0 * lost.den() == 0);
    assert(zero.le(lost)) by (nonlinear_arith)
        requires
            zero.num() * lost.den() == 0,
            zero.le(lost) == (zero.num() * lost.den() <= lost.num() * zero.den()),
    ;
    law_operations_monotone(zero, lost, one, top as nat);
    lemma_nothing_lost(top);
    if let Some(less) = lost.taken_from(top as nat) {
        let more = zero.taken_from(top as nat)->0;
        law_operations_monotone(less, more, one, 0);
    }
}

/// The first line has the first colour and the last line the last one.
pub proof fn law_gradient_endpoints(top: u8, bottom: u8, n: nat)
    requires
        n >= 2,
        bottom <= top,
    ensures
        faded(top, bottom, 0, n) == top,
        faded(top, bottom, (n - 1) as nat, n) == bottom,
{
    let k = (top - bottom) as nat;
    let last = from_integer((n - 1) as nat);
    lemma_nearest_wf((n - 1) as nat, 1, 0);
    // The first line: nothing is lost.
    lemma_nearest_wf(0, 1, 0);
    lemma_nearest_wf(0, last.mantissa, 0 - last.exponent);
    assert(k * 0 == 0);
    lemma_nothing_lost(top);
    // The last line: its share is one.
    lemma_share_of_one(last.mantissa, k);
    let lost = last.divided(last).times(k);
    assert(lost.num() == k * lost.den());
    lemma_units(lost.exponent);
    let den = lost.den();
    assert(top as nat * den - lost.num() == bottom as nat * den) by (nonlinear_arith)
        requires
            lost.num() == k * den,
            k == top - bottom,
    ;
    if bottom > 0 {
        assert(bottom as nat * den > 0) by (nonlinear_arith)
            requires
                bottom > 0,
                den > 0,
        ;
        lemma_integer(bottom as nat, den);
    }
}

/// A number divided by itself is one, and one times a small integer is that integer.
proof fn lemma_share_of_one(m: nat, k: nat)
    requires
        m > 0,
        k <= 255,
    ensures
        ({
            let lost = nearest(m, m, 0).times(k);
            lost.num() == k * lost.den()
        }),
{
    let share = nearest(m, m, 0);
    lemma_integer(1, m);
    assert(1 * m == m);
    lemma_nearest_wf(m, m, 0);
    lemma_units(share.exponent);
    let e = share.exponent;
    assert(share.num() == share.den());
    if e > 0 {
        assert(share.mantissa * up(e) > 1) by (nonlinear_arith)
            requires
                share.mantissa >= 0x80_0000,
                up(e) >= 1,
        ;
    }
    assert(share.mantissa * 1 == share.mantissa);
    if e == 0 {
        assert(share.mantissa == 1);
    }
    let j = (-e) as nat;
    assert(share.mantissa == pow2(j));
    if k == 0 {
        assert(0 * share.mantissa == 0);
        lemma_nearest_wf(0, 1, e);
        lemma_units(0);
        assert(0 * up(0) == 0);
    } else {
        assert(k * share.mantissa == k * 1 * pow2(j)) by (nonlinear_arith)
            requires
                share.mantissa == pow2(j),
        ;
        lemma_nearest_exact(k, 1, j, e);
        let lost = share.times(k);
        assert(is_integer(lost.num(), lost.den(), k, 0));
        assert(lost.num() == k * lost.den()) by (nonlinear_arith)
            requires
                lost.num() * down(0) == k * up(0) * lost.den(),
                down(0) == 1,
                up(0) == 1,
        ;
    }
}

/// Each channel falls from line to line: no line is brighter than one above it.
pub proof fn law_gradient_falls(top: u8, bottom: u8, i: nat, j: nat, n: nat)
    requires
        bottom <= top,
        i <= j,
    ensures
        faded(top, bottom, j, n) <= faded(top, bottom, i, n) <= top,
{
    if n > 1 {
        let k = (top - bottom) as nat;
        let last = from_integer((n - 1) as nat);
        lemma_nearest_wf((n - 1) as nat, 1, 0);
        let (x, y) = (from_integer(i), from_integer(j));
        lemma_units(0);
        assert((i * up(0)) * (1 * down(0)) <= (j * up(0)) * (1 * down(0))) by (nonlinear_arith)
            requires
                i <= j,
                up(0) == 1,
                down(0) == 1,
        ;
        law_nearest_monotone(i, 1, 0, j, 1, 0);
        law_operations_monotone(x, y, last, 0);
        let (s, t) = (x.divided(last), y.divided(last));
        law_operations_monotone(s, t, last, k);
        let (p, q) = (s.times(k), t.times(k));
        law_operations_monotone(p, q, last, top as nat);
        lemma_channel_bounded(top, p);
        if let Some(less) = q.taken_from(top as nat) {
            law_operations_monotone(less, p.taken_from(top as nat)->0, last, 0);
        }
    }
}

}
