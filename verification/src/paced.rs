//! Paths that rounding cannot disturb: those that stand still, and those that
//! move a whole texel a step.

use vstd::prelude::*;

use crate::binary32::{self, SIG_HI, SIG_LO};
use crate::drift;

verus! {

/// As far out as a path that moves a whole texel a step is known to stay true.
pub const FAR_OUT: u32 = 0x40_0000;

/// Below two to the 24th, rounding moves a value by half of one at most.
proof fn lemma_nearest_half(n: nat, d: nat)
    requires
        0 < n < d * SIG_HI,
        d > 0,
    ensures
        -(d * binary32::nearest(n, d).1) <= 2 * (binary32::nearest(n, d).0 * d - n
            * binary32::nearest(n, d).1) <= d * binary32::nearest(n, d).1,
    decreases
        (if n < d * SIG_LO {
            (d * SIG_LO - n) as nat
        } else {
            0nat
        }),
{
    if n < d * SIG_LO {
        let p = binary32::nearest(2 * n, d);
        lemma_nearest_half(2 * n, d);
        binary32::lemma_nearest(2 * n, d);
        let a = p.0 * d;
        let b = d * p.1;
        assert((2 * n) * p.1 == n * (2 * p.1)) by (nonlinear_arith);
        assert(d * (2 * p.1) == 2 * b) by (nonlinear_arith)
            requires
                b == d * p.1,
        ;
        assert(b >= 0) by (nonlinear_arith)
            requires
                b == d * p.1,
        ;
    } else {
        let q = n / d;
        let m = n % d;
        vstd::arithmetic::div_mod::lemma_fundamental_div_mod(n as int, d as int);
        assert(d * q == q * d) by (nonlinear_arith);
        assert((q + 1) * d == q * d + d) by (nonlinear_arith);
        assert(n * 1 == n && d * 1 == d);
    }
}

/// Below two to the 22nd, by an eighth of one at most.
proof fn lemma_nearest_eighth(n: nat, d: nat)
    requires
        0 < n < d * FAR_OUT,
        d > 0,
    ensures
        binary32::nearest(n, d).1 > 0,
        -(d * binary32::nearest(n, d).1) <= 8 * (binary32::nearest(n, d).0 * d - n
            * binary32::nearest(n, d).1) <= d * binary32::nearest(n, d).1,
{
    binary32::lemma_nearest(n, d);
    assert(d * FAR_OUT < d * SIG_LO && 2 * (d * FAR_OUT) == d * SIG_LO && 4 * (d * FAR_OUT) == d
        * SIG_HI);
    let p = binary32::nearest(4 * n, d);
    assert(2 * (2 * n) == 4 * n);
    assert(binary32::nearest(2 * n, d) == (p.0, 2 * p.1));
    assert(binary32::nearest(n, d) == (p.0, 2 * (2 * p.1)));
    lemma_nearest_half(4 * n, d);
    let b = d * p.1;
    assert((4 * n) * p.1 == n * (2 * (2 * p.1))) by (nonlinear_arith);
    assert(d * (2 * (2 * p.1)) == 4 * b) by (nonlinear_arith)
        requires
            b == d * p.1,
    ;
}

/// The same with a sign.
proof fn lemma_signed_eighth(n: int, d: nat)
    requires
        -(d * FAR_OUT) < n < d * FAR_OUT,
        d > 0,
    ensures
        binary32::nearest_signed(n, d).1 > 0,
        -(d * binary32::nearest_signed(n, d).1) <= 8 * (binary32::nearest_signed(n, d).0 * d - n
            * binary32::nearest_signed(n, d).1) <= d * binary32::nearest_signed(n, d).1,
{
    let m = binary32::magnitude(n);
    let q = binary32::nearest(m, d);
    let r = binary32::nearest_signed(n, d);
    if n == 0 {
        assert(r == (0int, 1nat));
        assert(0 * d == 0 && 0 * 1 == 0 && d * 1 == d);
    } else {
        lemma_nearest_eighth(m, d);
        if n < 0 {
            assert((-(q.0 as int)) * d == -(q.0 * d)) by (nonlinear_arith);
            assert(n * q.1 == -(m * q.1)) by (nonlinear_arith)
                requires
                    n == -m,
            ;
        }
    }
}

/// A common factor of numerator and denominator drops out of an error.
proof fn lemma_cancel(e: int, b: int, c: int)
    requires
        -(b * c) <= e * c <= b * c,
        c > 0,
    ensures
        -b <= e <= b,
{
    assert(-b <= e <= b) by (nonlinear_arith)
        requires
            -(b * c) <= e * c <= b * c,
            c > 0,
    ;
}

/// How far the distance gone is from a whole number of texels.
proof fn lemma_gone_whole(to_go: int, s: nat, steps: nat)
    requires
        0 < s < steps <= FAR_OUT,
        to_go == steps || to_go == -(steps as int),
    ensures
        binary32::gone(to_go, s, steps).1 > 0,
        ({
            let p = binary32::gone(to_go, s, steps);
            let want = if to_go > 0 {
                s as int
            } else {
                -(s as int)
            };
            -((0x20_0000 + s) * p.1) <= (p.0 - want * p.1) * SIG_HI <= (0x20_0000 + s) * p.1
        }),
{
    let p = binary32::gone(to_go, s, steps);
    let a = binary32::nearest_signed(to_go, 1);
    let t = binary32::share(s, steps);
    drift::lemma_signed_exact(to_go, 1);
    assert(to_go * 1 == to_go);
    drift::lemma_share_error(s, steps);
    let want = if to_go > 0 {
        s as int
    } else {
        -(s as int)
    };
    let n = a.0 * t.0;
    let d = a.1 * t.1;
    assert(d > 0) by (nonlinear_arith)
        requires
            d == a.1 * t.1,
            a.1 > 0,
            t.1 > 0,
    ;
    // The product, before it is rounded, without the factor a.1.
    let g = to_go * t.0;
    assert(n == g * a.1) by (nonlinear_arith)
        requires
            n == a.0 * t.0,
            a.0 == to_go * a.1,
            g == to_go * t.0,
    ;
    let e1 = g - want * t.1;
    let f1 = t.0 * steps - s * t.1;
    assert(e1 == f1 || e1 == -f1) by (nonlinear_arith)
        requires
            e1 == g - want * t.1,
            g == to_go * t.0,
            f1 == t.0 * steps - s * t.1,
            to_go == steps && want == s || to_go == -(steps as int) && want == -(s as int),
    ;
    let m1 = s * t.1;
    assert(-m1 <= e1 * SIG_HI <= m1);
    // It is less than two to the 22nd.
    let top = FAR_OUT * t.1;
    assert(m1 + t.1 <= top) by (nonlinear_arith)
        requires
            m1 == s * t.1,
            top == 0x40_0000 * t.1,
            s + 1 <= 0x40_0000,
            t.1 > 0,
    ;
    assert(want * t.1 == m1 || want * t.1 == -m1) by (nonlinear_arith)
        requires
            m1 == s * t.1,
            want == s || want == -(s as int),
    ;
    assert(4 * m1 <= SIG_HI * t.1) by (nonlinear_arith)
        requires
            m1 + t.1 <= 0x40_0000 * t.1,
            t.1 > 0,
            SIG_HI == 0x100_0000,
    ;
    assert(-t.1 < e1 < t.1) by (nonlinear_arith)
        requires
            -m1 <= e1 * SIG_HI <= m1,
            4 * m1 <= SIG_HI * t.1,
            SIG_HI == 0x100_0000,
            t.1 > 0,
    ;
    assert(-top < g < top);
    assert(-(d * FAR_OUT) < n < d * FAR_OUT) by (nonlinear_arith)
        requires
            n == g * a.1,
            d == a.1 * t.1,
            top == FAR_OUT * t.1,
            -top < g < top,
            a.1 > 0,
    {
        assert(d * FAR_OUT == top * a.1);
        assert(-(top * a.1) < g * a.1);
        assert(g * a.1 < top * a.1);
    }
    lemma_signed_eighth(n, d);
    assert(p == binary32::nearest_signed(n, d));
    let e2 = p.0 * t.1 - g * p.1;
    let b2 = t.1 * p.1;
    assert(8 * (p.0 * d - n * p.1) == (8 * e2) * a.1 && d * p.1 == b2 * a.1) by (nonlinear_arith)
        requires
            n == g * a.1,
            d == a.1 * t.1,
            e2 == p.0 * t.1 - g * p.1,
            b2 == t.1 * p.1,
    {
        assert(p.0 * d == (p.0 * t.1) * a.1);
        assert(n * p.1 == (g * p.1) * a.1);
    }
    lemma_cancel(8 * e2, b2 as int, a.1 as int);
    // Together, over t.1.
    let e = p.0 - want * p.1;
    assert(e * t.1 == e2 + e1 * p.1) by (nonlinear_arith)
        requires
            e == p.0 - want * p.1,
            e2 == p.0 * t.1 - g * p.1,
            e1 == g - want * t.1,
    ;
    assert(-(m1 * p.1) <= (e1 * p.1) * SIG_HI <= m1 * p.1) by (nonlinear_arith)
        requires
            -m1 <= e1 * SIG_HI <= m1,
            p.1 > 0,
    {
        assert((e1 * p.1) * SIG_HI == (e1 * SIG_HI) * p.1);
    }
    assert(m1 * p.1 == s * b2) by (nonlinear_arith)
        requires
            m1 == s * t.1,
            b2 == t.1 * p.1,
    ;
    let b = (0x20_0000 + s) * p.1;
    assert(b * t.1 == 0x20_0000 * b2 + s * b2) by (nonlinear_arith)
        requires
            b == (0x20_0000 + s) * p.1,
            b2 == t.1 * p.1,
    ;
    assert((e * SIG_HI) * t.1 == (e * t.1) * SIG_HI) by (nonlinear_arith);
    assert((e * t.1) * SIG_HI == e2 * SIG_HI + (e1 * p.1) * SIG_HI) by (nonlinear_arith)
        requires
            e * t.1 == e2 + e1 * p.1,
    ;
    lemma_cancel(e * SIG_HI, b as int, t.1 as int);
}

/// A path that moves a whole texel a step is where it should be after every
/// one.
pub proof fn law_whole_steps_are_exact(from: int, to: int, s: nat, steps: nat)
    requires
        s <= steps <= FAR_OUT,
        steps > 0,
        to - from == steps || from - to == steps,
        -FAR_OUT <= from <= FAR_OUT,
        -FAR_OUT <= to <= FAR_OUT,
    ensures
        binary32::along(from, to, s, steps) == (if to > from {
            from + s
        } else {
            from - s
        }),
{
    if s == 0 || s == steps {
        drift::law_along_ends(from, to, steps);
        return;
    }
    let g = to - from;
    let want = if to > from {
        from + s
    } else {
        from - s
    };
    let x = binary32::nearest_signed(from, 1);
    let p = binary32::gone(g, s, steps);
    drift::lemma_signed_exact(from, 1);
    assert(from * 1 == from);
    lemma_gone_whole(g, s, steps);
    let n = x.0 * p.1 + p.0 * x.1;
    let d = x.1 * p.1;
    assert(d > 0) by (nonlinear_arith)
        requires
            d == x.1 * p.1,
            x.1 > 0,
            p.1 > 0,
    ;
    let v = from * p.1 + p.0;
    assert(n == v * x.1) by (nonlinear_arith)
        requires
            n == x.0 * p.1 + p.0 * x.1,
            x.0 == from * x.1,
            v == from * p.1 + p.0,
    ;
    let e1 = v - want * p.1;
    let way = want - from;
    assert(e1 == p.0 - way * p.1) by (nonlinear_arith)
        requires
            e1 == v - want * p.1,
            v == from * p.1 + p.0,
            way == want - from,
    ;
    let b1 = (0x20_0000 + s) * p.1;
    assert(2 * b1 < SIG_HI * p.1) by (nonlinear_arith)
        requires
            b1 == (0x20_0000 + s) * p.1,
            s < 0x40_0000,
            SIG_HI == 0x100_0000,
            p.1 > 0,
    ;
    assert(-p.1 < 2 * e1 < p.1) by (nonlinear_arith)
        requires
            -b1 <= e1 * SIG_HI <= b1,
            2 * b1 < SIG_HI * p.1,
            SIG_HI == 0x100_0000,
    ;
    let top = FAR_OUT * p.1;
    assert(-top + p.1 <= want * p.1 <= top - p.1) by (nonlinear_arith)
        requires
            top == 0x40_0000 * p.1,
            -0x40_0000 + 1 <= want <= 0x40_0000 - 1,
            p.1 > 0,
    ;
    assert(-top < v < top);
    assert(-(d * FAR_OUT) < n < d * FAR_OUT) by (nonlinear_arith)
        requires
            n == v * x.1,
            d == x.1 * p.1,
            top == FAR_OUT * p.1,
            -top < v < top,
            x.1 > 0,
    {
        assert(d * FAR_OUT == top * x.1);
        assert(-(top * x.1) < v * x.1);
        assert(v * x.1 < top * x.1);
    }
    lemma_signed_eighth(n, d);
    let sum = binary32::along_sum(from, to, s, steps);
    assert(sum == binary32::nearest_signed(n, d));
    let e2 = sum.0 * p.1 - v * sum.1;
    let b2 = p.1 * sum.1;
    assert(8 * (sum.0 * d - n * sum.1) == (8 * e2) * x.1 && d * sum.1 == b2 * x.1)
        by (nonlinear_arith)
        requires
            n == v * x.1,
            d == x.1 * p.1,
            e2 == sum.0 * p.1 - v * sum.1,
            b2 == p.1 * sum.1,
    {
        assert(sum.0 * d == (sum.0 * p.1) * x.1);
        assert(n * sum.1 == (v * sum.1) * x.1);
    }
    lemma_cancel(8 * e2, b2 as int, x.1 as int);
    let e = sum.0 - want * sum.1;
    assert(e * p.1 == e2 + e1 * sum.1) by (nonlinear_arith)
        requires
            e == sum.0 - want * sum.1,
            e2 == sum.0 * p.1 - v * sum.1,
            e1 == v - want * p.1,
    ;
    assert(-(b1 * sum.1) <= (e1 * sum.1) * SIG_HI <= b1 * sum.1) by (nonlinear_arith)
        requires
            -b1 <= e1 * SIG_HI <= b1,
            sum.1 > 0,
    {
        assert((e1 * sum.1) * SIG_HI == (e1 * SIG_HI) * sum.1);
    }
    let k = 0x40_0000 + s;
    assert(b1 * sum.1 == (0x20_0000 + s) * b2) by (nonlinear_arith)
        requires
            b1 == (0x20_0000 + s) * p.1,
            b2 == p.1 * sum.1,
    ;
    let b = k * sum.1;
    assert(b * p.1 == 0x20_0000 * b2 + (0x20_0000 + s) * b2) by (nonlinear_arith)
        requires
            b == k * sum.1,
            k == 0x40_0000 + s,
            b2 == p.1 * sum.1,
    ;
    assert((e * SIG_HI) * p.1 == e2 * SIG_HI + (e1 * sum.1) * SIG_HI) by (nonlinear_arith)
        requires
            e * p.1 == e2 + e1 * sum.1,
    ;
    lemma_cancel(e * SIG_HI, b as int, p.1 as int);
    // Less than half a texel off, and so none once it is rounded.
    assert(-sum.1 < 2 * e < sum.1) by (nonlinear_arith)
        requires
            -b <= e * SIG_HI <= b,
            b == k * sum.1,
            k < 0x80_0000,
            SIG_HI == 0x100_0000,
            sum.1 > 0,
    ;
    drift::lemma_half_away(sum.0, sum.1);
    let r = binary32::along(from, to, s, steps);
    assert(r * sum.1 - want * sum.1 == (r - want) * sum.1) by (nonlinear_arith);
    assert(r == want) by (nonlinear_arith)
        requires
            -sum.1 < (r - want) * sum.1 < sum.1,
            sum.1 > 0,
    ;
}

/// A path that stands still does.
pub proof fn law_standing_still_is_exact(at: int, s: nat, steps: nat)
    requires
        -SIG_HI <= at <= SIG_HI,
    ensures
        binary32::along(at, at, s, steps) == at,
{
    let x = binary32::nearest_signed(at, 1);
    let t = binary32::share(s, steps);
    drift::lemma_signed_exact(at, 1);
    assert(at * 1 == at);
    assert(binary32::nearest_signed(0, 1) == (0int, 1nat));
    assert(0 * t.0 == 0);
    assert(binary32::gone(0, s, steps) == (0int, 1nat));
    assert(x.0 * 1 + 0 * x.1 == at * x.1);
    assert(x.1 * 1 == x.1);
    drift::lemma_signed_exact(at, x.1);
    drift::lemma_half_away_exact(at, binary32::nearest_signed(at * x.1, x.1).1);
}

/// Does a coordinate stand still, or move a whole texel a step?
pub open spec fn paced(from: int, to: int, steps: nat) -> bool {
    &&& -FAR_OUT <= from <= FAR_OUT
    &&& -FAR_OUT <= to <= FAR_OUT
    &&& to == from || ((to - from == steps || from - to == steps) && steps <= FAR_OUT)
}

/// Is rounding known to leave a path without gaps?
pub open spec fn gapless(from: int, to: int, steps: nat) -> bool {
    drift::steady(from, to, steps) || paced(from, to, steps)
}

/// A path that is steady or paced leaves no gaps: each point is the one before
/// it, or next to it. It stays among numbers that single precision holds
/// exactly, and begins and ends where it should.
pub proof fn law_gapless_paths(from: int, to: int, s: nat, steps: nat)
    requires
        s < steps <= SIG_HI,
        -(steps as int) <= to - from <= steps,
        gapless(from, to, steps),
    ensures
        -1 <= binary32::along(from, to, s + 1, steps) - binary32::along(from, to, s, steps) <= 1,
        -SIG_HI <= binary32::along(from, to, s, steps) <= SIG_HI,
        -SIG_HI <= binary32::along(from, to, s + 1, steps) <= SIG_HI,
        binary32::along(from, to, 0, steps) == from,
        binary32::along(from, to, steps, steps) == to,
{
    if drift::steady(from, to, steps) {
        drift::lemma_steady(from, to, steps);
        drift::law_along_leaves_no_gaps(from, to, s, steps);
        drift::lemma_along_bounded(from, to, s, steps);
        drift::lemma_along_bounded(from, to, s + 1, steps);
        drift::law_along_ends(from, to, steps);
    } else if to == from {
        law_standing_still_is_exact(from, s, steps);
        law_standing_still_is_exact(from, s + 1, steps);
        law_standing_still_is_exact(from, 0, steps);
        law_standing_still_is_exact(from, steps, steps);
    } else {
        law_whole_steps_are_exact(from, to, s, steps);
        law_whole_steps_are_exact(from, to, s + 1, steps);
        law_whole_steps_are_exact(from, to, 0, steps);
        law_whole_steps_are_exact(from, to, steps, steps);
    }
}

} // verus!
