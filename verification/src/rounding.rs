//! What single-precision rounding is, by what it does: it takes the nearest
//! value there is, the even one of two, alike at every scale.

use vstd::prelude::*;

use crate::binary32::{self, SIG_HI, SIG_LO};
use crate::drift;

verus! {

/// A fraction with twice the numerator and twice the denominator rounds to the
/// same.
proof fn lemma_same_fraction(n: nat, d: nat)
    requires
        n > 0,
        d > 0,
    ensures
        binary32::nearest(2 * n, 2 * d) == binary32::nearest(n, d),
    decreases
        (if n < d * SIG_LO {
            (d * SIG_LO - n) as nat
        } else if n >= d * SIG_HI {
            (n - d * SIG_HI + 1) as nat
        } else {
            0nat
        }),
{
    assert((2 * d) * SIG_LO == 2 * (d * SIG_LO) && (2 * d) * SIG_HI == 2 * (d * SIG_HI));
    if n < d * SIG_LO {
        lemma_same_fraction(2 * n, d);
    } else if n >= d * SIG_HI {
        lemma_same_fraction(n, 2 * d);
    } else {
        let q = n / d;
        let r = n % d;
        vstd::arithmetic::div_mod::lemma_fundamental_div_mod(n as int, d as int);
        assert(2 * n == q * (2 * d) + 2 * r) by (nonlinear_arith)
            requires
                n == d * q + r,
        ;
        vstd::arithmetic::div_mod::lemma_fundamental_div_mod_converse(
            (2 * n) as int,
            (2 * d) as int,
            q as int,
            (2 * r) as int,
        );
    }
}

/// Twice a number rounds to twice what it rounds to: rounding is alike at every
/// scale.
pub proof fn law_doubling_rounds_alike(n: nat, d: nat)
    requires
        n > 0,
        d > 0,
    ensures
        binary32::nearest(2 * n, d).0 * binary32::nearest(n, d).1 == 2 * binary32::nearest(n, d).0
            * binary32::nearest(2 * n, d).1,
{
    let a = binary32::nearest(n, d);
    let b = binary32::nearest(2 * n, d);
    if n < d * SIG_LO {
        assert(a.0 == b.0 && a.1 == 2 * b.1);
        assert(b.0 * (2 * b.1) == 2 * b.0 * b.1) by (nonlinear_arith);
    } else {
        assert(2 * n >= d * SIG_HI);
        lemma_same_fraction(n, d);
        assert(b.0 == 2 * a.0 && b.1 == a.1);
    }
}

/// Where a significand of 24 bits has nothing to spare, rounding takes the
/// nearest whole number, and of two that are equally near the even one.
pub proof fn law_rounding_takes_the_nearest_even(n: nat, d: nat)
    requires
        d > 0,
        d * 0x80_0000 <= n < d * 0x100_0000,
    ensures
        binary32::nearest(n, d).1 == 1,
        -(d as int) <= 2 * (binary32::nearest(n, d).0 * d - n) <= d,
        2 * (binary32::nearest(n, d).0 * d - n) == d || 2 * (binary32::nearest(n, d).0 * d - n)
            == -(d as int) ==> binary32::nearest(n, d).0 % 2 == 0,
{
    let q = n / d;
    let r = n % d;
    vstd::arithmetic::div_mod::lemma_fundamental_div_mod(n as int, d as int);
    assert(d * q == q * d) by (nonlinear_arith);
    assert((q + 1) * d == q * d + d) by (nonlinear_arith);
    assert(n > 0) by (nonlinear_arith)
        requires
            d * 0x80_0000 <= n,
            d > 0,
    ;
    assert((q + q % 2) * d == q * d + (q % 2) * d) by (nonlinear_arith);
    assert(q % 2 == 0 || q % 2 == 1);
    assert(0 * d == 0 && 1 * d == d);
}

/// Rounding to a whole number takes the nearest one, and of two that are
/// equally near the one further from nothing.
pub proof fn law_halves_go_away_from_nothing(n: int, d: nat)
    requires
        d > 0,
    ensures
        n >= 0 ==> -(d as int) < 2 * (binary32::half_away(n, d) * d - n) <= d,
        n < 0 ==> -(d as int) <= 2 * (binary32::half_away(n, d) * d - n) < d,
        n >= 0 ==> binary32::half_up(n as nat, d) == binary32::half_away(n, d),
{
    let m = binary32::magnitude(n);
    let h = binary32::half_up(m, d);
    vstd::arithmetic::div_mod::lemma_fundamental_div_mod((2 * m + d) as int, (2 * d) as int);
    assert((2 * d) * h == 2 * (h * d)) by (nonlinear_arith);
    assert((-h) * d == -(h * d)) by (nonlinear_arith);
}

/// Half of a whole number of 24 bits is held exactly.
proof fn lemma_halves_are_exact(m: nat, c: nat)
    requires
        0 < m <= SIG_HI,
        c > 0,
    ensures
        binary32::nearest(m * c, 2 * c).1 > 0,
        2 * binary32::nearest(m * c, 2 * c).0 == m * binary32::nearest(m * c, 2 * c).1,
{
    let n = m * c;
    assert(n > 0) by (nonlinear_arith)
        requires
            n == m * c,
            m > 0,
            c > 0,
    ;
    assert(2 * n == m * (2 * c)) by (nonlinear_arith)
        requires
            n == m * c,
    ;
    let x = binary32::nearest(n, 2 * c);
    let r = binary32::nearest(2 * n, 2 * c);
    binary32::lemma_nearest(n, 2 * c);
    binary32::lemma_nearest(2 * n, 2 * c);
    binary32::lemma_nearest_exact(m, 2 * c);
    law_doubling_rounds_alike(n, 2 * c);
    let k = m * x.1;
    assert(k == 2 * x.0) by (nonlinear_arith)
        requires
            r.0 * x.1 == 2 * x.0 * r.1,
            r.0 == m * r.1,
            r.1 > 0,
            k == m * x.1,
    {
        assert((m * r.1) * x.1 == k * r.1);
        assert(2 * x.0 * r.1 == (2 * x.0) * r.1);
    }
}

proof fn lemma_signed_halves(m: int, c: nat)
    requires
        -SIG_HI <= m <= SIG_HI,
        c > 0,
    ensures
        binary32::nearest_signed(m * c, 2 * c).1 > 0,
        2 * binary32::nearest_signed(m * c, 2 * c).0 == m * binary32::nearest_signed(
            m * c,
            2 * c,
        ).1,
{
    let a = binary32::magnitude(m);
    let x = binary32::nearest(a * c, 2 * c);
    if m == 0 {
        assert(0 * c == 0);
    } else {
        lemma_halves_are_exact(a, c);
        assert(binary32::magnitude(m * c) == a * c && (m * c < 0 <==> m < 0)) by (nonlinear_arith)
            requires
                a == (if m < 0 {
                    -m
                } else {
                    m
                }),
                binary32::magnitude(m * c) == (if m * c < 0 {
                    -(m * c)
                } else {
                    m * c
                }),
                m != 0,
                c > 0,
        ;
        if m < 0 {
            assert(m * x.1 == -(a * x.1)) by (nonlinear_arith)
                requires
                    m == -a,
            ;
        }
    }
}

/// One over two, however it is written.
proof fn lemma_one_half(n: nat)
    requires
        n > 0,
    ensures
        binary32::nearest(n, 2 * n).1 == 2 * binary32::nearest(n, 2 * n).0,
        binary32::nearest(n, 2 * n).0 > 0,
{
    lemma_halves_are_exact(1, n);
    binary32::lemma_nearest(n, 2 * n);
    assert(1 * n == n);
}

/// Scaled to half its size, a side comes out at half, and half a texel over
/// makes it a whole one.
pub proof fn law_halving_rounds_up(side: nat, max: nat)
    requires
        0 < max <= 0x80_0000,
        side <= 2 * max,
    ensures
        binary32::scaled(side, 2 * max, max) == (side + 1) / 2,
{
    let m = binary32::nearest(max, 1);
    let l = binary32::nearest(2 * max, 1);
    binary32::lemma_nearest(max, 1);
    binary32::lemma_nearest(2 * max, 1);
    binary32::lemma_nearest_exact(max, 1);
    binary32::lemma_nearest_exact(2 * max, 1);
    let c = max * (m.1 * l.1);
    let kn = m.0 * l.1;
    let kd = m.1 * l.0;
    assert(kn == c && kd == 2 * c) by (nonlinear_arith)
        requires
            kn == m.0 * l.1,
            kd == m.1 * l.0,
            m.0 == max * m.1,
            l.0 == (2 * max) * l.1,
            c == max * (m.1 * l.1),
    ;
    assert(c > 0) by (nonlinear_arith)
        requires
            c == max * (m.1 * l.1),
            max > 0,
            m.1 > 0,
            l.1 > 0,
    ;
    lemma_one_half(c);
    let k = binary32::nearest(kn, kd);
    let s = binary32::nearest(side, 1);
    let pn = s.0 * k.0;
    let pd = s.1 * k.1;
    let p = binary32::nearest(pn, pd);
    if side == 0 {
        assert(s == (0nat, 1nat));
        assert(0 * k.0 == 0);
        assert(p == (0nat, 1nat));
        assert(binary32::half_up(0, 1) == 0) by (nonlinear_arith);
    } else {
        binary32::lemma_nearest(side, 1);
        binary32::lemma_nearest_exact(side, 1);
        let e = s.1 * k.0;
        assert(pn == side * e && pd == 2 * e) by (nonlinear_arith)
            requires
                pn == s.0 * k.0,
                pd == s.1 * k.1,
                s.0 == side * s.1,
                k.1 == 2 * k.0,
                e == s.1 * k.0,
        ;
        assert(e > 0) by (nonlinear_arith)
            requires
                e == s.1 * k.0,
                s.1 > 0,
                k.0 > 0,
        ;
        lemma_halves_are_exact(side, e);
        let h = binary32::half_up(p.0, p.1);
        law_halves_go_away_from_nothing(p.0 as int, p.1);
        lemma_half_of(h as int, p.0 as int, p.1, side as int);
    }
}

/// The whole number that half of `m` rounds to, upwards.
proof fn lemma_half_of(h: int, a: int, b: nat, m: int)
    requires
        b > 0,
        2 * a == m * b,
        -(b as int) < 2 * (h * b - a) <= b,
        m >= 0,
    ensures
        h == (m + 1) / 2,
{
    assert(2 * (h * b - a) == (2 * h - m) * b) by (nonlinear_arith)
        requires
            2 * a == m * b,
    ;
    assert(-1 < 2 * h - m <= 1) by (nonlinear_arith)
        requires
            -(b as int) < (2 * h - m) * b <= b,
            b > 0,
    ;
}

/// Half way along a path is the middle of its ends, and half a texel over goes
/// away from nothing.
pub proof fn law_half_way_is_the_middle(from: int, to: int, s: nat)
    requires
        0 < s <= 0x40_0000,
        -0x40_0000 <= from <= 0x40_0000,
        -0x40_0000 <= to <= 0x40_0000,
    ensures
        from + to >= 0 ==> binary32::along(from, to, s, 2 * s) == (from + to + 1) / 2,
        from + to < 0 ==> binary32::along(from, to, s, 2 * s) == -((1 - from - to) / 2),
{
    let a = binary32::nearest(s, 1);
    let b = binary32::nearest(2 * s, 1);
    binary32::lemma_nearest(s, 1);
    binary32::lemma_nearest(2 * s, 1);
    binary32::lemma_nearest_exact(s, 1);
    binary32::lemma_nearest_exact(2 * s, 1);
    let c = s * (a.1 * b.1);
    assert(a.0 * b.1 == c && a.1 * b.0 == 2 * c) by (nonlinear_arith)
        requires
            a.0 == s * a.1,
            b.0 == (2 * s) * b.1,
            c == s * (a.1 * b.1),
    ;
    assert(c > 0) by (nonlinear_arith)
        requires
            c == s * (a.1 * b.1),
            s > 0,
            a.1 > 0,
            b.1 > 0,
    ;
    lemma_one_half(c);
    let t = binary32::share(s, 2 * s);
    assert(t.1 == 2 * t.0 && t.0 > 0);
    let g = to - from;
    let d = binary32::nearest_signed(g, 1);
    drift::lemma_signed_exact(g, 1);
    assert(g * 1 == g);
    let e = d.1 * t.0;
    assert(d.0 * t.0 == g * e && d.1 * t.1 == 2 * e) by (nonlinear_arith)
        requires
            d.0 == g * d.1,
            t.1 == 2 * t.0,
            e == d.1 * t.0,
    ;
    assert(e > 0) by (nonlinear_arith)
        requires
            e == d.1 * t.0,
            d.1 > 0,
            t.0 > 0,
    ;
    lemma_signed_halves(g, e);
    let p = binary32::gone(g, s, 2 * s);
    assert(2 * p.0 == g * p.1);
    let x = binary32::nearest_signed(from, 1);
    drift::lemma_signed_exact(from, 1);
    assert(from * 1 == from);
    // The sum, over twice the product of the denominators.
    let n = x.0 * p.1 + p.0 * x.1;
    let den = x.1 * p.1;
    let m = from + to;
    assert(2 * n == m * den) by (nonlinear_arith)
        requires
            n == x.0 * p.1 + p.0 * x.1,
            den == x.1 * p.1,
            x.0 == from * x.1,
            2 * p.0 == g * p.1,
            g == to - from,
            m == from + to,
    {
        assert(2 * (x.0 * p.1) == 2 * from * den);
        assert(2 * (p.0 * x.1) == g * den);
        assert(2 * from * den + g * den == m * den);
    }
    assert(den > 0) by (nonlinear_arith)
        requires
            den == x.1 * p.1,
            x.1 > 0,
            p.1 > 0,
    ;
    // Twice over, so that the halves show.
    lemma_signed_halves(m, den);
    lemma_signed_same_fraction(n, den);
    assert(2 * n == m * den);
    let sum = binary32::along_sum(from, to, s, 2 * s);
    assert(2 * sum.0 == m * sum.1);
    law_halves_go_away_from_nothing(sum.0, sum.1);
    let h = binary32::half_away(sum.0, sum.1);
    if m >= 0 {
        assert(sum.0 >= 0) by (nonlinear_arith)
            requires
                2 * sum.0 == m * sum.1,
                m >= 0,
                sum.1 > 0,
        ;
        lemma_half_of(h, sum.0, sum.1, m);
    } else {
        assert(sum.0 < 0) by (nonlinear_arith)
            requires
                2 * sum.0 == m * sum.1,
                m < 0,
                sum.1 > 0,
        ;
        assert((-h) * sum.1 - (-sum.0) == -(h * sum.1 - sum.0)) by (nonlinear_arith);
        assert((-m) * sum.1 == -(m * sum.1)) by (nonlinear_arith);
        lemma_half_of(-h, -sum.0, sum.1, -m);
    }
}

proof fn lemma_signed_same_fraction(n: int, d: nat)
    requires
        d > 0,
    ensures
        binary32::nearest_signed(2 * n, 2 * d) == binary32::nearest_signed(n, d),
{
    let m = binary32::magnitude(n);
    assert(binary32::magnitude(2 * n) == 2 * m);
    if m > 0 {
        lemma_same_fraction(m, d);
    }
}

/// Scaling keeps the proportions: each side comes out within half a texel of
/// its exact share, give or take what single precision loses, which is five
/// parts in two to the 24th.
pub proof fn law_scaling_keeps_proportions(side: nat, longest: nat, max: nat)
    requires
        0 < max <= 0x10_0000,
        max <= longest <= u32::MAX,
        side <= longest,
    ensures
        ({
            let off = binary32::scaled(side, longest, max) * longest - side * max;
            &&& 2 * off * 0x100_0000 <= longest * 0x100_0000 + 10 * (side * max)
            &&& 2 * off * 0x100_0000 >= -(longest * 0x100_0000 + 10 * (side * max))
        }),
{
    let u: int = 0x100_0000;
    let h = binary32::scaled(side, longest, max);
    if side == 0 {
        drift::law_scaled_fits(side, longest, max);
        assert(h == 0);
        assert(0 * longest == 0 && 0 * max == 0);
        return;
    }
    let m = binary32::nearest(max, 1);
    let l = binary32::nearest(longest, 1);
    let k = binary32::nearest(m.0 * l.1, m.1 * l.0);
    let s = binary32::nearest(side, 1);
    let p = binary32::nearest(s.0 * k.0, s.1 * k.1);
    binary32::lemma_nearest(max, 1);
    binary32::lemma_nearest(longest, 1);
    binary32::lemma_nearest_exact(max, 1);
    binary32::lemma_nearest(side, 1);
    let kn = m.0 * l.1;
    let kd = m.1 * l.0;
    assert(kn > 0 && kd > 0) by (nonlinear_arith)
        requires
            kn == m.0 * l.1,
            kd == m.1 * l.0,
            m.0 > 0,
            m.1 > 0,
            l.0 > 0,
            l.1 > 0,
    ;
    binary32::lemma_nearest(kn, kd);
    let pn = s.0 * k.0;
    let pd = s.1 * k.1;
    assert(pn > 0 && pd > 0) by (nonlinear_arith)
        requires
            pn == s.0 * k.0,
            pd == s.1 * k.1,
            s.0 > 0,
            s.1 > 0,
            k.0 > 0,
            k.1 > 0,
    ;
    binary32::lemma_nearest(pn, pd);
    let c = max * l.1 * k.1;
    assert(-c <= (k.0 * l.0 - c) * u <= c) by (nonlinear_arith)
        requires
            -(kn * k.1) <= (k.0 * kd - kn * k.1) * u <= kn * k.1,
            kn == m.0 * l.1,
            kd == m.1 * l.0,
            m.0 == max * m.1,
            m.1 > 0,
            c == max * l.1 * k.1,
    {
        let e = k.0 * l.0 - c;
        assert(kn * k.1 == c * m.1);
        assert(k.0 * kd == (k.0 * l.0) * m.1);
        assert(k.0 * kd - kn * k.1 == e * m.1);
        assert((e * m.1) * u == (e * u) * m.1);
    }
    let a = p.0 * longest;
    let b = side * p.1 * max;
    lemma_chain_up(p, s, k, l, side as int, longest as int, c as int, max as int);
    lemma_chain_down(p, s, k, l, side as int, longest as int, c as int, max as int);
    assert((a - b) * u <= 5 * b && (a - b) * u >= -5 * b);
    law_halves_go_away_from_nothing(p.0 as int, p.1);
    assert(h == binary32::half_up(p.0, p.1));
    let g = h * p.1 - p.0;
    let off = h * longest - side * max;
    let sm = side * max;
    assert(b == sm * p.1) by (nonlinear_arith)
        requires
            b == side * p.1 * max,
            sm == side * max,
    ;
    assert(off * p.1 == g * longest + (a - b)) by (nonlinear_arith)
        requires
            off == h * longest - sm,
            g == h * p.1 - p.0,
            a == p.0 * longest,
            b == sm * p.1,
    ;
    assert(-(longest * p.1) <= 2 * (g * longest) <= longest * p.1) by (nonlinear_arith)
        requires
            -(p.1 as int) < 2 * g <= p.1,
            longest >= 0,
    ;
    let lp = longest * p.1;
    assert((2 * off * u) * p.1 == (2 * (g * longest)) * u + 2 * ((a - b) * u)) by (nonlinear_arith)
        requires
            off * p.1 == g * longest + (a - b),
    ;
    let top = longest * u + 10 * sm;
    assert(top * p.1 == lp * u + 10 * b) by (nonlinear_arith)
        requires
            top == longest * u + 10 * sm,
            lp == longest * p.1,
            b == sm * p.1,
    ;
    let v = 2 * off * u;
    assert(-top <= v <= top) by (nonlinear_arith)
        requires
            -(top * p.1) <= v * p.1 <= top * p.1,
            p.1 > 0,
    ;
}

/// Four roundings in a row, from above.
proof fn lemma_chain_up(
    p: (nat, nat),
    s: (nat, nat),
    k: (nat, nat),
    l: (nat, nat),
    side: int,
    longest: int,
    c: int,
    max: int,
)
    requires
        ({
            let u: int = 0x100_0000;
            let pn = s.0 * k.0;
            let pd = s.1 * k.1;
            &&& (p.0 * pd - pn * p.1) * u <= pn * p.1
            &&& (s.0 - side * s.1) * u <= side * s.1
            &&& (k.0 * l.0 - c) * u <= c
            &&& -(longest * l.1) <= (l.0 - longest * l.1) * u
            &&& c == max * l.1 * k.1
            &&& s.1 > 0 && k.1 > 0 && l.1 > 0 && p.1 > 0
            &&& side > 0 && max > 0 && longest > 0
        }),
    ensures
        (p.0 * longest - side * p.1 * max) * 0x100_0000 <= 5 * (side * p.1 * max),
{
    let u: int = 0x100_0000;
    let pn = s.0 * k.0;
    let pd = s.1 * k.1;
    let x = pn * p.1;
    let y = side * s.1;
    let z = longest * l.1;
    assert((p.0 * pd) * u <= x * (u + 1)) by (nonlinear_arith)
        requires
            (p.0 * pd - x) * u <= x,
    ;
    assert(s.0 * u <= y * (u + 1)) by (nonlinear_arith)
        requires
            (s.0 - y) * u <= y,
    ;
    assert((k.0 * l.0) * u <= c * (u + 1)) by (nonlinear_arith)
        requires
            (k.0 * l.0 - c) * u <= c,
    ;
    assert(z * (u - 1) <= l.0 * u) by (nonlinear_arith)
        requires
            -z <= (l.0 - z) * u,
    ;
    // p k1 u^2 <= side k0 p1 (u+1)^2
    let w1 = k.0 * p.1;
    let u1 = u + 1;
    assert((p.0 * k.1) * (u * u) <= (side * w1) * (u1 * u1)) by (nonlinear_arith)
        requires
            (p.0 * pd) * u <= x * u1,
            s.0 * u <= y * u1,
            x == pn * p.1,
            pn == s.0 * k.0,
            pd == s.1 * k.1,
            y == side * s.1,
            w1 == k.0 * p.1,
            s.1 > 0,
            u == 0x100_0000,
            u1 == u + 1,
            w1 >= 0,
    {
        assert(x == s.0 * w1);
        assert((p.0 * pd) * u * u <= (s.0 * w1) * u1 * u);
        assert((s.0 * w1) * u1 * u == (s.0 * u) * (w1 * u1));
        assert((s.0 * u) * (w1 * u1) <= (y * u1) * (w1 * u1));
        assert((y * u1) * (w1 * u1) == ((side * w1) * (u1 * u1)) * s.1);
        assert((p.0 * pd) * u * u == ((p.0 * k.1) * (u * u)) * s.1);
    }
    // p l0 u^3 <= side p1 max l1 (u+1)^3
    let w2 = side * p.1;
    let ml = max * l.1;
    assert((p.0 * l.0) * (u * u * u) <= (w2 * ml) * (u1 * u1 * u1)) by (nonlinear_arith)
        requires
            (p.0 * k.1) * (u * u) <= (side * w1) * (u1 * u1),
            (k.0 * l.0) * u <= c * u1,
            w1 == k.0 * p.1,
            w2 == side * p.1,
            c == ml * k.1,
            k.1 > 0,
            u == 0x100_0000,
            u1 == u + 1,
            w2 >= 0,
            l.0 >= 0,
    {
        let lu = l.0 * u;
        let uu = u1 * u1;
        assert(((p.0 * k.1) * (u * u)) * lu <= ((side * w1) * uu) * lu);
        assert(((side * w1) * uu) * lu == ((k.0 * l.0) * u) * (w2 * uu));
        assert(((k.0 * l.0) * u) * (w2 * uu) <= (c * u1) * (w2 * uu));
        assert((c * u1) * (w2 * uu) == ((w2 * ml) * (u1 * u1 * u1)) * k.1);
        assert(((p.0 * k.1) * (u * u)) * lu == ((p.0 * l.0) * (u * u * u)) * k.1);
    }
    let a = p.0 * longest;
    let b = w2 * max;
    assert(b == side * p.1 * max);
    assert((a * (u - 1)) * (u * u) <= b * (u1 * u1 * u1)) by (nonlinear_arith)
        requires
            (p.0 * l.0) * (u * u * u) <= (w2 * ml) * (u1 * u1 * u1),
            z * (u - 1) <= l.0 * u,
            z == longest * l.1,
            ml == max * l.1,
            a == p.0 * longest,
            b == w2 * max,
            l.1 > 0,
            u == 0x100_0000,
            p.0 >= 0,
    {
        let v = p.0 * (u * u);
        assert((z * (u - 1)) * v <= (l.0 * u) * v);
        assert((l.0 * u) * v == (p.0 * l.0) * (u * u * u));
        assert((z * (u - 1)) * v == ((a * (u - 1)) * (u * u)) * l.1);
        assert((w2 * ml) * (u1 * u1 * u1) == (b * (u1 * u1 * u1)) * l.1);
    }
    let q = (u - 1) * u;
    assert(b >= 0) by (nonlinear_arith)
        requires
            b == w2 * max,
            w2 == side * p.1,
            side > 0,
            max > 0,
            p.1 > 0,
    ;
    assert(u1 * u1 * u1 <= (u + 5) * q);
    assert(b * (u1 * u1 * u1) <= (b * (u + 5)) * q) by (nonlinear_arith)
        requires
            u1 * u1 * u1 <= (u + 5) * q,
            b >= 0,
    {
        assert(b * (u1 * u1 * u1) <= b * ((u + 5) * q));
    }
    assert(a * u <= b * (u + 5)) by (nonlinear_arith)
        requires
            (a * (u - 1)) * (u * u) <= (b * (u + 5)) * q,
            q == (u - 1) * u,
            u == 0x100_0000,
    {
        assert((a * (u - 1)) * (u * u) == (a * u) * q);
    }
    assert((a - b) * u <= 5 * b) by (nonlinear_arith)
        requires
            a * u <= b * (u + 5),
    ;
}

/// Four roundings in a row, from below.
proof fn lemma_chain_down(
    p: (nat, nat),
    s: (nat, nat),
    k: (nat, nat),
    l: (nat, nat),
    side: int,
    longest: int,
    c: int,
    max: int,
)
    requires
        ({
            let u: int = 0x100_0000;
            let pn = s.0 * k.0;
            let pd = s.1 * k.1;
            &&& (p.0 * pd - pn * p.1) * u >= -(pn * p.1)
            &&& (s.0 - side * s.1) * u >= -(side * s.1)
            &&& (k.0 * l.0 - c) * u >= -c
            &&& longest * l.1 >= (l.0 - longest * l.1) * u
            &&& c == max * l.1 * k.1
            &&& s.1 > 0 && k.1 > 0 && l.1 > 0 && p.1 > 0
            &&& side > 0 && max > 0 && longest > 0
        }),
    ensures
        (p.0 * longest - side * p.1 * max) * 0x100_0000 >= -5 * (side * p.1 * max),
{
    let u: int = 0x100_0000;
    let pn = s.0 * k.0;
    let pd = s.1 * k.1;
    let x = pn * p.1;
    let y = side * s.1;
    let z = longest * l.1;
    let u1 = u - 1;
    assert((p.0 * pd) * u >= x * u1) by (nonlinear_arith)
        requires
            (p.0 * pd - x) * u >= -x,
            u1 == u - 1,
    ;
    assert(s.0 * u >= y * u1) by (nonlinear_arith)
        requires
            (s.0 - y) * u >= -y,
            u1 == u - 1,
    ;
    assert((k.0 * l.0) * u >= c * u1) by (nonlinear_arith)
        requires
            (k.0 * l.0 - c) * u >= -c,
            u1 == u - 1,
    ;
    assert(z * (u + 1) >= l.0 * u) by (nonlinear_arith)
        requires
            z >= (l.0 - z) * u,
    ;
    let w1 = k.0 * p.1;
    assert((p.0 * k.1) * (u * u) >= (side * w1) * (u1 * u1)) by (nonlinear_arith)
        requires
            (p.0 * pd) * u >= x * u1,
            s.0 * u >= y * u1,
            x == pn * p.1,
            pn == s.0 * k.0,
            pd == s.1 * k.1,
            y == side * s.1,
            w1 == k.0 * p.1,
            s.1 > 0,
            u == 0x100_0000,
            u1 == u - 1,
            w1 >= 0,
    {
        assert(x == s.0 * w1);
        assert((p.0 * pd) * u * u >= (s.0 * w1) * u1 * u);
        assert((s.0 * w1) * u1 * u == (s.0 * u) * (w1 * u1));
        assert((s.0 * u) * (w1 * u1) >= (y * u1) * (w1 * u1));
        assert((y * u1) * (w1 * u1) == ((side * w1) * (u1 * u1)) * s.1);
        assert((p.0 * pd) * u * u == ((p.0 * k.1) * (u * u)) * s.1);
    }
    let w2 = side * p.1;
    let ml = max * l.1;
    assert((p.0 * l.0) * (u * u * u) >= (w2 * ml) * (u1 * u1 * u1)) by (nonlinear_arith)
        requires
            (p.0 * k.1) * (u * u) >= (side * w1) * (u1 * u1),
            (k.0 * l.0) * u >= c * u1,
            w1 == k.0 * p.1,
            w2 == side * p.1,
            c == ml * k.1,
            k.1 > 0,
            u == 0x100_0000,
            u1 == u - 1,
            w2 >= 0,
            l.0 >= 0,
    {
        let lu = l.0 * u;
        let uu = u1 * u1;
        assert(((p.0 * k.1) * (u * u)) * lu >= ((side * w1) * uu) * lu);
        assert(((side * w1) * uu) * lu == ((k.0 * l.0) * u) * (w2 * uu));
        assert(((k.0 * l.0) * u) * (w2 * uu) >= (c * u1) * (w2 * uu));
        assert((c * u1) * (w2 * uu) == ((w2 * ml) * (u1 * u1 * u1)) * k.1);
        assert(((p.0 * k.1) * (u * u)) * lu == ((p.0 * l.0) * (u * u * u)) * k.1);
    }
    let a = p.0 * longest;
    let b = w2 * max;
    assert(b == side * p.1 * max);
    assert((a * (u + 1)) * (u * u) >= b * (u1 * u1 * u1)) by (nonlinear_arith)
        requires
            (p.0 * l.0) * (u * u * u) >= (w2 * ml) * (u1 * u1 * u1),
            z * (u + 1) >= l.0 * u,
            z == longest * l.1,
            ml == max * l.1,
            a == p.0 * longest,
            b == w2 * max,
            l.1 > 0,
            u == 0x100_0000,
            p.0 >= 0,
    {
        let v = p.0 * (u * u);
        assert((z * (u + 1)) * v >= (l.0 * u) * v);
        assert((l.0 * u) * v == (p.0 * l.0) * (u * u * u));
        assert((z * (u + 1)) * v == ((a * (u + 1)) * (u * u)) * l.1);
        assert((w2 * ml) * (u1 * u1 * u1) == (b * (u1 * u1 * u1)) * l.1);
    }
    let q = (u + 1) * u;
    assert(b >= 0) by (nonlinear_arith)
        requires
            b == w2 * max,
            w2 == side * p.1,
            side > 0,
            max > 0,
            p.1 > 0,
    ;
    assert(u1 * u1 * u1 >= (u - 5) * q);
    assert(b * (u1 * u1 * u1) >= (b * (u - 5)) * q) by (nonlinear_arith)
        requires
            u1 * u1 * u1 >= (u - 5) * q,
            b >= 0,
    {
        assert(b * (u1 * u1 * u1) >= b * ((u - 5) * q));
    }
    assert(a * u >= b * (u - 5)) by (nonlinear_arith)
        requires
            (a * (u + 1)) * (u * u) >= (b * (u - 5)) * q,
            q == (u + 1) * u,
            u == 0x100_0000,
    {
        assert((a * (u + 1)) * (u * u) == (a * u) * q);
    }
    assert((a - b) * u >= -5 * b) by (nonlinear_arith)
        requires
            a * u >= b * (u - 5),
    ;
}

/// A path keeps to its line: each point is within half a texel of the exact
/// one, give or take what single precision loses.
pub proof fn law_a_path_keeps_to_its_line(from: int, to: int, s: nat, steps: nat)
    requires
        s <= steps <= SIG_HI,
        steps > 0,
        -SIG_HI <= from <= SIG_HI,
        -SIG_HI <= to - from <= SIG_HI,
    ensures
        ({
            let off = binary32::along(from, to, s, steps) * steps - (from * steps + (to - from) * s);
            let from_size = if from < 0 {
                -from
            } else {
                from
            };
            let way = if to < from {
                from - to
            } else {
                to - from
            };
            let lost = from_size + 5 * way;
            &&& off * 0x100_0000 <= (0x80_0000 + lost) * steps
            &&& off * 0x100_0000 >= -((0x80_0000 + lost) * steps)
        }),
{
    drift::lemma_along_error(from, to, s, steps);
}

/// A size is scaled in single precision throughout: the side and the two limits
/// are rounded as they come, then the scale, then the product, and that goes to
/// the nearest whole number.
pub proof fn law_sizes_scale_in_single_precision(
    side: nat,
    longest: nat,
    max: nat,
    scale: (nat, nat),
    product: (nat, nat),
    whole: nat,
)
    requires
        0 < max,
        0 < longest,
        scale == binary32::nearest(
            binary32::nearest(max, 1).0 * binary32::nearest(longest, 1).1,
            binary32::nearest(max, 1).1 * binary32::nearest(longest, 1).0,
        ),
        product == binary32::nearest(
            binary32::nearest(side, 1).0 * scale.0,
            binary32::nearest(side, 1).1 * scale.1,
        ),
        product.1 > 0,
        -(product.1 as int) < 2 * (whole * product.1 - product.0) <= product.1,
    ensures
        binary32::scaled(side, longest, max) == whole,
{
    law_halves_go_away_from_nothing(product.0 as int, product.1);
    lemma_one_whole(
        binary32::half_up(product.0, product.1) as int,
        whole as int,
        product.0 as int,
        product.1,
    );
}

/// There is one whole number that a number goes to.
proof fn lemma_one_whole(h: int, k: int, n: int, d: nat)
    requires
        d > 0,
        -(d as int) < 2 * (h * d - n) <= d,
        -(d as int) < 2 * (k * d - n) <= d,
    ensures
        h == k,
{
    assert(h * d - k * d == (h - k) * d) by (nonlinear_arith);
    assert(h == k) by (nonlinear_arith)
        requires
            -(d as int) < (h - k) * d < d,
            d > 0,
    ;
}

/// A path is walked in single precision throughout: the share of the way is
/// rounded, then the distance gone, then the sum.
pub proof fn law_paths_are_walked_in_single_precision(from: int, to: int, s: nat, steps: nat)
    ensures
        ({
            let whole = |n: int| binary32::nearest_signed(n, 1);
            let share = binary32::nearest(
                binary32::nearest(s, 1).0 * binary32::nearest(steps, 1).1,
                binary32::nearest(s, 1).1 * binary32::nearest(steps, 1).0,
            );
            let gone = binary32::nearest_signed(
                whole(to - from).0 * share.0,
                whole(to - from).1 * share.1,
            );
            let sum = binary32::nearest_signed(
                whole(from).0 * gone.1 + gone.0 * whole(from).1,
                whole(from).1 * gone.1,
            );
            binary32::along(from, to, s, steps) == binary32::half_away(sum.0, sum.1)
        }),
        binary32::nearest_signed(-(s as int), steps) == (
            -(binary32::nearest_signed(s as int, steps).0),
            binary32::nearest_signed(s as int, steps).1,
        ),
        binary32::nearest_signed(s as int, steps) == (
            binary32::nearest(s, steps).0 as int,
            binary32::nearest(s, steps).1,
        ),
{
}

} // verus!
