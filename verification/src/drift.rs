//! What single-precision rounding does to a path: where it begins and ends,
//! how far a point of it can drift, and why it leaves no gaps.

use vstd::prelude::*;

use crate::binary32::{self, SIG_HI, SIG_LO};

verus! {

/// The sign and the whole-number factor of [`binary32::nearest_signed`].
pub proof fn lemma_signed_exact(k: int, d: nat)
    requires
        -SIG_HI <= k <= SIG_HI,
        d > 0,
    ensures
        binary32::nearest_signed(k * d, d).1 > 0,
        binary32::nearest_signed(k * d, d).0 == k * binary32::nearest_signed(k * d, d).1,
{
    let m = binary32::magnitude(k);
    assert(binary32::magnitude(k * d) == m * d) by (nonlinear_arith)
        requires
            m == (if k < 0 { -k } else { k }),
            binary32::magnitude(k * d) == (if k * d < 0 { -(k * d) } else { k * d }),
            d > 0,
    ;
    let r = binary32::nearest(m * d, d);
    if m > 0 {
        binary32::lemma_nearest_exact(m, d);
        assert(m * d > 0) by (nonlinear_arith)
            requires
                m > 0,
                d > 0,
        ;
        binary32::lemma_nearest(m * d, d);
    } else {
        assert(0 * d == 0);
    }
    assert(k * r.1 == (if k * d < 0 { -(r.0 as int) } else { r.0 as int })) by (nonlinear_arith)
        requires
            m == (if k < 0 { -k } else { k }),
            m == 0 ==> r.0 == 0,
            m > 0 ==> r.0 == m * r.1,
            d > 0,
    ;
}

pub proof fn lemma_half_away_exact(k: int, d: nat)
    requires
        d > 0,
    ensures
        binary32::half_away(k * d, d) == k,
{
    let m = binary32::magnitude(k);
    assert(binary32::magnitude(k * d) == m * d && (k * d < 0 <==> k < 0)) by (nonlinear_arith)
        requires
            m == (if k < 0 { -k } else { k }),
            binary32::magnitude(k * d) == (if k * d < 0 { -(k * d) } else { k * d }),
            d > 0,
    ;
    assert(2 * (m * d) + d == m * (2 * d) + d) by (nonlinear_arith);
    vstd::arithmetic::div_mod::lemma_fundamental_div_mod_converse(
        (m * (2 * d) + d) as int,
        (2 * d) as int,
        m as int,
        d as int,
    );
}

/// A path begins where it starts from and ends where it is going.
pub proof fn law_along_ends(from: int, to: int, steps: nat)
    requires
        0 < steps <= SIG_HI,
        -SIG_HI <= from <= SIG_HI,
        -SIG_HI <= to <= SIG_HI,
        -SIG_HI <= to - from <= SIG_HI,
    ensures
        binary32::along(from, to, 0, steps) == from,
        binary32::along(from, to, steps, steps) == to,
{
    let x = binary32::nearest_signed(from, 1);
    let d = binary32::nearest_signed(to - from, 1);
    let n = binary32::nearest(steps, 1);
    lemma_signed_exact(from, 1);
    lemma_signed_exact(to - from, 1);
    binary32::lemma_nearest(steps, 1);
    // At the start the share is nothing.
    assert(binary32::nearest(0, 1) == (0nat, 1nat));
    assert(0 * n.1 == 0);
    assert(binary32::share(0, steps) == (0nat, 1nat));
    assert(d.0 * 0 == 0);
    assert(binary32::gone(to - from, 0, steps) == (0int, 1nat));
    assert(x.0 * 1 + 0 * x.1 == from * x.1);
    assert(x.1 * 1 == x.1);
    lemma_signed_exact(from, x.1);
    lemma_half_away_exact(from, binary32::nearest_signed(from * x.1, x.1).1);
    // At the end it is everything.
    let t = binary32::share(steps, steps);
    assert(n.0 * n.1 == n.1 * n.0) by (nonlinear_arith);
    assert(n.0 * n.1 > 0) by (nonlinear_arith)
        requires
            n.0 > 0,
            n.1 > 0,
    ;
    binary32::lemma_nearest_exact(1, n.1 * n.0);
    assert(1 * (n.1 * n.0) == n.0 * n.1);
    binary32::lemma_nearest(n.0 * n.1, n.1 * n.0);
    assert(t.0 == t.1);
    assert(d.0 * t.0 == (to - from) * (d.1 * t.1)) by (nonlinear_arith)
        requires
            d.0 == (to - from) * d.1,
            t.0 == t.1,
    ;
    assert(d.1 * t.1 > 0) by (nonlinear_arith)
        requires
            d.1 > 0,
            t.1 > 0,
    ;
    lemma_signed_exact(to - from, d.1 * t.1);
    let p = binary32::gone(to - from, steps, steps);
    assert(x.0 * p.1 + p.0 * x.1 == to * (x.1 * p.1)) by (nonlinear_arith)
        requires
            x.0 == from * x.1,
            p.0 == (to - from) * p.1,
    ;
    assert(x.1 * p.1 > 0) by (nonlinear_arith)
        requires
            x.1 > 0,
            p.1 > 0,
    ;
    lemma_signed_exact(to, x.1 * p.1);
    lemma_half_away_exact(to, binary32::nearest_signed(to * (x.1 * p.1), x.1 * p.1).1);
}

pub proof fn lemma_share_error(s: nat, steps: nat)
    requires
        0 < s <= steps <= SIG_HI,
    ensures
        binary32::share(s, steps).1 > 0,
        -(s * binary32::share(s, steps).1) <= (binary32::share(s, steps).0 * steps - s * binary32::share(s, steps).1) * SIG_HI
            <= s * binary32::share(s, steps).1,
{
    let a = binary32::nearest(s, 1);
    let b = binary32::nearest(steps, 1);
    binary32::lemma_nearest(s, 1);
    binary32::lemma_nearest(steps, 1);
    binary32::lemma_nearest_exact(s, 1);
    binary32::lemma_nearest_exact(steps, 1);
    let c = a.1 * b.1;
    assert(c > 0) by (nonlinear_arith)
        requires
            c == a.1 * b.1,
            a.1 > 0,
            b.1 > 0,
    ;
    let n = a.0 * b.1;
    let d = a.1 * b.0;
    assert(n == s * c && d == steps * c) by (nonlinear_arith)
        requires
            n == a.0 * b.1,
            d == a.1 * b.0,
            a.0 == s * a.1,
            b.0 == steps * b.1,
            c == a.1 * b.1,
    ;
    assert(n > 0 && d > 0) by (nonlinear_arith)
        requires
            n == s * c,
            d == steps * c,
            s > 0,
            steps > 0,
            c > 0,
    ;
    binary32::lemma_nearest(n, d);
    let t = binary32::nearest(n, d);
    let e = t.0 * steps - s * t.1;
    assert(t.0 * d - n * t.1 == e * c) by (nonlinear_arith)
        requires
            n == s * c,
            d == steps * c,
            e == t.0 * steps - s * t.1,
    ;
    assert(n * t.1 == (s * t.1) * c) by (nonlinear_arith)
        requires
            n == s * c,
    ;
    let m = s * t.1;
    assert(-m <= e * SIG_HI <= m) by (nonlinear_arith)
        requires
            -(m * c) <= (e * c) * SIG_HI <= m * c,
            c > 0,
    {
        assert((e * c) * SIG_HI == (e * SIG_HI) * c);
    }
}

proof fn lemma_gone_error(to_go: int, s: nat, steps: nat)
    requires
        0 < s <= steps <= SIG_HI,
        0 < to_go <= SIG_HI,
    ensures
        binary32::gone(to_go, s, steps).0 > 0,
        binary32::gone(to_go, s, steps).1 > 0,
        -3 * (to_go * s * binary32::gone(to_go, s, steps).1) <= (binary32::gone(to_go, s, steps).0 * steps - to_go * s
            * binary32::gone(to_go, s, steps).1) * SIG_HI <= 3 * (to_go * s * binary32::gone(to_go, s, steps).1),
{
    let g = to_go as nat;
    let a = binary32::nearest(g, 1);
    binary32::lemma_nearest(g, 1);
    binary32::lemma_nearest_exact(g, 1);
    lemma_share_error(s, steps);
    let t = binary32::share(s, steps);
    assert(t.0 > 0) by (nonlinear_arith)
        requires
            -(s * t.1) <= (t.0 * steps - s * t.1) * 0x100_0000,
            t.1 > 0,
            s > 0,
            t.0 >= 0,
    {
        assert(s * t.1 > 0);
        if t.0 == 0 {
            assert(t.0 * steps == 0);
        }
    }
    let n = a.0 * t.0;
    let d = a.1 * t.1;
    assert(n > 0 && d > 0) by (nonlinear_arith)
        requires
            n == a.0 * t.0,
            d == a.1 * t.1,
            a.0 > 0,
            a.1 > 0,
            t.0 > 0,
            t.1 > 0,
    ;
    binary32::lemma_nearest(n, d);
    let p = binary32::nearest(n, d);
    assert(binary32::gone(to_go, s, steps) == (p.0 as int, p.1));
    // Without the common factor a.1: p against g * t.
    let e1 = p.0 * t.1 - (g * t.0) * p.1;
    let m1 = (g * t.0) * p.1;
    assert(p.0 * d - n * p.1 == e1 * a.1 && n * p.1 == m1 * a.1) by (nonlinear_arith)
        requires
            n == a.0 * t.0,
            d == a.1 * t.1,
            a.0 == g * a.1,
            e1 == p.0 * t.1 - (g * t.0) * p.1,
            m1 == (g * t.0) * p.1,
    ;
    assert(-m1 <= e1 * SIG_HI <= m1) by (nonlinear_arith)
        requires
            -(m1 * a.1) <= (e1 * a.1) * SIG_HI <= m1 * a.1,
            a.1 > 0,
    {
        assert((e1 * a.1) * SIG_HI == (e1 * SIG_HI) * a.1);
    }
    let e2 = t.0 * steps - s * t.1;
    let m2 = s * t.1;
    // t * steps is at most twice s.
    assert(t.0 * steps <= 2 * m2);
    let e = p.0 * steps - (g * s) * p.1;
    let m = (g * s) * p.1;
    let w = g * p.1;
    assert(e * t.1 == (p.0 * t.1) * steps - (w * s) * t.1) by (nonlinear_arith)
        requires
            e == p.0 * steps - (g * s) * p.1,
            w == g * p.1,
    ;
    assert(e1 * steps == (p.0 * t.1) * steps - (w * t.0) * steps) by (nonlinear_arith)
        requires
            e1 == p.0 * t.1 - (g * t.0) * p.1,
            w == g * p.1,
    ;
    assert(w * e2 == (w * t.0) * steps - (w * s) * t.1) by (nonlinear_arith)
        requires
            e2 == t.0 * steps - s * t.1,
    ;
    assert(m * t.1 == w * m2) by (nonlinear_arith)
        requires
            m == (g * s) * p.1,
            m2 == s * t.1,
            w == g * p.1,
    ;
    assert(m1 * steps == w * (t.0 * steps)) by (nonlinear_arith)
        requires
            m1 == (g * t.0) * p.1,
            w == g * p.1,
    ;
    assert(m1 * steps <= 2 * (w * m2)) by (nonlinear_arith)
        requires
            m1 * steps == w * (t.0 * steps),
            t.0 * steps <= 2 * m2,
            w >= 0,
    ;
    assert(-(m1 * steps) <= (e1 * steps) * SIG_HI <= m1 * steps) by (nonlinear_arith)
        requires
            -m1 <= e1 * SIG_HI <= m1,
            steps > 0,
    {
        assert((e1 * steps) * SIG_HI == (e1 * SIG_HI) * steps);
    }
    assert(-(w * m2) <= (w * e2) * SIG_HI <= w * m2) by (nonlinear_arith)
        requires
            -m2 <= e2 * SIG_HI <= m2,
            w >= 0,
    {
        assert((w * e2) * SIG_HI == w * (e2 * SIG_HI));
    }
    assert(-3 * (m * t.1) <= (e * t.1) * SIG_HI <= 3 * (m * t.1));
    assert(-3 * m <= e * SIG_HI <= 3 * m) by (nonlinear_arith)
        requires
            -3 * (m * t.1) <= (e * t.1) * SIG_HI <= 3 * (m * t.1),
            t.1 > 0,
    {
        assert((e * t.1) * SIG_HI == (e * SIG_HI) * t.1);
    }
}

/// The same with a sign, and at the start of the way.
proof fn lemma_gone_error_signed(to_go: int, s: nat, steps: nat)
    requires
        s <= steps <= SIG_HI,
        steps > 0,
        -SIG_HI <= to_go <= SIG_HI,
    ensures
        binary32::gone(to_go, s, steps).1 > 0,
        -3 * (binary32::magnitude(to_go) * s * binary32::gone(to_go, s, steps).1) <= (binary32::gone(to_go, s, steps).0 * steps
            - to_go * s * binary32::gone(to_go, s, steps).1) * SIG_HI <= 3 * (binary32::magnitude(to_go) * s * binary32::gone(
            to_go,
            s,
            steps,
        ).1),
{
    let p = binary32::gone(to_go, s, steps);
    let d = binary32::nearest_signed(to_go, 1);
    let t = binary32::share(s, steps);
    if s == 0 || to_go == 0 {
        if s == 0 {
            let n = binary32::nearest(steps, 1);
            assert(0 * n.1 == 0);
            assert(t == (0nat, 1nat));
            assert(d.0 * 0 == 0);
        } else {
            assert(d == (0int, 1nat));
            assert(0 * t.0 == 0);
        }
        assert(p == (0int, 1nat));
        assert(0 * steps == 0);
        assert(to_go * s * 1 == 0) by (nonlinear_arith)
            requires
                s == 0 || to_go == 0,
        ;
        let g = binary32::magnitude(to_go);
        assert(g * s * 1 == 0) by (nonlinear_arith)
            requires
                s == 0 || g == 0,
        ;
    } else if to_go > 0 {
        lemma_gone_error(to_go, s, steps);
    } else {
        let g = -to_go;
        lemma_gone_error(g, s, steps);
        let q = binary32::gone(g, s, steps);
        let e = binary32::nearest_signed(g, 1);
        assert(d.0 == -e.0 && d.1 == e.1);
        assert(d.0 * t.0 == -(e.0 * t.0)) by (nonlinear_arith)
            requires
                d.0 == -e.0,
        ;
        assert(q == binary32::nearest_signed(e.0 * t.0, e.1 * t.1));
        assert(e.0 * t.0 >= 0) by (nonlinear_arith)
            requires
                e.0 >= 0,
                t.0 >= 0,
        ;
        assert(p.0 == -q.0 && p.1 == q.1);
        assert(p.0 * steps - to_go * s * p.1 == -(q.0 * steps - g * s * q.1)) by (nonlinear_arith)
            requires
                p.0 == -q.0,
                p.1 == q.1,
                g == -to_go,
        ;
    }
}

/// How far rounding can carry a point of a path, in units of the last place of
/// one.
pub open spec fn drift(from: int, to: int) -> int {
    (binary32::magnitude(from) + 5 * binary32::magnitude(to - from)) as int
}

/// How far the point reached can be from the exact one.
proof fn lemma_sum_error(from: int, to: int, s: nat, steps: nat)
    requires
        s <= steps <= SIG_HI,
        steps > 0,
        -SIG_HI <= from <= SIG_HI,
        -SIG_HI <= to - from <= SIG_HI,
    ensures
        binary32::along_sum(from, to, s, steps).1 > 0,
        -(drift(from, to) * (steps * binary32::along_sum(from, to, s, steps).1)) <= (
        binary32::along_sum(from, to, s, steps).0 * steps - (from * steps + (to - from) * s)
            * binary32::along_sum(from, to, s, steps).1) * SIG_HI <= drift(from, to) * (steps
            * binary32::along_sum(from, to, s, steps).1),
{
    let g = to - from;
    let x = binary32::nearest_signed(from, 1);
    let p = binary32::gone(g, s, steps);
    lemma_signed_exact(from, 1);
    lemma_gone_error_signed(g, s, steps);
    let mg = binary32::magnitude(g);
    let n = x.0 * p.1 + p.0 * x.1;
    let d = x.1 * p.1;
    assert(d > 0) by (nonlinear_arith)
        requires
            d == x.1 * p.1,
            x.1 > 0,
            p.1 > 0,
    ;
    let v = from * p.1 + p.0;
    assert(n == v * x.1) by (nonlinear_arith)
        requires
            n == x.0 * p.1 + p.0 * x.1,
            x.0 == from * x.1,
            v == from * p.1 + p.0,
    ;
    // p is at most twice the way to go.
    let e2 = p.0 * steps - g * s * p.1;
    let m2 = mg * s * p.1;
    let top = mg * (steps * p.1);
    assert(0 <= m2 <= top) by (nonlinear_arith)
        requires
            m2 == mg * s * p.1,
            top == mg * (steps * p.1),
            0 <= mg,
            0 <= s <= steps,
            p.1 > 0,
    {
        assert(mg * s <= mg * steps);
        assert(mg * s * p.1 <= mg * steps * p.1);
        assert(mg * steps * p.1 == mg * (steps * p.1));
    }
    assert(-top <= g * s * p.1 <= top) by (nonlinear_arith)
        requires
            m2 == mg * s * p.1,
            m2 <= top,
            mg == (if g < 0 { -g } else { g }),
            s >= 0,
            p.1 > 0,
    {
        assert(g * s * p.1 == m2 || g * s * p.1 == -m2);
    }
    assert(-2 * top <= p.0 * steps <= 2 * top);
    let far = 2 * (mg * p.1);
    assert(-far <= p.0 <= far) by (nonlinear_arith)
        requires
            -2 * top <= p.0 * steps <= 2 * top,
            top == mg * (steps * p.1),
            far == 2 * (mg * p.1),
            steps > 0,
    {
        assert(2 * top == far * steps);
    }
    let mf = binary32::magnitude(from);
    let reach = (mf + 2 * mg) * p.1;
    assert(-reach <= v <= reach) by (nonlinear_arith)
        requires
            v == from * p.1 + p.0,
            -mf <= from <= mf,
            far == 2 * (mg * p.1),
            -far <= p.0 <= far,
            reach == (mf + 2 * mg) * p.1,
            p.1 > 0,
    {
        assert(-(mf * p.1) <= from * p.1 <= mf * p.1);
        assert(reach == mf * p.1 + far);
    }
    let sum = binary32::nearest_signed(n, d);
    // The last rounding.
    let e3 = sum.0 * p.1 - v * sum.1;
    let m3 = binary32::magnitude(v) * sum.1;
    if n == 0 {
        assert(v == 0) by (nonlinear_arith)
            requires
                n == v * x.1,
                n == 0,
                x.1 > 0,
        ;
        assert(sum == (0int, 1nat));
        assert(0 * p.1 == 0);
        assert(e3 == 0 && m3 == 0) by (nonlinear_arith)
            requires
                e3 == sum.0 * p.1 - v * sum.1,
                m3 == binary32::magnitude(v) * sum.1,
                binary32::magnitude(v) == 0,
                v == 0,
                sum.0 == 0,
        ;
    } else {
        let mn = binary32::magnitude(n);
        binary32::lemma_nearest(mn, d);
        let q = binary32::nearest(mn, d);
        let mv = binary32::magnitude(v);
        assert(mn == mv * x.1 && (n < 0 <==> v < 0)) by (nonlinear_arith)
            requires
                n == v * x.1,
                mn == (if n < 0 { -n } else { n }),
                mv == (if v < 0 { -v } else { v }),
                x.1 > 0,
        ;
        let e = q.0 * p.1 - mv * q.1;
        assert(q.0 * d - mn * q.1 == e * x.1) by (nonlinear_arith)
            requires
                d == x.1 * p.1,
                mn == mv * x.1,
                e == q.0 * p.1 - mv * q.1,
        ;
        assert(mn * q.1 == (mv * q.1) * x.1) by (nonlinear_arith)
            requires
                mn == mv * x.1,
        ;
        let mm = mv * q.1;
        assert(-mm <= e * SIG_HI <= mm) by (nonlinear_arith)
            requires
                -(mm * x.1) <= (e * x.1) * SIG_HI <= mm * x.1,
                x.1 > 0,
        {
            assert((e * x.1) * SIG_HI == (e * SIG_HI) * x.1);
        }
        assert(e3 == e || e3 == -e) by (nonlinear_arith)
            requires
                e3 == sum.0 * p.1 - v * sum.1,
                e == q.0 * p.1 - mv * q.1,
                sum.1 == q.1,
                v < 0 ==> sum.0 == -q.0 && mv == -v,
                v >= 0 ==> sum.0 == q.0 && mv == v,
        ;
        assert(m3 == mm);
    }
    assert(-m3 <= e3 * SIG_HI <= m3);
    // Put together, over steps * p.1.
    let a = from * steps + g * s;
    let e = sum.0 * steps - a * sum.1;
    let gs = g * s;
    let k1 = (sum.0 * steps) * p.1;
    let k2 = (from * steps) * (sum.1 * p.1);
    let k3 = gs * (sum.1 * p.1);
    let k4 = (p.0 * steps) * sum.1;
    assert(e * p.1 == k1 - k2 - k3) by (nonlinear_arith)
        requires
            e == sum.0 * steps - a * sum.1,
            a == from * steps + gs,
            k1 == (sum.0 * steps) * p.1,
            k2 == (from * steps) * (sum.1 * p.1),
            k3 == gs * (sum.1 * p.1),
    ;
    assert(e3 * steps == k1 - k2 - k4) by (nonlinear_arith)
        requires
            e3 == sum.0 * p.1 - v * sum.1,
            v == from * p.1 + p.0,
            k1 == (sum.0 * steps) * p.1,
            k2 == (from * steps) * (sum.1 * p.1),
            k4 == (p.0 * steps) * sum.1,
    ;
    assert(e2 * sum.1 == k4 - k3) by (nonlinear_arith)
        requires
            e2 == p.0 * steps - gs * p.1,
            k3 == gs * (sum.1 * p.1),
            k4 == (p.0 * steps) * sum.1,
    ;
    let unit = (steps * sum.1) * p.1;
    let mv = binary32::magnitude(v);
    let w = mf + 2 * mg;
    assert(m3 * steps <= w * unit) by (nonlinear_arith)
        requires
            m3 == mv * sum.1,
            mv <= reach,
            reach == w * p.1,
            unit == (steps * sum.1) * p.1,
            steps > 0,
            sum.1 > 0,
    {
        let z = sum.1 * steps;
        assert(m3 * steps == mv * z);
        assert(mv * z <= reach * z);
        assert(reach * z == w * unit);
    }
    assert(m2 * sum.1 <= mg * unit) by (nonlinear_arith)
        requires
            m2 <= top,
            top == mg * (steps * p.1),
            unit == (steps * sum.1) * p.1,
            sum.1 > 0,
    {
        assert(m2 * sum.1 <= top * sum.1);
        assert(top * sum.1 == mg * unit);
    }
    assert(-(m3 * steps) <= (e3 * steps) * SIG_HI <= m3 * steps) by (nonlinear_arith)
        requires
            -m3 <= e3 * SIG_HI <= m3,
            steps > 0,
    {
        assert((e3 * steps) * SIG_HI == (e3 * SIG_HI) * steps);
    }
    assert(-3 * (m2 * sum.1) <= (e2 * sum.1) * SIG_HI <= 3 * (m2 * sum.1)) by (nonlinear_arith)
        requires
            -3 * m2 <= e2 * SIG_HI <= 3 * m2,
            sum.1 > 0,
    {
        assert((e2 * sum.1) * SIG_HI == (e2 * SIG_HI) * sum.1);
    }
    let k = drift(from, to);
    assert(k * unit == w * unit + 3 * (mg * unit)) by (nonlinear_arith)
        requires
            k == mf + 5 * mg,
            w == mf + 2 * mg,
    ;
    assert(-(k * unit) <= (e * p.1) * SIG_HI <= k * unit);
    let u = steps * sum.1;
    assert(-(k * u) <= e * SIG_HI <= k * u) by (nonlinear_arith)
        requires
            -(k * unit) <= (e * p.1) * SIG_HI <= k * unit,
            unit == u * p.1,
            p.1 > 0,
    {
        assert((e * p.1) * SIG_HI == (e * SIG_HI) * p.1);
        assert(k * unit == (k * u) * p.1);
    }
}

pub proof fn lemma_half_away(n: int, d: nat)
    requires
        d > 0,
    ensures
        -(d as int) <= 2 * (binary32::half_away(n, d) * d - n) <= d,
{
    let m = binary32::magnitude(n);
    let h = binary32::half_up(m, d);
    vstd::arithmetic::div_mod::lemma_fundamental_div_mod((2 * m + d) as int, (2 * d) as int);
    assert((2 * d) * h == 2 * (h * d)) by (nonlinear_arith);
    assert((-h) * d == -(h * d)) by (nonlinear_arith);
}

/// Where rounding leaves a point, against the exact one.
pub proof fn lemma_along_error(from: int, to: int, s: nat, steps: nat)
    requires
        s <= steps <= SIG_HI,
        steps > 0,
        -SIG_HI <= from <= SIG_HI,
        -SIG_HI <= to - from <= SIG_HI,
    ensures
        -((SIG_LO + drift(from, to)) * steps) <= (binary32::along(from, to, s, steps) * steps - (from
            * steps + (to - from) * s)) * SIG_HI <= (SIG_LO + drift(from, to)) * steps,
{
    lemma_sum_error(from, to, s, steps);
    let sum = binary32::along_sum(from, to, s, steps);
    let r = binary32::along(from, to, s, steps);
    lemma_half_away(sum.0, sum.1);
    let a = from * steps + (to - from) * s;
    let e = sum.0 * steps - a * sum.1;
    let h = r * sum.1 - sum.0;
    let f = r * steps - a;
    assert(f * sum.1 == h * steps + e) by (nonlinear_arith)
        requires
            f == r * steps - a,
            h == r * sum.1 - sum.0,
            e == sum.0 * steps - a * sum.1,
    ;
    let u = steps * sum.1;
    let k = drift(from, to);
    assert(-u <= 2 * (h * steps) <= u) by (nonlinear_arith)
        requires
            u == steps * sum.1,
            -sum.1 <= 2 * h <= sum.1,
            steps > 0,
    ;
    assert((SIG_LO + k) * u == SIG_LO * u + k * u) by (nonlinear_arith);
    assert(-((SIG_LO + k) * u) <= (f * sum.1) * SIG_HI <= (SIG_LO + k) * u);
    let bound = (SIG_LO + k) * steps;
    assert(-bound <= f * SIG_HI <= bound) by (nonlinear_arith)
        requires
            -((SIG_LO + k) * u) <= (f * sum.1) * SIG_HI <= (SIG_LO + k) * u,
            u == steps * sum.1,
            bound == (SIG_LO + k) * steps,
            sum.1 > 0,
    {
        assert((SIG_LO + k) * u == bound * sum.1);
        assert((f * sum.1) * SIG_HI == (f * SIG_HI) * sum.1);
    }
}

/// Is a path short enough, and near enough, for rounding never to carry a point
/// as far as one step of it is short of a texel?
pub open spec fn steady(from: int, to: int, steps: nat) -> bool {
    2 * (drift(from, to) * steps) < SIG_HI
}

pub proof fn lemma_steady(from: int, to: int, steps: nat)
    requires
        steps > 0,
        steady(from, to, steps),
    ensures
        2 * drift(from, to) < SIG_HI,
        -SIG_LO < from < SIG_LO,
        -SIG_LO < to - from < SIG_LO,
{
    let k = drift(from, to);
    assert(k <= k * steps) by (nonlinear_arith)
        requires
            k >= 0,
            steps > 0,
    ;
}

/// A steady path stays among numbers that single precision holds exactly.
pub proof fn lemma_along_bounded(from: int, to: int, s: nat, steps: nat)
    requires
        s <= steps <= SIG_HI,
        steps > 0,
        steady(from, to, steps),
    ensures
        -SIG_HI <= binary32::along(from, to, s, steps) <= SIG_HI,
{
    lemma_steady(from, to, steps);
    lemma_along_error(from, to, s, steps);
    let r = binary32::along(from, to, s, steps);
    let g = to - from;
    let k = drift(from, to);
    let a = from * steps + g * s;
    let f = r * steps - a;
    assert(-steps <= f <= steps) by (nonlinear_arith)
        requires
            -((0x80_0000 + k) * steps) <= f * 0x100_0000 <= (0x80_0000 + k) * steps,
            2 * k < 0x100_0000,
            steps > 0,
    {
        assert((0x80_0000 + k) * steps <= 0x100_0000 * steps);
    }
    let mf = binary32::magnitude(from);
    let mg = binary32::magnitude(g);
    let m = mf + mg;
    assert(-(m * steps) <= a <= m * steps) by (nonlinear_arith)
        requires
            a == from * steps + g * s,
            -mf <= from <= mf,
            -mg <= g <= mg,
            m == mf + mg,
            0 <= s <= steps,
    {
        assert(-(mf * steps) <= from * steps <= mf * steps);
        assert(-(mg * s) <= g * s <= mg * s);
        assert(mg * s <= mg * steps);
        assert(m * steps == mf * steps + mg * steps);
    }
    assert(-(m + 1) <= r <= m + 1) by (nonlinear_arith)
        requires
            -(m * steps) - steps <= r * steps <= m * steps + steps,
            steps > 0,
    {
        assert(m * steps + steps == (m + 1) * steps);
    }
}

/// A steady path leaves no gaps: each point is the one before it, or next to it.
pub proof fn law_along_leaves_no_gaps(from: int, to: int, s: nat, steps: nat)
    requires
        s < steps <= SIG_HI,
        -(steps as int) <= to - from <= steps,
        steady(from, to, steps),
    ensures
        -1 <= binary32::along(from, to, s + 1, steps) - binary32::along(from, to, s, steps) <= 1,
{
    lemma_steady(from, to, steps);
    lemma_along_error(from, to, s, steps);
    lemma_along_error(from, to, s + 1, steps);
    let g = to - from;
    let r = binary32::along(from, to, s, steps);
    let q = binary32::along(from, to, s + 1, steps);
    let d = drift(from, to);
    let a = from * steps + g * s;
    let f = r * steps - a;
    let h = q * steps - (a + g);
    assert(from * steps + g * (s + 1) == a + g) by (nonlinear_arith)
        requires
            a == from * steps + g * s,
    ;
    let k = q - r;
    assert(k * steps == g + h - f) by (nonlinear_arith)
        requires
            k == q - r,
            f == r * steps - a,
            h == q * steps - (a + g),
    ;
    assert((SIG_LO + d) * steps == SIG_LO * steps + d * steps) by (nonlinear_arith);
    if k >= 2 || k <= -2 {
        assert(k * steps >= 2 * steps || k * steps <= -2 * steps) by (nonlinear_arith)
            requires
                k >= 2 || k <= -2,
                steps > 0,
        ;
        // Only a way that moves a whole texel per step is left.
        assert(g == steps || g == -(steps as int));
        let c = if g > 0 {
            from + s
        } else {
            from - s
        };
        assert(a == c * steps) by (nonlinear_arith)
            requires
                a == from * steps + g * s,
                g == steps || g == -(steps as int),
                c == (if g > 0 { from + s } else { from - s }),
                steps > 0,
        ;
        assert(f == (r - c) * steps) by (nonlinear_arith)
            requires
                f == r * steps - a,
                a == c * steps,
        ;
        let c2 = if g > 0 {
            c + 1
        } else {
            c - 1
        };
        assert(h == (q - c2) * steps) by (nonlinear_arith)
            requires
                h == q * steps - (a + g),
                a == c * steps,
                g == steps || g == -(steps as int),
                c2 == (if g > 0 { c + 1 } else { c - 1 }),
                steps > 0,
        ;
        lemma_no_whole_step(f, r - c, d, steps);
        lemma_no_whole_step(h, q - c2, d, steps);
    }
}

/// An error of less than a texel that is a whole number of texels is none.
proof fn lemma_no_whole_step(f: int, n: int, d: int, steps: nat)
    requires
        f == n * steps,
        -((SIG_LO + d) * steps) <= f * SIG_HI <= (SIG_LO + d) * steps,
        0 <= 2 * d < SIG_HI,
        steps > 0,
    ensures
        n == 0,
{
    let b = SIG_LO + d;
    assert(f * SIG_HI == (n * SIG_HI) * steps) by (nonlinear_arith)
        requires
            f == n * steps,
    ;
    assert(-b <= n * SIG_HI <= b) by (nonlinear_arith)
        requires
            -(b * steps) <= (n * SIG_HI) * steps <= b * steps,
            steps > 0,
    ;
}

/// On and about a relief canvas every drag is steady.
pub proof fn law_canvas_drags_are_steady(from: int, to: int, steps: nat)
    requires
        -512 <= from <= 512,
        -512 <= to <= 512,
        steps <= 1024,
    ensures
        steady(from, to, steps),
{
    let k = drift(from, to);
    assert(k * steps <= 5632 * 1024) by (nonlinear_arith)
        requires
            0 <= k <= 5632,
            0 <= steps <= 1024,
    ;
}

/// `a / b` is at most `m`, up to five parts in two to the 24th, so it rounds
/// to `m` at most.
proof fn lemma_rounds_within(a: nat, b: nat, m: nat)
    requires
        b > 0,
        m <= 0x10_0000,
        a * SIG_HI <= m * b * (SIG_HI + 5),
    ensures
        binary32::half_up(a, b) <= m,
{
    let h = binary32::half_up(a, b);
    vstd::arithmetic::div_mod::lemma_fundamental_div_mod((2 * a + b) as int, (2 * b) as int);
    assert((2 * b) * h <= 2 * a + b);
    assert(2 * a < 2 * (m * b) + b) by (nonlinear_arith)
        requires
            a * 0x100_0000 <= m * b * (0x100_0000 + 5),
            m <= 0x10_0000,
            b > 0,
    {
        assert(m * b * (0x100_0000 + 5) == (m * b) * 0x100_0000 + 5 * (m * b));
        assert(m * b <= 0x10_0000 * b);
    }
    assert(h <= m) by (nonlinear_arith)
        requires
            (2 * b) * h <= 2 * a + b,
            2 * a < 2 * (m * b) + b,
            b > 0,
    {
        if h >= m + 1 {
            assert((2 * b) * h >= (2 * b) * (m + 1));
        }
    }
}

/// Scaling a size down to fit does what it says: no side comes out larger than
/// the one it is to fit, nor larger than it was.
pub proof fn law_scaled_fits(side: nat, longest: nat, max: nat)
    requires
        0 < max <= 0x10_0000,
        max <= longest <= u32::MAX,
        side <= longest,
    ensures
        binary32::scaled(side, longest, max) <= max,
        binary32::scaled(side, longest, max) <= side,
{
    let m = binary32::nearest(max, 1);
    let l = binary32::nearest(longest, 1);
    let k = binary32::nearest(m.0 * l.1, m.1 * l.0);
    let s = binary32::nearest(side, 1);
    let p = binary32::nearest(s.0 * k.0, s.1 * k.1);
    binary32::lemma_nearest(max, 1);
    binary32::lemma_nearest(longest, 1);
    binary32::lemma_nearest_exact(max, 1);
    if side == 0 {
        assert(s == (0nat, 1nat));
        assert(0 * k.0 == 0);
        assert(p == (0nat, 1nat));
        assert(binary32::half_up(0, 1) == 0) by (nonlinear_arith);
        return;
    }
    binary32::lemma_nearest(side, 1);
    let kn = m.0 * l.1;
    let kd = m.1 * l.0;
    assert(kn > 0 && kd > 0) by (nonlinear_arith)
        requires
            kn == m.0 * l.1,
            kd == m.1 * l.0,
            m.0 > 0,
            m.1 > 0,
            l.0 > 0,
            l.1 > 0,
    ;
    binary32::lemma_nearest(kn, kd);
    let pn = s.0 * k.0;
    let pd = s.1 * k.1;
    assert(pn > 0 && pd > 0) by (nonlinear_arith)
        requires
            pn == s.0 * k.0,
            pd == s.1 * k.1,
            s.0 > 0,
            s.1 > 0,
            k.0 > 0,
            k.1 > 0,
    ;
    binary32::lemma_nearest(pn, pd);
    // The four roundings that matter, as bounds.
    let u: nat = 0x100_0000;
    assert(p.0 * pd * u <= pn * p.1 * (u + 1)) by (nonlinear_arith)
        requires
            (p.0 * pd - pn * p.1) * u <= pn * p.1,
    ;
    assert(s.0 * u <= side * s.1 * (u + 1)) by (nonlinear_arith)
        requires
            (s.0 * 1 - side * s.1) * u <= side * s.1,
    ;
    let c = max * l.1 * k.1;
    assert(k.0 * l.0 * u <= c * (u + 1)) by (nonlinear_arith)
        requires
            (k.0 * kd - kn * k.1) * u <= kn * k.1,
            kn == m.0 * l.1,
            kd == m.1 * l.0,
            m.0 == max * m.1,
            m.1 > 0,
            c == max * l.1 * k.1,
            u == 0x100_0000,
    {
        assert(kn * k.1 == c * m.1);
        assert(k.0 * kd == (k.0 * l.0) * m.1);
        assert(((k.0 * l.0) * u) * m.1 <= (c * (u + 1)) * m.1);
    }
    assert(longest * l.1 * (u - 1) <= l.0 * u) by (nonlinear_arith)
        requires
            -(longest * l.1) <= (l.0 * 1 - longest * l.1) * u,
    ;
    // Chained, one common factor dropped at a time.
    let v = (u + 1) * (u + 1);
    assert(p.0 * k.1 * (u * u) <= side * k.0 * p.1 * v) by (nonlinear_arith)
        requires
            p.0 * pd * u <= pn * p.1 * (u + 1),
            s.0 * u <= side * s.1 * (u + 1),
            pn == s.0 * k.0,
            pd == s.1 * k.1,
            s.1 > 0,
            v == (u + 1) * (u + 1),
            u == 0x100_0000,
    {
        let w = k.0 * p.1 * (u + 1);
        assert(p.0 * pd * u * u <= (s.0 * u) * w) by {
            assert(p.0 * pd * u * u <= pn * p.1 * (u + 1) * u);
            assert(pn * p.1 * (u + 1) * u == (s.0 * u) * w);
        }
        assert((s.0 * u) * w <= (side * s.1 * (u + 1)) * w);
        assert(p.0 * pd * u * u == (p.0 * k.1 * (u * u)) * s.1);
        assert((side * s.1 * (u + 1)) * w == (side * k.0 * p.1 * v) * s.1);
    }
    let v3 = v * (u + 1);
    assert(p.0 * l.0 * (u * u * u) <= side * p.1 * (max * l.1) * v3) by (nonlinear_arith)
        requires
            p.0 * k.1 * (u * u) <= side * k.0 * p.1 * v,
            k.0 * l.0 * u <= c * (u + 1),
            c == max * l.1 * k.1,
            k.1 > 0,
            v3 == v * (u + 1),
            u == 0x100_0000,
    {
        let w = side * p.1 * v;
        assert((p.0 * k.1 * (u * u)) * (l.0 * u) <= (side * k.0 * p.1 * v) * (l.0 * u));
        assert((side * k.0 * p.1 * v) * (l.0 * u) == (k.0 * l.0 * u) * w);
        assert((k.0 * l.0 * u) * w <= (c * (u + 1)) * w);
        assert((p.0 * k.1 * (u * u)) * (l.0 * u) == (p.0 * l.0 * (u * u * u)) * k.1);
        assert((c * (u + 1)) * w == (side * p.1 * (max * l.1) * v3) * k.1);
    }
    assert(p.0 * longest * ((u - 1) * (u * u)) <= side * p.1 * max * v3) by (nonlinear_arith)
        requires
            p.0 * l.0 * (u * u * u) <= side * p.1 * (max * l.1) * v3,
            longest * l.1 * (u - 1) <= l.0 * u,
            l.1 > 0,
            u == 0x100_0000,
    {
        let w = p.0 * (u * u);
        assert((longest * l.1 * (u - 1)) * w <= (l.0 * u) * w);
        assert((l.0 * u) * w == p.0 * l.0 * (u * u * u));
        assert((longest * l.1 * (u - 1)) * w == (p.0 * longest * ((u - 1) * (u * u))) * l.1);
        assert(side * p.1 * (max * l.1) * v3 == (side * p.1 * max * v3) * l.1);
    }
    let a = p.0 * longest;
    let b = side * p.1 * max;
    assert(a * u <= b * (u + 5)) by (nonlinear_arith)
        requires
            a * ((u - 1) * (u * u)) <= b * v3,
            v3 == (u + 1) * (u + 1) * (u + 1),
            u == 0x100_0000,
    {
        let q = (u - 1) * u;
        assert(v3 <= (u + 5) * q);
        assert(b * v3 <= b * ((u + 5) * q));
        assert(a * ((u - 1) * (u * u)) == (a * u) * q);
        assert(b * ((u + 5) * q) == (b * (u + 5)) * q);
    }
    assert(p.0 * u <= max * p.1 * (u + 5)) by (nonlinear_arith)
        requires
            a * u <= b * (u + 5),
            a == p.0 * longest,
            b == side * p.1 * max,
            side <= longest,
            longest > 0,
            u == 0x100_0000,
    {
        let w = p.1 * max * (u + 5);
        assert(b * (u + 5) == side * w);
        assert(side * w <= longest * w);
        assert(a * u == (p.0 * u) * longest);
        assert(w * longest == longest * w);
        assert(w == max * p.1 * (u + 5));
    }
    lemma_rounds_within(p.0, p.1, max);
    if side <= 0x10_0000 {
        assert(p.0 * u <= side * p.1 * (u + 5)) by (nonlinear_arith)
            requires
                a * u <= b * (u + 5),
                a == p.0 * longest,
                b == side * p.1 * max,
                max <= longest,
                longest > 0,
                u == 0x100_0000,
        {
            let w = side * p.1 * (u + 5);
            assert(b * (u + 5) == max * w);
            assert(max * w <= longest * w);
            assert(a * u == (p.0 * u) * longest);
        }
        lemma_rounds_within(p.0, p.1, side);
    }
}

/// Scaled down to fit, the longest side comes out at the limit itself.
pub proof fn law_longest_side_reaches_the_limit(longest: nat, max: nat)
    requires
        0 < max <= 0x1_0000,
        max <= longest <= u32::MAX,
    ensures
        binary32::scaled(longest, longest, max) == max,
{
    let m = binary32::nearest(max, 1);
    let l = binary32::nearest(longest, 1);
    binary32::lemma_nearest(max, 1);
    binary32::lemma_nearest(longest, 1);
    binary32::lemma_nearest_exact(max, 1);
    let kn = m.0 * l.1;
    let kd = m.1 * l.0;
    assert(kn > 0 && kd > 0) by (nonlinear_arith)
        requires
            kn == m.0 * l.1,
            kd == m.1 * l.0,
            m.0 > 0,
            m.1 > 0,
            l.0 > 0,
            l.1 > 0,
    ;
    binary32::lemma_nearest(kn, kd);
    let k = binary32::nearest(kn, kd);
    let pn = l.0 * k.0;
    let pd = l.1 * k.1;
    assert(pn > 0 && pd > 0) by (nonlinear_arith)
        requires
            pn == l.0 * k.0,
            pd == l.1 * k.1,
            l.0 > 0,
            l.1 > 0,
            k.0 > 0,
            k.1 > 0,
    ;
    binary32::lemma_nearest(pn, pd);
    let p = binary32::nearest(pn, pd);
    // The rounding of the side cancels: what is left is that of the scale, and
    // that of the product.
    let c = max * pd;
    let e1 = pn - c;
    assert(-c <= e1 * SIG_HI <= c) by (nonlinear_arith)
        requires
            -(kn * k.1) <= (k.0 * kd - kn * k.1) * SIG_HI <= kn * k.1,
            kn == m.0 * l.1,
            kd == m.1 * l.0,
            m.0 == max * m.1,
            m.1 > 0,
            pn == l.0 * k.0,
            pd == l.1 * k.1,
            c == max * pd,
            e1 == pn - c,
    {
        assert(kn * k.1 == c * m.1);
        assert(k.0 * kd == pn * m.1);
        assert(k.0 * kd - kn * k.1 == e1 * m.1);
        assert((e1 * m.1) * SIG_HI == (e1 * SIG_HI) * m.1);
    }
    assert(pn <= 2 * c);
    let e2 = p.0 * pd - pn * p.1;
    let m2 = pn * p.1;
    assert(-m2 <= e2 * SIG_HI <= m2);
    let e = p.0 - max * p.1;
    assert(e * pd == e2 + e1 * p.1) by (nonlinear_arith)
        requires
            e == p.0 - max * p.1,
            e2 == p.0 * pd - pn * p.1,
            e1 == pn - c,
            c == max * pd,
    ;
    let b = c * p.1;
    assert(m2 <= 2 * b) by (nonlinear_arith)
        requires
            m2 == pn * p.1,
            b == c * p.1,
            pn <= 2 * c,
    ;
    assert(-b <= (e1 * p.1) * SIG_HI <= b) by (nonlinear_arith)
        requires
            -c <= e1 * SIG_HI <= c,
            b == c * p.1,
    {
        assert((e1 * p.1) * SIG_HI == (e1 * SIG_HI) * p.1);
    }
    let w = max * p.1;
    assert(b == w * pd) by (nonlinear_arith)
        requires
            b == c * p.1,
            c == max * pd,
            w == max * p.1,
    ;
    assert((e * SIG_HI) * pd == e2 * SIG_HI + (e1 * p.1) * SIG_HI) by (nonlinear_arith)
        requires
            e * pd == e2 + e1 * p.1,
    ;
    assert(-(3 * w) <= e * SIG_HI <= 3 * w) by (nonlinear_arith)
        requires
            -(3 * (w * pd)) <= (e * SIG_HI) * pd <= 3 * (w * pd),
            pd > 0,
    ;
    assert(-p.1 < 2 * e < p.1) by (nonlinear_arith)
        requires
            -(3 * w) <= e * SIG_HI <= 3 * w,
            w == max * p.1,
            max <= 0x1_0000,
            SIG_HI == 0x100_0000,
            p.1 > 0,
    {
        assert(w <= 0x1_0000 * p.1);
    }
    let h = binary32::half_up(p.0, p.1);
    vstd::arithmetic::div_mod::lemma_fundamental_div_mod(
        (2 * p.0 + p.1) as int,
        (2 * p.1) as int,
    );
    assert((2 * p.1) * h == 2 * (h * p.1)) by (nonlinear_arith);
    assert(h * p.1 - max * p.1 == (h - max) * p.1) by (nonlinear_arith);
    assert(h == max) by (nonlinear_arith)
        requires
            -p.1 < (h - max) * p.1 < p.1,
            p.1 > 0,
    ;
}

} // verus!
