//! Single-precision rounding, done on whole numbers.
//!
//! Sizes are scaled and brush strokes are walked in single precision. Doing it
//! on exact fractions gives the same texels on every machine, and lets the
//! results be stated: every operation is the exact one followed by
//! [`nearest`], the rounding to the nearest value with a 24-bit significand,
//! ties to even. Magnitudes here stay far from the ends of the exponent range,
//! so neither overflow nor the subnormal range comes into it.

use vstd::prelude::*;

verus! {

/// Two to the 23rd and to the 24th: a normalised significand lies between them.
pub const SIG_LO: u64 = 0x80_0000;
pub const SIG_HI: u64 = 0x100_0000;

/// `n / d` to the nearest whole number, halves to the even one.
pub open spec fn half_even(n: nat, d: nat) -> nat {
    let q = n / d;
    let r = n % d;
    if 2 * r < d {
        q
    } else if 2 * r > d {
        q + 1
    } else {
        q + q % 2
    }
}

/// `n / d` to the nearest whole number, halves away from zero.
pub open spec fn half_up(n: nat, d: nat) -> nat {
    (2 * n + d) / (2 * d)
}

/// The single-precision value nearest to `n / d`, as a fraction: scale by two
/// until the significand has 24 bits, drop the rest, scale back.
pub open spec fn nearest(n: nat, d: nat) -> (nat, nat)
    decreases
        (if n == 0 || d == 0 {
            0nat
        } else if n < d * SIG_LO {
            (d * SIG_LO - n) as nat
        } else if n >= d * SIG_HI {
            (n - d * SIG_HI + 1) as nat
        } else {
            0nat
        }),
{
    if n == 0 || d == 0 {
        (0, 1)
    } else if n < d * SIG_LO {
        let r = nearest(2 * n, d);
        (r.0, 2 * r.1)
    } else if n >= d * SIG_HI {
        let r = nearest(n, 2 * d);
        (2 * r.0, r.1)
    } else {
        (half_even(n, d), 1)
    }
}

/// [`nearest`] of a fraction with a sign.
pub open spec fn nearest_signed(n: int, d: nat) -> (int, nat) {
    let r = nearest(magnitude(n), d);
    (if n < 0 { -(r.0 as int) } else { r.0 as int }, r.1)
}

pub open spec fn magnitude(n: int) -> nat {
    if n < 0 {
        (-n) as nat
    } else {
        n as nat
    }
}

/// A fraction with a sign to the nearest whole number, halves away from zero.
pub open spec fn half_away(n: int, d: nat) -> int {
    let r = half_up(magnitude(n), d);
    if n < 0 {
        -(r as int)
    } else {
        r as int
    }
}

/// What rounding can do: the relative error is at most two to the minus 24th,
/// and the fraction that comes back stays small.
pub proof fn lemma_nearest(n: nat, d: nat)
    requires
        n > 0,
        d > 0,
    ensures
        nearest(n, d).0 > 0,
        nearest(n, d).1 > 0,
        -(n * nearest(n, d).1) <= (nearest(n, d).0 * d - n * nearest(n, d).1) * SIG_HI <= n
            * nearest(n, d).1,
        n < d * SIG_HI ==> nearest(n, d).0 <= SIG_HI && nearest(n, d).1 * n <= d * SIG_HI,
        n >= d * SIG_LO ==> nearest(n, d).1 == 1,
        n >= d * SIG_HI ==> nearest(n, d).0 * d <= 2 * n,
    decreases
        (if n < d * SIG_LO {
            (d * SIG_LO - n) as nat
        } else if n >= d * SIG_HI {
            (n - d * SIG_HI + 1) as nat
        } else {
            0nat
        }),
{
    let r = nearest(n, d);
    if n < d * SIG_LO {
        lemma_nearest(2 * n, d);
        let p = nearest(2 * n, d);
        assert((2 * n) * p.1 == n * (2 * p.1)) by (nonlinear_arith);
        assert(p.1 * (2 * n) == (2 * p.1) * n) by (nonlinear_arith);
    } else if n >= d * SIG_HI {
        lemma_nearest(n, 2 * d);
        let p = nearest(n, 2 * d);
        assert(p.0 * (2 * d) == (2 * p.0) * d) by (nonlinear_arith);
        assert(n * p.1 == n) by (nonlinear_arith)
            requires
                p.1 == 1,
        ;
        if n < (2 * d) * SIG_HI {
            // |2 p d - n| is at most n / 2^24
            assert(p.0 * (2 * d) <= 2 * n);
        }
    } else {
        let q = n / d;
        let m = n % d;
        vstd::arithmetic::div_mod::lemma_fundamental_div_mod(n as int, d as int);
        assert(d * q == q * d) by (nonlinear_arith);
        assert((q + 1) * d == q * d + d) by (nonlinear_arith);
        assert(q >= SIG_LO) by (nonlinear_arith)
            requires
                q * d + m == n,
                m < d,
                n >= d * SIG_LO,
                d > 0,
                SIG_LO == 0x80_0000,
        ;
        assert(q < SIG_HI) by (nonlinear_arith)
            requires
                q * d + m == n,
                m >= 0,
                n < d * SIG_HI,
                d > 0,
        ;
        assert(half_even(n, d) == q || half_even(n, d) == q + 1);
        if half_even(n, d) == q {
            assert(2 * m <= d);
        } else {
            assert(2 * m >= d);
        }
        let h = half_even(n, d);
        assert(-d <= 2 * (h * d - n) <= d);
        assert(n * 1 == n);
        assert(1 * n <= d * SIG_HI);
    }
}

/// A whole number of at most 24 bits is its own rounding, however it is
/// written as a fraction.
pub proof fn lemma_nearest_exact(k: nat, d: nat)
    requires
        0 < k <= SIG_HI,
        d > 0,
    ensures
        nearest(k * d, d).0 == k * nearest(k * d, d).1,
    decreases SIG_HI - k,
{
    let n = k * d;
    let r = nearest(n, d);
    assert(n > 0) by (nonlinear_arith)
        requires
            n == k * d,
            k > 0,
            d > 0,
    ;
    if k < SIG_LO {
        assert(n < d * SIG_LO) by (nonlinear_arith)
            requires
                n == k * d,
                k < SIG_LO,
                d > 0,
        ;
        assert((2 * k) * d == 2 * n) by (nonlinear_arith)
            requires
                n == k * d,
        ;
        lemma_nearest_exact(2 * k, d);
        let p = nearest(2 * n, d);
        assert((2 * k) * p.1 == k * (2 * p.1)) by (nonlinear_arith);
        assert(r == (p.0, 2 * p.1));
    } else {
        assert(n >= d * SIG_LO) by (nonlinear_arith)
            requires
                n == k * d,
                k >= SIG_LO,
                d > 0,
        ;
        if k == SIG_HI {
            assert(n == SIG_LO * (2 * d)) by (nonlinear_arith)
                requires
                    n == k * d,
                    k == 0x100_0000,
                    SIG_LO == 0x80_0000,
            ;
            lemma_half_even_multiple(SIG_LO as nat, 2 * d);
            assert(n < (2 * d) * SIG_HI && n >= (2 * d) * SIG_LO && n >= d * SIG_HI) by (nonlinear_arith)
                requires
                    n == 0x80_0000 * (2 * d),
                    d > 0,
                    SIG_LO == 0x80_0000,
                    SIG_HI == 0x100_0000,
            ;
            assert(nearest(n, 2 * d) == (SIG_LO as nat, 1nat));
            assert(r == (2 * (SIG_LO as nat), 1nat));
        } else {
            assert(n < d * SIG_HI) by (nonlinear_arith)
                requires
                    n == k * d,
                    k < SIG_HI,
                    d > 0,
            ;
            lemma_half_even_multiple(k, d);
            assert(r == (k, 1nat));
        }
        assert(k * 1 == k);
    }
}

proof fn lemma_half_even_multiple(k: nat, d: nat)
    requires
        d > 0,
    ensures
        half_even(k * d, d) == k,
{
    vstd::arithmetic::div_mod::lemma_div_multiples_vanish(k as int, d as int);
    vstd::arithmetic::div_mod::lemma_mod_multiples_basic(k as int, d as int);
    assert(d * k == k * d) by (nonlinear_arith);
}

/// The single-precision value nearest to `n / d`.
fn round(n: u128, d: u128) -> (r: (u128, u128))
    requires
        0 < d < 0x1_0000_0000_0000_0000_0000_0000,
        n < 0x1_0000_0000_0000_0000_0000_0000,
    ensures
        (r.0 as nat, r.1 as nat) == nearest(n as nat, d as nat),
{
    if n == 0 {
        return (0, 1);
    }
    round_up_to(n, d)
}

fn round_up_to(n: u128, d: u128) -> (r: (u128, u128))
    requires
        0 < d < 0x1_0000_0000_0000_0000_0000_0000,
        0 < n < 0x1000_0000_0000_0000_0000_0000_0000_0000,
        n < d * SIG_HI || n < 0x1_0000_0000_0000_0000_0000_0000,
    ensures
        (r.0 as nat, r.1 as nat) == nearest(n as nat, d as nat),
    decreases
        (if n < d * SIG_LO {
            (d * SIG_LO - n) as nat
        } else if n >= d * SIG_HI {
            (n - d * SIG_HI + 1) as nat
        } else {
            0nat
        }),
{
    proof {
        lemma_nearest(n as nat, d as nat);
    }
    if n < d * 0x80_0000 {
        let r: (u128, u128) = round_up_to(2 * n, d);
        proof {
            lemma_nearest(2 * (n as nat), d as nat);
            let b = r.1 as nat;
            assert(b <= d * SIG_HI) by (nonlinear_arith)
                requires
                    b * (2 * (n as nat)) <= d * SIG_HI,
                    n > 0,
                    b >= 0,
            ;
        }
        (r.0, 2 * r.1)
    } else if n >= d * 0x100_0000 {
        let r: (u128, u128) = round_up_to(n, 2 * d);
        proof {
            lemma_nearest(n as nat, 2 * (d as nat));
            let a = r.0 as nat;
            assert(a <= 2 * n || a <= SIG_HI) by (nonlinear_arith)
                requires
                    a * (2 * (d as nat)) <= 2 * n || a <= SIG_HI,
                    d > 0,
            ;
        }
        (2 * r.0, r.1)
    } else {
        let q: u128 = n / d;
        let m: u128 = n % d;
        if 2 * m < d {
            (q, 1)
        } else if 2 * m > d {
            (q + 1, 1)
        } else {
            (q + q % 2, 1)
        }
    }
}

/// The bounds that a whole number's rounding keeps to.
proof fn lemma_nearest_whole(n: nat)
    requires
        0 < n <= 0x1_0000_0000,
    ensures
        0 < nearest(n, 1).0 <= 0x2_0000_0000,
        0 < nearest(n, 1).1 <= SIG_HI,
        n * nearest(n, 1).1 <= 2 * nearest(n, 1).0,
        nearest(n, 1).0 <= 2 * (n * nearest(n, 1).1),
{
    lemma_nearest(n, 1);
    let r = nearest(n, 1);
    assert(r.0 * 1 == r.0);
    assert(r.1 <= SIG_HI) by (nonlinear_arith)
        requires
            n >= 1,
            n < 1 * SIG_HI ==> r.1 * n <= 1 * SIG_HI,
            n >= 1 * SIG_HI ==> r.1 == 1,
            SIG_HI == 0x100_0000,
    ;
}

/// `side * (max / longest)`, every step rounded to single precision, and the
/// outcome rounded to a whole number.
pub open spec fn scaled(side: nat, longest: nat, max: nat) -> nat {
    let m = nearest(max, 1);
    let l = nearest(longest, 1);
    let scale = nearest(m.0 * l.1, m.1 * l.0);
    let s = nearest(side, 1);
    let p = nearest(s.0 * scale.0, s.1 * scale.1);
    half_up(p.0, p.1)
}

/// [`scaled`], capped at the largest `u32`.
pub fn scale(side: u32, longest: u32, max: u32) -> (r: u32)
    requires
        max <= longest,
        side <= longest,
    ensures
        r == (if scaled(side as nat, longest as nat, max as nat) <= u32::MAX {
            scaled(side as nat, longest as nat, max as nat)
        } else {
            u32::MAX as nat
        }),
{
    if side == 0 || max == 0 {
        proof {
            let m = nearest(max as nat, 1);
            let l = nearest(longest as nat, 1);
            let s = nearest(side as nat, 1);
            let k = nearest(m.0 * l.1, m.1 * l.0);
            if max == 0 {
                assert(m == (0nat, 1nat));
                assert(0 * l.1 == 0);
                assert(k == (0nat, 1nat));
                assert(s.0 * 0 == 0);
            } else {
                assert(s == (0nat, 1nat));
                assert(0 * k.0 == 0);
            }
            assert(nearest(s.0 * k.0, s.1 * k.1) == (0nat, 1nat));
            assert(half_up(0, 1) == 0) by (nonlinear_arith);
        }
        return 0;
    }
    let m: (u128, u128) = round(max as u128, 1);
    let l: (u128, u128) = round(longest as u128, 1);
    proof {
        lemma_nearest_whole(max as nat);
        lemma_nearest_whole(longest as nat);
        lemma_nearest_whole(side as nat);
        lemma_quotient(m.0 as nat, m.1 as nat, l.0 as nat, l.1 as nat, max as nat, longest as nat);
    }
    let k: (u128, u128) = round(m.0 * l.1, m.1 * l.0);
    let s: (u128, u128) = round(side as u128, 1);
    proof {
        assert(s.0 * k.0 <= 0x2_0000_0000 * 0x100_0000) by (nonlinear_arith)
            requires
                s.0 <= 0x2_0000_0000,
                k.0 <= 0x100_0000,
        ;
        assert(s.1 * k.1 <= 0x100_0000 * 0x800_0000_0000_0000) by (nonlinear_arith)
            requires
                s.1 <= 0x100_0000,
                k.1 <= 0x800_0000_0000_0000,
        ;
        assert(s.1 * k.1 > 0) by (nonlinear_arith)
            requires
                s.1 > 0,
                k.1 > 0,
        ;
        assert(s.0 * k.0 > 0) by (nonlinear_arith)
            requires
                s.0 > 0,
                k.0 > 0,
        ;
        lemma_nearest((s.0 * k.0) as nat, (s.1 * k.1) as nat);
        lemma_small((s.0 * k.0) as nat, (s.1 * k.1) as nat);
    }
    let p: (u128, u128) = round(s.0 * k.0, s.1 * k.1);
    let r: u128 = (2 * p.0 + p.1) / (2 * p.1);
    if r <= 0xffff_ffff {
        r as u32
    } else {
        0xffff_ffff
    }
}

/// A fraction of moderate size rounds to a fraction of moderate size.
proof fn lemma_small(n: nat, d: nat)
    requires
        0 < n < 0x1_0000_0000_0000_0000_0000_0000,
        0 < d < 0x1_0000_0000_0000_0000_0000_0000,
    ensures
        nearest(n, d).0 <= 0x1_0000_0000_0000_0000_0000_0000 * 2,
        nearest(n, d).1 <= 0x1_0000_0000_0000_0000_0000_0000 * SIG_HI,
{
    lemma_nearest(n, d);
    let r = nearest(n, d);
    if n < d * SIG_HI {
        assert(r.1 <= d * SIG_HI) by (nonlinear_arith)
            requires
                r.1 * n <= d * SIG_HI,
                n >= 1,
        ;
    } else {
        assert(r.0 <= 2 * n) by (nonlinear_arith)
            requires
                r.0 * d <= 2 * n,
                d >= 1,
        ;
    }
}

/// The quotient of two whole numbers' roundings, the first no larger than the
/// second, is a fraction of moderate size.
proof fn lemma_quotient(an: nat, ad: nat, bn: nat, bd: nat, a: nat, b: nat)
    requires
        0 < a <= b <= 0x1_0000_0000,
        (an, ad) == nearest(a, 1),
        (bn, bd) == nearest(b, 1),
    ensures
        0 < an * bd <= 0x2_0000_0000 * 0x100_0000,
        0 < ad * bn <= 0x2_0000_0000 * 0x100_0000,
        an * bd < (ad * bn) * SIG_HI,
        ad * bn <= (an * bd) * 0x8_0000_0000,
        0 < nearest(an * bd, ad * bn).0 <= SIG_HI,
        0 < nearest(an * bd, ad * bn).1 <= 0x800_0000_0000_0000,
{
    lemma_nearest_whole(a);
    lemma_nearest_whole(b);
    let n = an * bd;
    let d = ad * bn;
    assert(0 < n <= 0x2_0000_0000 * 0x100_0000) by (nonlinear_arith)
        requires
            n == an * bd,
            0 < an <= 0x2_0000_0000,
            0 < bd <= 0x100_0000,
    ;
    assert(0 < d <= 0x2_0000_0000 * 0x100_0000) by (nonlinear_arith)
        requires
            d == ad * bn,
            0 < bn <= 0x2_0000_0000,
            0 < ad <= 0x100_0000,
    ;
    // n / d is at most four.
    assert(n <= 4 * d) by (nonlinear_arith)
        requires
            n == an * bd,
            d == ad * bn,
            an <= 2 * (a * ad),
            b * bd <= 2 * bn,
            0 < a <= b,
            ad > 0,
            bd > 0,
    {
        assert(an * bd <= 2 * (a * ad) * bd);
        assert(2 * (a * ad) * bd <= 2 * ad * (b * bd)) by {
            assert(a * (ad * bd) <= b * (ad * bd));
        }
        assert(2 * ad * (b * bd) <= 2 * ad * (2 * bn));
    }
    // and at least one in two to the 35th.
    assert(d <= n * 0x8_0000_0000) by (nonlinear_arith)
        requires
            n == an * bd,
            d == ad * bn,
            bn <= 2 * (b * bd),
            a * ad <= 2 * an,
            a >= 1,
            b <= 0x1_0000_0000,
            ad > 0,
            bd > 0,
    {
        assert(ad <= 2 * an) by {
            assert(ad <= a * ad);
        }
        assert(bn <= 0x2_0000_0000 * bd) by {
            assert(b * bd <= 0x1_0000_0000 * bd);
        }
        assert(ad * bn <= (2 * an) * bn);
        assert((2 * an) * bn <= (2 * an) * (0x2_0000_0000 * bd));
    }
    lemma_nearest(n, d);
    let r = nearest(n, d);
    assert(r.1 <= 0x800_0000_0000_0000) by (nonlinear_arith)
        requires
            r.1 * n <= d * 0x100_0000,
            d <= n * 0x8_0000_0000,
            n > 0,
    {
        assert(r.1 * n <= n * 0x800_0000_0000_0000);
    }
}

/// The point `s` steps of `steps` along the way from `from` to `to`, every
/// operation of `from + (to - from) * (s / steps)` rounded to single precision,
/// and the outcome rounded to a whole number.
pub open spec fn along(from: int, to: int, s: nat, steps: nat) -> int {
    let sum = along_sum(from, to, s, steps);
    half_away(sum.0, sum.1)
}

/// The share of the way, rounded.
pub open spec fn share(s: nat, steps: nat) -> (nat, nat) {
    nearest(nearest(s, 1).0 * nearest(steps, 1).1, nearest(s, 1).1 * nearest(steps, 1).0)
}

/// The distance gone, rounded.
pub open spec fn gone(to_go: int, s: nat, steps: nat) -> (int, nat) {
    let d = nearest_signed(to_go, 1);
    let t = share(s, steps);
    nearest_signed(d.0 * t.0, d.1 * t.1)
}

/// The point reached, before it is rounded to a whole number.
pub open spec fn along_sum(from: int, to: int, s: nat, steps: nat) -> (int, nat) {
    let x = nearest_signed(from, 1);
    let p = gone(to - from, s, steps);
    nearest_signed(x.0 * p.1 + p.0 * x.1, x.1 * p.1)
}

/// [`nearest_signed`] of a whole number.
fn whole(n: i64) -> (r: (i128, i128))
    requires
        -0x1_0000_0000 <= n <= 0x1_0000_0000,
    ensures
        r.1 >= 0,
        (r.0 as int, r.1 as nat) == nearest_signed(n as int, 1),
        -0x2_0000_0000 <= r.0 <= 0x2_0000_0000,
        0 < r.1 <= SIG_HI,
        n != 0 ==> r.1 <= 2 * r.0 || r.1 <= -2 * r.0,
        n < 0 <==> r.0 < 0,
        n == 0 <==> r.0 == 0,
{
    if n == 0 {
        return (0, 1);
    }
    let m: u128 = if n < 0 {
        (-n) as u128
    } else {
        n as u128
    };
    let r: (u128, u128) = round(m, 1);
    proof {
        lemma_nearest_whole(m as nat);
        assert(r.1 <= 2 * r.0) by (nonlinear_arith)
            requires
                m * r.1 <= 2 * r.0,
                m >= 1,
                r.1 >= 0,
        ;
    }
    if n < 0 {
        (-(r.0 as i128), r.1 as i128)
    } else {
        (r.0 as i128, r.1 as i128)
    }
}

fn round_share(s: u64, steps: u64) -> (r: (u128, u128))
    requires
        s <= steps <= 0x1_0000_0000,
        steps > 0,
    ensures
        (r.0 as nat, r.1 as nat) == share(s as nat, steps as nat),
        r.0 <= SIG_HI,
        0 < r.1 <= 0x800_0000_0000_0000,
        s > 0 ==> r.0 > 0 && r.1 <= r.0 * 0x10_0000_0000,
        s == 0 ==> r.0 == 0,
{
    let n: (u128, u128) = round(steps as u128, 1);
    proof {
        lemma_nearest_whole(steps as nat);
    }
    if s == 0 {
        proof {
            assert(nearest(0, 1) == (0nat, 1nat));
            assert(0 * n.1 == 0);
        }
        return (0, 1);
    }
    let a: (u128, u128) = round(s as u128, 1);
    proof {
        lemma_nearest_whole(s as nat);
        lemma_quotient(a.0 as nat, a.1 as nat, n.0 as nat, n.1 as nat, s as nat, steps as nat);
        let num = (a.0 * n.1) as nat;
        let den = (a.1 * n.0) as nat;
        lemma_nearest(num, den);
        let r = nearest(num, den);
        assert(r.1 <= r.0 * 0x10_0000_0000) by (nonlinear_arith)
            requires
                -(num * r.1) <= (r.0 * den - num * r.1) * 0x100_0000,
                den <= num * 0x8_0000_0000,
                num > 0,
                r.0 > 0,
                r.1 > 0,
        {
            assert(num * r.1 <= 2 * (r.0 * den));
            assert(r.0 * den <= r.0 * (num * 0x8_0000_0000));
            assert(num * r.1 <= num * (r.0 * 0x10_0000_0000));
        }
    }
    round(a.0 * n.1, a.1 * n.0)
}

/// [`nearest_signed`].
fn round_signed(n: i128, d: i128) -> (r: (i128, i128))
    requires
        -0x1_0000_0000_0000_0000_0000_0000 < n < 0x1_0000_0000_0000_0000_0000_0000,
        0 < d < 0x1_0000_0000_0000_0000_0000_0000,
    ensures
        r.1 > 0,
        (r.0 as int, r.1 as nat) == nearest_signed(n as int, d as nat),
        -0x1_0000_0000_0000_0000_0000_0000 * 2 <= r.0 <= 0x1_0000_0000_0000_0000_0000_0000 * 2,
        r.1 <= 0x1_0000_0000_0000_0000_0000_0000 * SIG_HI,
{
    if n == 0 {
        return (0, 1);
    }
    let m: u128 = if n < 0 {
        (-n) as u128
    } else {
        n as u128
    };
    let r: (u128, u128) = round(m, d as u128);
    proof {
        lemma_small(m as nat, d as nat);
        lemma_nearest(m as nat, d as nat);
    }
    if n < 0 {
        (-(r.0 as i128), r.1 as i128)
    } else {
        (r.0 as i128, r.1 as i128)
    }
}

/// Where the distance gone stands, and how small its fraction is.
fn round_gone(to_go: i64, s: u64, steps: u64) -> (r: (i128, i128))
    requires
        s <= steps <= 0x1_0000_0000,
        steps > 0,
        -0x1_0000_0000 <= to_go <= 0x1_0000_0000,
    ensures
        r.1 > 0,
        (r.0 as int, r.1 as nat) == gone(to_go as int, s as nat, steps as nat),
        -0x400_0000_0000_0000 <= r.0 <= 0x400_0000_0000_0000,
        r.1 <= 0x2000_0000_0000_0000,
{
    let d: (i128, i128) = whole(to_go);
    let t: (u128, u128) = round_share(s, steps);
    let t0: i128 = t.0 as i128;
    let t1: i128 = t.1 as i128;
    assert(-0x2_0000_0000 * 0x100_0000 <= d.0 * t0 <= 0x2_0000_0000 * 0x100_0000)
        by (nonlinear_arith)
        requires
            -0x2_0000_0000 <= d.0 <= 0x2_0000_0000,
            0 <= t0 <= 0x100_0000,
    ;
    assert(0 < d.1 * t1 <= 0x100_0000 * 0x800_0000_0000_0000) by (nonlinear_arith)
        requires
            0 < d.1 <= 0x100_0000,
            0 < t1 <= 0x800_0000_0000_0000,
    ;
    let num: i128 = d.0 * t0;
    let den: i128 = d.1 * t1;
    let r: (i128, i128) = round_signed(num, den);
    proof {
        if num != 0 {
            let m = magnitude(num as int);
            let q = nearest(m, den as nat);
            lemma_nearest(m, den as nat);
            assert(to_go != 0 && s != 0) by (nonlinear_arith)
                requires
                    num == d.0 * t0,
                    num != 0,
                    to_go == 0 ==> d.0 == 0,
                    s == 0 ==> t0 == 0,
            ;
            let a = magnitude(d.0 as int);
            assert(m == a * t0) by (nonlinear_arith)
                requires
                    num == d.0 * t0,
                    t0 >= 0,
                    m == (if num < 0 { -num } else { num as int }),
                    a == (if d.0 < 0 { -d.0 } else { d.0 as int }),
            ;
            assert(den <= m * 0x20_0000_0000) by (nonlinear_arith)
                requires
                    den == d.1 * t1,
                    m == a * t0,
                    0 < d.1 <= 2 * a,
                    0 < t1 <= t0 * 0x10_0000_0000,
            {
                assert(d.1 * t1 <= (2 * a) * t1);
                assert((2 * a) * t1 <= (2 * a) * (t0 * 0x10_0000_0000));
            }
            assert(q.1 <= 0x2000_0000_0000_0000) by (nonlinear_arith)
                requires
                    den <= m * 0x20_0000_0000,
                    m < den * 0x100_0000 ==> q.1 * m <= den * 0x100_0000,
                    m >= den * 0x100_0000 ==> q.1 == 1,
                    m > 0,
            {
                if m < den * 0x100_0000 {
                    assert(q.1 * m <= m * 0x2000_0000_0000_0000);
                }
            }
            assert(q.0 <= 0x400_0000_0000_0000) by (nonlinear_arith)
                requires
                    m <= 0x2_0000_0000 * 0x100_0000,
                    m < den * 0x100_0000 ==> q.0 <= 0x100_0000,
                    m >= den * 0x100_0000 ==> q.0 * den <= 2 * m,
                    den >= 1,
            {
                if m >= den * 0x100_0000 {
                    assert(q.0 <= q.0 * den);
                }
            }
        }
    }
    r
}

/// [`along`], held to the range of `i32`.
pub fn step_along(from: i32, to: i32, s: u64, steps: u64) -> (r: i32)
    requires
        s <= steps <= 0x1_0000_0000,
        steps > 0,
    ensures
        r == ({
            let p = along(from as int, to as int, s as nat, steps as nat);
            if p < i32::MIN {
                i32::MIN as int
            } else if p > i32::MAX {
                i32::MAX as int
            } else {
                p
            }
        }),
{
    let x: (i128, i128) = whole(from as i64);
    let p: (i128, i128) = round_gone(to as i64 - from as i64, s, steps);
    assert(-0x2_0000_0000 * 0x2000_0000_0000_0000 <= x.0 * p.1 <= 0x2_0000_0000
        * 0x2000_0000_0000_0000) by (nonlinear_arith)
        requires
            -0x2_0000_0000 <= x.0 <= 0x2_0000_0000,
            0 < p.1 <= 0x2000_0000_0000_0000,
    ;
    assert(-0x400_0000_0000_0000 * 0x100_0000 <= p.0 * x.1 <= 0x400_0000_0000_0000 * 0x100_0000)
        by (nonlinear_arith)
        requires
            -0x400_0000_0000_0000 <= p.0 <= 0x400_0000_0000_0000,
            0 < x.1 <= 0x100_0000,
    ;
    assert(0 < x.1 * p.1 <= 0x100_0000 * 0x2000_0000_0000_0000) by (nonlinear_arith)
        requires
            0 < x.1 <= 0x100_0000,
            0 < p.1 <= 0x2000_0000_0000_0000,
    ;
    let sum: (i128, i128) = round_signed(x.0 * p.1 + p.0 * x.1, x.1 * p.1);
    if sum.0 < 0 {
        let m: i128 = (2 * (-sum.0) + sum.1) / (2 * sum.1);
        if m > 0x8000_0000 {
            i32::MIN
        } else {
            (-m) as i32
        }
    } else {
        let m: i128 = (2 * sum.0 + sum.1) / (2 * sum.1);
        if m > 0x7fff_ffff {
            i32::MAX
        } else {
            m as i32
        }
    }
}

} // verus!
