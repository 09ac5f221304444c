//! How far every texel of a region sits from the region's edge.
//!
//! Distances live on a grid one texel bigger all round, so a region running
//! off the edge of the canvas still has an edge there. They are kept squared:
//! that keeps them whole, and keeps the lower envelope a parabola.

use vstd::prelude::*;

use crate::grid::texel;

verus! {

/// Longest side a canvas can have here.
pub const LIMIT: u32 = 0x4000_0000;

/// Stands in for infinity: larger than any squared distance on the grid.
const FAR: i64 = 0x2000_0000_0000_0000;

/// Which of the texels outside a region its edge is measured to.
#[derive(Clone, Copy, PartialEq, Eq, Debug, Structural)]
pub enum Reach {
    /// All of them.
    Around,
    /// Those in the same column.
    Column,
    /// Those in the same row.
    Row,
}

/// Is this texel of the padded grid outside the selection? The ring round the
/// canvas always is.
pub open spec fn outside(selected: Seq<bool>, w: int, h: int, x: int, y: int) -> bool {
    !(1 <= x <= w && 1 <= y <= h && selected[texel(w, x - 1, y - 1)])
}

pub open spec fn counts(reach: Reach, x: int, y: int, ox: int, oy: int) -> bool {
    match reach {
        Reach::Around => true,
        Reach::Column => ox == x,
        Reach::Row => oy == y,
    }
}

pub open spec fn squared(x: int, y: int, ox: int, oy: int) -> int {
    (x - ox) * (x - ox) + (y - oy) * (y - oy)
}

/// A texel of the padded grid that the distance from `(x, y)` is measured to.
pub open spec fn measured_to(
    selected: Seq<bool>,
    w: int,
    h: int,
    reach: Reach,
    x: int,
    y: int,
    ox: int,
    oy: int,
) -> bool {
    0 <= ox < w + 2 && 0 <= oy < h + 2 && outside(selected, w, h, ox, oy) && counts(
        reach,
        x,
        y,
        ox,
        oy,
    )
}

/// Is `d` the squared distance from `(x, y)`, in padded coordinates, to the
/// nearest texel outside the selection?
pub open spec fn is_inset(
    selected: Seq<bool>,
    w: int,
    h: int,
    reach: Reach,
    x: int,
    y: int,
    d: int,
) -> bool {
    &&& exists|ox: int, oy: int| #[trigger]
        measured_to(selected, w, h, reach, x, y, ox, oy) && d == squared(x, y, ox, oy)
    &&& forall|ox: int, oy: int| #[trigger]
        measured_to(selected, w, h, reach, x, y, ox, oy) ==> d <= squared(x, y, ox, oy)
}

/// The squared distance from `(x, y)`, in padded coordinates, to the nearest
/// texel outside the selection.
pub open spec fn inset(
    selected: Seq<bool>,
    w: int,
    h: int,
    reach: Reach,
    x: int,
    y: int,
) -> int {
    choose|d: int| is_inset(selected, w, h, reach, x, y, d)
}

pub proof fn lemma_inset(
    selected: Seq<bool>,
    w: int,
    h: int,
    reach: Reach,
    x: int,
    y: int,
    d: int,
)
    requires
        is_inset(selected, w, h, reach, x, y, d),
    ensures
        inset(selected, w, h, reach, x, y) == d,
{
    let e = inset(selected, w, h, reach, x, y);
    assert(is_inset(selected, w, h, reach, x, y, e));
}

/// A field of squared distances over the padded grid.
pub open spec fn is_field(
    selected: Seq<bool>,
    w: int,
    h: int,
    reach: Reach,
    field: Seq<u64>,
) -> bool {
    &&& field.len() == (w + 2) * (h + 2)
    &&& forall|x: int, y: int|
        0 <= x < w + 2 && 0 <= y < h + 2 ==> #[trigger] field[texel(w + 2, x, y)] == inset(
            selected,
            w,
            h,
            reach,
            x,
            y,
        )
}

// ------------------------------------------------------------- the envelope

/// The parabola that stands on `p`, at `x`.
pub open spec fn parabola(f: Seq<i64>, p: int, x: int) -> int {
    (x - p) * (x - p) + f[p]
}

/// Is `d` the lowest of the parabolas at `x`?
pub open spec fn is_lowest(f: Seq<i64>, x: int, d: int) -> bool {
    &&& exists|p: int| 0 <= p < f.len() && d == #[trigger] parabola(f, p, x)
    &&& forall|p: int| 0 <= p < f.len() ==> d <= #[trigger] parabola(f, p, x)
}

spec fn in_range(f: Seq<i64>) -> bool {
    &&& 0 < f.len() <= LIMIT + 2
    &&& forall|p: int| 0 <= p < f.len() ==> 0 <= #[trigger] f[p] <= FAR
}

/// The last whole position at which the parabola on `p` is still no higher
/// than the one on `q`, further along.
spec fn is_crossing(f: Seq<i64>, p: int, q: int, s: int) -> bool {
    forall|x: int|
        #![trigger parabola(f, p, x)]
        #![trigger parabola(f, q, x)]
        x <= s <==> parabola(f, p, x) <= parabola(f, q, x)
}

fn crossing(f: &Vec<i64>, p: usize, q: usize) -> (s: i64)
    requires
        in_range(f@),
        p < q < f@.len(),
    ensures
        is_crossing(f@, p as int, q as int, s as int),
{
    let a: i64 = p as i64;
    let b: i64 = q as i64;
    assert(0 <= a * a <= 0x4000_0002 * 0x4000_0002) by (nonlinear_arith)
        requires
            0 <= a <= 0x4000_0002,
    ;
    assert(0 <= b * b <= 0x4000_0002 * 0x4000_0002) by (nonlinear_arith)
        requires
            0 <= b <= 0x4000_0002,
    ;
    let num: i64 = (f[q] + b * b) - (f[p] + a * a);
    let den: i64 = 2 * (b - a);
    let s: i64 = floor_div(num, den);
    proof {
        assert forall|x: int| x <= s <==> parabola(f@, p as int, x) <= parabola(f@, q as int, x) by {
            assert(parabola(f@, q as int, x) - parabola(f@, p as int, x) == num - den * x)
                by (nonlinear_arith)
                requires
                    parabola(f@, q as int, x) == (x - b) * (x - b) + f@[b as int],
                    parabola(f@, p as int, x) == (x - a) * (x - a) + f@[a as int],
                    num == (f@[b as int] + b * b) - (f@[a as int] + a * a),
                    den == 2 * (b - a),
            ;
            assert(x <= s <==> den * x <= num) by (nonlinear_arith)
                requires
                    den > 0,
                    den * s <= num < den * (s + 1),
            ;
        }
    }
    s
}

/// Division that rounds down.
fn floor_div(num: i64, den: i64) -> (q: i64)
    requires
        den > 0,
        -0x7000_0000_0000_0000 < num < 0x7000_0000_0000_0000,
        den < 0x1_0000_0000,
    ensures
        den * q <= num < den * (q + 1),
{
    if num >= 0 {
        let q: i64 = num / den;
        proof {
            vstd::arithmetic::div_mod::lemma_fundamental_div_mod(num as int, den as int);
            assert(den * (q + 1) == den * q + den) by (nonlinear_arith);
        }
        q
    } else {
        let m: i64 = (-num) + (den - 1);
        let r: i64 = m / den;
        proof {
            vstd::arithmetic::div_mod::lemma_fundamental_div_mod(m as int, den as int);
            assert(den * (-r) == -(den * r)) by (nonlinear_arith);
            assert(den * (-r + 1) == -(den * r) + den) by (nonlinear_arith);
            assert(0 <= r <= m) by (nonlinear_arith)
                requires
                    den * r <= m,
                    m < den * r + den,
                    m >= 0,
                    den > 0,
            ;
        }
        -r
    }
}

/// Some parabola of the envelope is no higher than the one on `p`, at `x`.
spec fn covered(f: Seq<i64>, v: Seq<usize>, p: int, x: int) -> bool {
    exists|j: int| 0 <= j < v.len() && parabola(f, #[trigger] v[j] as int, x) <= parabola(f, p, x)
}

/// The envelope of the parabolas on the first `n` positions: their feet in
/// order, and the last position each is no higher than the next.
spec fn is_envelope(f: Seq<i64>, v: Seq<usize>, z: Seq<i64>, n: int) -> bool {
    &&& is_chain(f, v, z, n)
    &&& forall|p: int, x: int| 0 <= p < n ==> #[trigger] covered(f, v, p, x)
}

spec fn is_chain(f: Seq<i64>, v: Seq<usize>, z: Seq<i64>, n: int) -> bool {
    &&& v.len() == z.len()
    &&& v.len() > 0
    &&& forall|j: int| 0 <= j < v.len() ==> (#[trigger] v[j]) < n
    &&& forall|i: int, j: int| 0 <= i < j < v.len() ==> v[i] < v[j]
    &&& forall|j: int|
        1 <= j < v.len() ==> is_crossing(f, v[j - 1] as int, v[j] as int, #[trigger] z[j] as int)
    &&& forall|i: int, j: int| 1 <= i < j < v.len() ==> z[i] < z[j]
}

/// Past the parabola the envelope ends on, which a new one on `q` overtakes
/// no later than it takes over itself.
proof fn lemma_pop(f: Seq<i64>, v: Seq<usize>, z: Seq<i64>, q: int, s: int)
    requires
        is_chain(f, v, z, q),
        v.len() > 1,
        is_crossing(f, v.last() as int, q, s),
        s <= z.last(),
        forall|p: int, x: int|
            0 <= p < q ==> #[trigger] covered(f, v, p, x) || parabola(f, q, x) <= parabola(f, p, x),
    ensures
        forall|p: int, x: int|
            0 <= p < q ==> #[trigger] covered(f, v.drop_last(), p, x) || parabola(f, q, x)
                <= parabola(f, p, x),
        is_chain(f, v.drop_last(), z.drop_last(), q),
{
    let shorter = v.drop_last();
    let k = v.len() - 1;
    assert forall|p: int, x: int| 0 <= p < q implies #[trigger] covered(f, shorter, p, x)
        || parabola(f, q, x) <= parabola(f, p, x) by {
        assert(covered(f, v, p, x) || parabola(f, q, x) <= parabola(f, p, x));
        if !(parabola(f, q, x) <= parabola(f, p, x)) {
            let j = choose|j: int|
                0 <= j < v.len() && parabola(f, #[trigger] v[j] as int, x) <= parabola(f, p, x);
            if j == k {
                if x <= z[k] {
                    assert(is_crossing(f, v[k - 1] as int, v[k] as int, z[k] as int));
                    assert(parabola(f, v[k - 1] as int, x) <= parabola(f, v[k] as int, x));
                    assert(shorter[k - 1] == v[k - 1]);
                } else {
                    assert(!(parabola(f, v[k] as int, x) <= parabola(f, q, x)));
                }
            } else {
                assert(shorter[j] == v[j]);
            }
        }
    }
    let shorter_z = z.drop_last();
    assert forall|j: int| 1 <= j < shorter.len() implies is_crossing(
        f,
        shorter[j - 1] as int,
        shorter[j] as int,
        #[trigger] shorter_z[j] as int,
    ) by {
        assert(is_crossing(f, v[j - 1] as int, v[j] as int, z[j] as int));
    }
}

/// At `x`, the envelope is lowest where its pieces change over.
proof fn lemma_piece(f: Seq<i64>, v: Seq<usize>, z: Seq<i64>, n: int, k: int, x: int, j: int)
    requires
        is_chain(f, v, z, n),
        0 <= k < v.len(),
        k > 0 ==> z[k] < x,
        k + 1 < v.len() ==> x <= z[k + 1],
        0 <= j < v.len(),
    ensures
        parabola(f, v[k] as int, x) <= parabola(f, v[j] as int, x),
    decreases
        (if j < k {
            k - j
        } else {
            j - k
        }),
{
    if j < k {
        lemma_piece(f, v, z, n, k, x, j + 1);
        assert(z[j + 1] <= z[k]);
        assert(is_crossing(f, v[j + 1 - 1] as int, v[j + 1] as int, z[j + 1] as int));
        assert(!(parabola(f, v[j] as int, x) <= parabola(f, v[j + 1] as int, x)));
    } else if j > k {
        lemma_piece(f, v, z, n, k, x, j - 1);
        assert(z[k + 1] <= z[j]);
        assert(is_crossing(f, v[j - 1] as int, v[j] as int, z[j] as int));
        assert(parabola(f, v[j - 1] as int, x) <= parabola(f, v[j] as int, x));
    }
}

/// The lower envelope of the parabolas that stand on a sampled function: one
/// sweep to find its pieces, one to read it off.
pub fn envelope(f: &Vec<i64>) -> (d: Vec<i64>)
    requires
        0 < f@.len() <= LIMIT + 2,
        forall|p: int| 0 <= p < f@.len() ==> 0 <= #[trigger] f@[p] <= 0x2000_0000_0000_0000,
    ensures
        d@.len() == f@.len(),
        forall|x: int| 0 <= x < f@.len() ==> is_lowest(f@, x, #[trigger] d@[x] as int),
{
    let n: usize = f.len();
    let mut v: Vec<usize> = Vec::new();
    let mut z: Vec<i64> = Vec::new();
    v.push(0);
    z.push(0);
    assert forall|p: int, x: int| 0 <= p < 1 implies #[trigger] covered(f@, v@, p, x) by {
        assert(v@[0] == 0);
    }
    let mut q: usize = 1;
    while q < n
        invariant
            1 <= q <= n,
            n == f@.len(),
            in_range(f@),
            is_envelope(f@, v@, z@, q as int),
        decreases n - q,
    {
        let mut s: i64 = crossing(f, v[v.len() - 1], q);
        assert forall|p: int, x: int| 0 <= p < q implies #[trigger] covered(f@, v@, p, x)
            || parabola(f@, q as int, x) <= parabola(f@, p, x) by {}
        while v.len() > 1 && s <= z[z.len() - 1]
            invariant
                1 <= q < n,
                n == f@.len(),
                in_range(f@),
                is_chain(f@, v@, z@, q as int),
                is_crossing(f@, v@.last() as int, q as int, s as int),
                forall|p: int, x: int|
                    0 <= p < q ==> #[trigger] covered(f@, v@, p, x) || parabola(f@, q as int, x)
                        <= parabola(f@, p, x),
            decreases v@.len(),
        {
            proof {
                lemma_pop(f@, v@, z@, q as int, s as int);
            }
            let ghost before = v@;
            let ghost before_z = z@;
            v.pop();
            z.pop();
            assert(v@ =~= before.drop_last());
            assert(z@ =~= before_z.drop_last());
            s = crossing(f, v[v.len() - 1], q);
        }
        let ghost short = v@;
        let ghost short_z = z@;
        v.push(q);
        z.push(s);
        proof {
            assert forall|j: int| 1 <= j < v@.len() implies is_crossing(
                f@,
                v@[j - 1] as int,
                v@[j] as int,
                #[trigger] z@[j] as int,
            ) by {
                if j < short.len() {
                    assert(is_crossing(f@, short[j - 1] as int, short[j] as int, short_z[j] as int));
                }
            }
            assert forall|i: int, j: int| 1 <= i < j < v@.len() implies z@[i] < z@[j] by {
                if j == short.len() {
                    assert(short_z[i] <= short_z.last());
                }
            }
            assert forall|p: int, x: int| 0 <= p < q + 1 implies #[trigger] covered(f@, v@, p, x) by {
                assert(v@[short.len() as int] == q);
                if p < q {
                    assert(covered(f@, short, p, x) || parabola(f@, q as int, x) <= parabola(
                        f@,
                        p,
                        x,
                    ));
                    if covered(f@, short, p, x) {
                        let j = choose|j: int|
                            0 <= j < short.len() && parabola(f@, #[trigger] short[j] as int, x)
                                <= parabola(f@, p, x);
                        assert(v@[j] == short[j]);
                    }
                }
            }
        }
        q += 1;
    }
    let mut d: Vec<i64> = Vec::new();
    let mut k: usize = 0;
    let mut x: usize = 0;
    while x < n
        invariant
            x <= n,
            n == f@.len(),
            in_range(f@),
            is_envelope(f@, v@, z@, n as int),
            k < v@.len(),
            k > 0 ==> z@[k as int] < x,
            d@.len() == x,
            forall|i: int| 0 <= i < x ==> is_lowest(f@, i, #[trigger] d@[i] as int),
        decreases n - x,
    {
        while k < v.len() - 1 && z[k + 1] < x as i64
            invariant
                x < n,
                n == f@.len(),
                in_range(f@),
                is_envelope(f@, v@, z@, n as int),
                k < v@.len(),
                k > 0 ==> z@[k as int] < x,
            decreases v@.len() - k,
        {
            k += 1;
        }
        let p: usize = v[k];
        let step: i64 = x as i64 - p as i64;
        assert(0 <= step * step <= 0x4000_0002 * 0x4000_0002) by (nonlinear_arith)
            requires
                -0x4000_0002 <= step <= 0x4000_0002,
        ;
        let here: i64 = step * step + f[p];
        proof {
            assert(here == parabola(f@, p as int, x as int));
            assert forall|r: int| 0 <= r < f@.len() implies here <= #[trigger] parabola(
                f@,
                r,
                x as int,
            ) by {
                assert(covered(f@, v@, r, x as int));
                let j = choose|j: int|
                    0 <= j < v@.len() && parabola(f@, #[trigger] v@[j] as int, x as int)
                        <= parabola(f@, r, x as int);
                lemma_piece(f@, v@, z@, n as int, k as int, x as int, j);
            }
            assert(is_lowest(f@, x as int, here as int));
        }
        d.push(here);
        x += 1;
    }
    d
}

// --------------------------------------------------------------- the fields

/// Does a padded grid for this canvas fit in memory?
pub open spec fn fits(w: u32, h: u32) -> bool {
    w <= LIMIT && h <= LIMIT && (w + 2) * (h + 2) <= usize::MAX
}

/// Is this texel of the padded grid in the selection?
fn inside(selected: &[bool], w: u32, h: u32, x: usize, y: usize) -> (r: bool)
    requires
        selected@.len() == w * h,
    ensures
        r == !outside(selected@, w as int, h as int, x as int, y as int),
{
    if x >= 1 && y >= 1 && x <= w as usize && y <= h as usize {
        proof {
            crate::grid::lemma_texel(w as int, h as int, x - 1, y - 1);
            assert(0 <= (y - 1) * w) by (nonlinear_arith)
                requires
                    y >= 1,
                    w >= 0,
            ;
            assert(selected.len() == selected@.len());
        }
        selected[(y - 1) * w as usize + (x - 1)]
    } else {
        false
    }
}

/// Read a column-by-column or row-by-row table into the flat field.
fn flatten(table: &Vec<Vec<u64>>, pw: usize, ph: usize, by_column: bool) -> (field: Vec<u64>)
    requires
        pw > 0,
        pw * ph <= usize::MAX,
        by_column ==> table@.len() == pw && forall|x: int|
            0 <= x < pw ==> (#[trigger] table@[x])@.len() == ph,
        !by_column ==> table@.len() == ph && forall|y: int|
            0 <= y < ph ==> (#[trigger] table@[y])@.len() == pw,
    ensures
        field@.len() == pw * ph,
        forall|x: int, y: int|
            0 <= x < pw && 0 <= y < ph ==> #[trigger] field@[texel(pw as int, x, y)] == (
            if by_column {
                table@[x]@[y]
            } else {
                table@[y]@[x]
            }),
{
    let n: usize = pw * ph;
    let mut field: Vec<u64> = Vec::new();
    let mut x: usize = 0;
    let mut y: usize = 0;
    while field.len() < n
        invariant
            n == pw * ph,
            pw > 0,
            x < pw,
            field@.len() == texel(pw as int, x as int, y as int),
            field@.len() <= n,
            y <= ph,
            by_column ==> table@.len() == pw && forall|x: int|
                0 <= x < pw ==> (#[trigger] table@[x])@.len() == ph,
            !by_column ==> table@.len() == ph && forall|y: int|
                0 <= y < ph ==> (#[trigger] table@[y])@.len() == pw,
            forall|i: int|
                0 <= i < field@.len() ==> #[trigger] field@[i] == (if by_column {
                    table@[i % pw as int]@[i / pw as int]
                } else {
                    table@[i / pw as int]@[i % pw as int]
                }),
        decreases n - field@.len(),
    {
        proof {
            assert(y < ph) by (nonlinear_arith)
                requires
                    y * pw + x < pw * ph,
                    x >= 0,
                    y >= 0,
                    pw > 0,
            ;
            crate::grid::lemma_texel(pw as int, ph as int, x as int, y as int);
        }
        let d: u64 = if by_column {
            assert(table@[x as int]@.len() == ph);
            table[x][y]
        } else {
            assert(table@[y as int]@.len() == pw);
            table[y][x]
        };
        field.push(d);
        if x + 1 < pw {
            x += 1;
        } else {
            assert((y + 1) * pw == y * pw + pw) by (nonlinear_arith);
            x = 0;
            y += 1;
        }
    }
    proof {
        assert forall|x: int, y: int| 0 <= x < pw && 0 <= y < ph implies #[trigger] field@[texel(
            pw as int,
            x,
            y,
        )] == (if by_column {
            table@[x]@[y]
        } else {
            table@[y]@[x]
        }) by {
            crate::grid::lemma_texel(pw as int, ph as int, x, y);
        }
    }
    field
}

/// The squared distance along one row of the grid to the nearest texel of it
/// that is outside the selection.
spec fn is_row_inset(
    selected: Seq<bool>,
    w: int,
    h: int,
    x: int,
    y: int,
    d: int,
) -> bool {
    &&& exists|c: int|
        0 <= c < w + 2 && #[trigger] outside(selected, w, h, c, y) && d == (x - c) * (x - c)
    &&& forall|c: int|
        0 <= c < w + 2 && #[trigger] outside(selected, w, h, c, y) ==> d <= (x - c) * (x - c)
}

/// One row of the first pass.
fn row_pass(selected: &[bool], w: u32, h: u32, y: usize) -> (d: Vec<i64>)
    requires
        selected@.len() == w * h,
        w <= LIMIT,
        h <= LIMIT,
        y < h + 2,
    ensures
        d@.len() == w + 2,
        forall|x: int|
            0 <= x < w + 2 ==> is_row_inset(
                selected@,
                w as int,
                h as int,
                x,
                y as int,
                #[trigger] d@[x] as int,
            ) && d@[x] <= 0x1000_0001_0000_0004,
{
    let pw: usize = w as usize + 2;
    let mut f: Vec<i64> = Vec::new();
    let mut x: usize = 0;
    while x < pw
        invariant
            x <= pw,
            pw == w + 2,
            w <= LIMIT,
            selected@.len() == w * h,
            f@.len() == x,
            forall|c: int|
                0 <= c < x ==> #[trigger] f@[c] == (if outside(
                    selected@,
                    w as int,
                    h as int,
                    c,
                    y as int,
                ) {
                    0i64
                } else {
                    FAR
                }),
        decreases pw - x,
    {
        f.push(
            if inside(selected, w, h, x, y) {
                FAR
            } else {
                0
            },
        );
        x += 1;
    }
    let d: Vec<i64> = envelope(&f);
    proof {
        assert forall|x: int| 0 <= x < w + 2 implies is_row_inset(
            selected@,
            w as int,
            h as int,
            x,
            y as int,
            #[trigger] d@[x] as int,
        ) && d@[x] <= 0x1000_0001_0000_0004 by {
            let v = d@[x] as int;
            assert(is_lowest(f@, x, v));
            // The ring is outside, so the nearest texel outside is on the grid.
            assert(outside(selected@, w as int, h as int, 0, y as int));
            assert(f@[0] == 0);
            assert(v <= parabola(f@, 0, x));
            assert(x * x <= 0x4000_0002 * 0x4000_0002) by (nonlinear_arith)
                requires
                    0 <= x <= 0x4000_0002,
            ;
            assert((x - 0) * (x - 0) == x * x);
            let p = choose|p: int| 0 <= p < f@.len() && v == #[trigger] parabola(f@, p, x);
            assert((x - p) * (x - p) >= 0) by (nonlinear_arith);
            assert(f@[p] == 0);
            assert(outside(selected@, w as int, h as int, p, y as int));
            assert(v == (x - p) * (x - p));
            assert forall|c: int|
                0 <= c < w + 2 && #[trigger] outside(
                    selected@,
                    w as int,
                    h as int,
                    c,
                    y as int,
                ) implies v <= (x - c) * (x - c) by {
                assert(v <= parabola(f@, c, x));
                assert(f@[c] == 0);
            }
        }
    }
    d
}

/// One column of the second pass.
fn column_pass(selected: &[bool], w: u32, h: u32, rows: &Vec<Vec<i64>>, x: usize) -> (d: Vec<u64>)
    requires
        selected@.len() == w * h,
        w <= LIMIT,
        h <= LIMIT,
        x < w + 2,
        rows@.len() == h + 2,
        forall|y: int| 0 <= y < h + 2 ==> (#[trigger] rows@[y])@.len() == w + 2,
        forall|c: int, y: int|
            0 <= c < w + 2 && 0 <= y < h + 2 ==> is_row_inset(
                selected@,
                w as int,
                h as int,
                c,
                y,
                #[trigger] rows@[y]@[c] as int,
            ) && rows@[y]@[c] <= 0x1000_0001_0000_0004,
    ensures
        d@.len() == h + 2,
        forall|y: int|
            0 <= y < h + 2 ==> is_inset(
                selected@,
                w as int,
                h as int,
                Reach::Around,
                x as int,
                y,
                #[trigger] d@[y] as int,
            ),
{
    let ph: usize = h as usize + 2;
    let mut f: Vec<i64> = Vec::new();
    let mut r: usize = 0;
    while r < ph
        invariant
            r <= ph,
            ph == h + 2,
            x < w + 2,
            rows@.len() == h + 2,
            forall|y: int| 0 <= y < h + 2 ==> (#[trigger] rows@[y])@.len() == w + 2,
            f@.len() == r,
            forall|y: int| 0 <= y < r ==> #[trigger] f@[y] == rows@[y]@[x as int],
        decreases ph - r,
    {
        assert(rows@[r as int]@.len() == w + 2);
        f.push(rows[r][x]);
        r += 1;
    }
    proof {
        assert forall|y: int| 0 <= y < f@.len() implies 0 <= #[trigger] f@[y]
            <= 0x2000_0000_0000_0000 by {
            let v = rows@[y]@[x as int] as int;
            assert(is_row_inset(selected@, w as int, h as int, x as int, y, v));
            let c = choose|c: int|
                0 <= c < w + 2 && #[trigger] outside(selected@, w as int, h as int, c, y) && v == (x
                    - c) * (x - c);
            assert((x - c) * (x - c) >= 0) by (nonlinear_arith);
        }
    }
    let low: Vec<i64> = envelope(&f);
    let mut d: Vec<u64> = Vec::new();
    let mut y: usize = 0;
    while y < ph
        invariant
            y <= ph,
            ph == h + 2,
            x < w + 2,
            low@.len() == ph,
            f@.len() == ph,
            forall|i: int| 0 <= i < ph ==> is_lowest(f@, i, #[trigger] low@[i] as int),
            forall|i: int| 0 <= i < ph ==> #[trigger] f@[i] == rows@[i]@[x as int],
            forall|i: int| 0 <= i < ph ==> 0 <= #[trigger] f@[i],
            forall|c: int, y: int|
                0 <= c < w + 2 && 0 <= y < h + 2 ==> is_row_inset(
                    selected@,
                    w as int,
                    h as int,
                    c,
                    y,
                    #[trigger] rows@[y]@[c] as int,
                ) && rows@[y]@[c] <= 0x1000_0001_0000_0004,
            d@.len() == y,
            forall|i: int|
                0 <= i < y ==> is_inset(
                    selected@,
                    w as int,
                    h as int,
                    Reach::Around,
                    x as int,
                    i,
                    #[trigger] d@[i] as int,
                ),
        decreases ph - y,
    {
        let v: i64 = low[y];
        proof {
            lemma_column(selected@, w as int, h as int, f@, x as int, y as int, v as int);
        }
        d.push(v as u64);
        y += 1;
    }
    d
}

proof fn lemma_column(
    selected: Seq<bool>,
    w: int,
    h: int,
    f: Seq<i64>,
    x: int,
    y: int,
    v: int,
)
    requires
        w >= 0,
        h >= 0,
        f.len() == h + 2,
        0 <= x < w + 2,
        0 <= y < h + 2,
        forall|r: int|
            0 <= r < h + 2 ==> is_row_inset(selected, w, h, x, r, #[trigger] f[r] as int),
        is_lowest(f, y, v),
        forall|r: int| 0 <= r < h + 2 ==> 0 <= #[trigger] f[r],
    ensures
        v >= 0,
        is_inset(selected, w, h, Reach::Around, x, y, v),
{
    let r = choose|r: int| 0 <= r < f.len() && v == #[trigger] parabola(f, r, y);
    assert((y - r) * (y - r) >= 0) by (nonlinear_arith);
    let d = f[r] as int;
    assert(is_row_inset(selected, w, h, x, r, d));
    let c = choose|c: int|
        0 <= c < w + 2 && #[trigger] outside(selected, w, h, c, r) && d == (x - c) * (x - c);
    assert(measured_to(selected, w, h, Reach::Around, x, y, c, r));
    assert(v == squared(x, y, c, r));
    assert forall|ox: int, oy: int| #[trigger]
        measured_to(selected, w, h, Reach::Around, x, y, ox, oy) implies v <= squared(
        x,
        y,
        ox,
        oy,
    ) by {
        assert(v <= parabola(f, oy, y));
        assert(is_row_inset(selected, w, h, x, oy, f[oy] as int));
        assert(outside(selected, w, h, ox, oy));
    }
}

/// The exact squared distance from every texel of the padded grid to the
/// nearest unselected one: the lower envelope along the rows, then down the
/// columns of what that leaves.
pub fn euclidean_distance(selected: &[bool], w: u32, h: u32) -> (field: Vec<u64>)
    requires
        selected@.len() == w * h,
        fits(w, h),
    ensures
        is_field(selected@, w as int, h as int, Reach::Around, field@),
{
    let pw: usize = w as usize + 2;
    let ph: usize = h as usize + 2;
    let mut rows: Vec<Vec<i64>> = Vec::new();
    let mut y: usize = 0;
    while y < ph
        invariant
            y <= ph,
            ph == h + 2,
            w <= LIMIT,
            h <= LIMIT,
            selected@.len() == w * h,
            rows@.len() == y,
            forall|r: int| 0 <= r < y ==> (#[trigger] rows@[r])@.len() == w + 2,
            forall|c: int, r: int|
                0 <= c < w + 2 && 0 <= r < y ==> is_row_inset(
                    selected@,
                    w as int,
                    h as int,
                    c,
                    r,
                    #[trigger] rows@[r]@[c] as int,
                ) && rows@[r]@[c] <= 0x1000_0001_0000_0004,
        decreases ph - y,
    {
        let d: Vec<i64> = row_pass(selected, w, h, y);
        rows.push(d);
        y += 1;
    }
    let mut columns: Vec<Vec<u64>> = Vec::new();
    let mut x: usize = 0;
    while x < pw
        invariant
            x <= pw,
            pw == w + 2,
            w <= LIMIT,
            h <= LIMIT,
            selected@.len() == w * h,
            rows@.len() == h + 2,
            forall|r: int| 0 <= r < h + 2 ==> (#[trigger] rows@[r])@.len() == w + 2,
            forall|c: int, r: int|
                0 <= c < w + 2 && 0 <= r < h + 2 ==> is_row_inset(
                    selected@,
                    w as int,
                    h as int,
                    c,
                    r,
                    #[trigger] rows@[r]@[c] as int,
                ) && rows@[r]@[c] <= 0x1000_0001_0000_0004,
            columns@.len() == x,
            forall|c: int| 0 <= c < x ==> (#[trigger] columns@[c])@.len() == h + 2,
            forall|c: int, r: int|
                0 <= c < x && 0 <= r < h + 2 ==> is_inset(
                    selected@,
                    w as int,
                    h as int,
                    Reach::Around,
                    c,
                    r,
                    #[trigger] columns@[c]@[r] as int,
                ),
        decreases pw - x,
    {
        let d: Vec<u64> = column_pass(selected, w, h, &rows, x);
        columns.push(d);
        x += 1;
    }
    let field: Vec<u64> = flatten(&columns, pw, ph, true);
    proof {
        assert forall|x: int, y: int|
            0 <= x < w + 2 && 0 <= y < h + 2 implies #[trigger] field@[texel(w + 2, x, y)] == inset(
            selected@,
            w as int,
            h as int,
            Reach::Around,
            x,
            y,
        ) by {
            lemma_inset(
                selected@,
                w as int,
                h as int,
                Reach::Around,
                x,
                y,
                columns@[x]@[y] as int,
            );
        }
    }
    field
}

/// The distance along a line to the nearest place of it that is not marked.
spec fn is_gap(line: Seq<bool>, b: int, d: int) -> bool {
    &&& exists|c: int|
        0 <= c < line.len() && !(#[trigger] line[c]) && (d == b - c || d == c - b)
    &&& forall|c: int|
        0 <= c < line.len() && !(#[trigger] line[c]) ==> d <= b - c || d <= c - b
}

/// A sweep out and a sweep back: each place keeps the shorter run to a gap.
fn sweep(line: &Vec<bool>) -> (d: Vec<u64>)
    requires
        0 < line@.len() <= LIMIT + 2,
        !line@[0],
        !line@[line@.len() - 1],
    ensures
        d@.len() == line@.len(),
        forall|b: int|
            0 <= b < line@.len() ==> is_gap(line@, b, #[trigger] d@[b] as int) && d@[b] <= LIMIT + 2,
{
    let n: usize = line.len();
    let mut out: Vec<u64> = Vec::new();
    let mut run: u64 = 0;
    let mut b: usize = 0;
    while b < n
        invariant
            b <= n,
            n == line@.len(),
            n <= LIMIT + 2,
            !line@[0],
            out@.len() == b,
            run <= b,
            b > 0 ==> run == out@[b - 1],
            forall|i: int|
                0 <= i < b ==> #[trigger] out@[i] <= i && !line@[i - out@[i]] && forall|c: int|
                    i - out@[i] < c <= i ==> line@[c],
        decreases n - b,
    {
        run = if line[b] {
            run + 1
        } else {
            0
        };
        out.push(run);
        b += 1;
    }
    let mut back: Vec<u64> = Vec::new();
    run = 0;
    let mut k: usize = 0;
    while k < n
        invariant
            k <= n,
            n == line@.len(),
            n <= LIMIT + 2,
            !line@[n - 1],
            back@.len() == k,
            run <= k,
            k > 0 ==> run == back@[k - 1],
            forall|j: int|
                0 <= j < k ==> #[trigger] back@[j] <= j && !line@[n - 1 - j + back@[j]] && forall|
                    c: int,
                |
                    n - 1 - j <= c < n - 1 - j + back@[j] ==> line@[c],
        decreases n - k,
    {
        run = if line[n - 1 - k] {
            run + 1
        } else {
            0
        };
        back.push(run);
        k += 1;
    }
    let mut d: Vec<u64> = Vec::new();
    b = 0;
    while b < n
        invariant
            b <= n,
            n == line@.len(),
            n <= LIMIT + 2,
            out@.len() == n,
            back@.len() == n,
            forall|i: int|
                0 <= i < n ==> #[trigger] out@[i] <= i && !line@[i - out@[i]] && forall|c: int|
                    i - out@[i] < c <= i ==> line@[c],
            forall|j: int|
                0 <= j < n ==> #[trigger] back@[j] <= j && !line@[n - 1 - j + back@[j]] && forall|
                    c: int,
                |
                    n - 1 - j <= c < n - 1 - j + back@[j] ==> line@[c],
            d@.len() == b,
            forall|i: int|
                0 <= i < b ==> is_gap(line@, i, #[trigger] d@[i] as int) && d@[i] <= LIMIT + 2,
        decreases n - b,
    {
        let before: u64 = out[b];
        let after: u64 = back[n - 1 - b];
        let shorter: u64 = if after < before {
            after
        } else {
            before
        };
        proof {
            let c = if after < before {
                b + after
            } else {
                b - before
            };
            assert(!line@[c]);
            assert(is_gap(line@, b as int, shorter as int));
        }
        d.push(shorter);
        b += 1;
    }
    d
}

/// One column or one row of the axis field.
fn axis_line(selected: &[bool], w: u32, h: u32, vertical: bool, a: usize) -> (d: Vec<u64>)
    requires
        selected@.len() == w * h,
        w <= LIMIT,
        h <= LIMIT,
        vertical ==> a < w + 2,
        !vertical ==> a < h + 2,
    ensures
        vertical ==> d@.len() == h + 2 && forall|y: int|
            0 <= y < h + 2 ==> is_inset(
                selected@,
                w as int,
                h as int,
                Reach::Column,
                a as int,
                y,
                #[trigger] d@[y] as int,
            ),
        !vertical ==> d@.len() == w + 2 && forall|x: int|
            0 <= x < w + 2 ==> is_inset(
                selected@,
                w as int,
                h as int,
                Reach::Row,
                x,
                a as int,
                #[trigger] d@[x] as int,
            ),
{
    let inner: usize = if vertical {
        h as usize + 2
    } else {
        w as usize + 2
    };
    let mut line: Vec<bool> = Vec::new();
    let mut b: usize = 0;
    while b < inner
        invariant
            b <= inner,
            selected@.len() == w * h,
            line@.len() == b,
            forall|i: int|
                0 <= i < b ==> #[trigger] line@[i] == !(if vertical {
                    outside(selected@, w as int, h as int, a as int, i)
                } else {
                    outside(selected@, w as int, h as int, i, a as int)
                }),
        decreases inner - b,
    {
        line.push(
            if vertical {
                inside(selected, w, h, a, b)
            } else {
                inside(selected, w, h, b, a)
            },
        );
        b += 1;
    }
    let runs: Vec<u64> = sweep(&line);
    let mut d: Vec<u64> = Vec::new();
    b = 0;
    while b < inner
        invariant
            b <= inner,
            inner == (if vertical {
                h + 2
            } else {
                w + 2
            }),
            line@.len() == inner,
            runs@.len() == inner,
            vertical ==> a < w + 2,
            !vertical ==> a < h + 2,
            forall|i: int|
                0 <= i < inner ==> #[trigger] line@[i] == !(if vertical {
                    outside(selected@, w as int, h as int, a as int, i)
                } else {
                    outside(selected@, w as int, h as int, i, a as int)
                }),
            forall|i: int|
                0 <= i < inner ==> is_gap(line@, i, #[trigger] runs@[i] as int) && runs@[i] <= LIMIT
                    + 2,
            d@.len() == b,
            forall|i: int|
                0 <= i < b ==> is_inset(
                    selected@,
                    w as int,
                    h as int,
                    if vertical {
                        Reach::Column
                    } else {
                        Reach::Row
                    },
                    if vertical {
                        a as int
                    } else {
                        i
                    },
                    if vertical {
                        i
                    } else {
                        a as int
                    },
                    #[trigger] d@[i] as int,
                ),
        decreases inner - b,
    {
        let r: u64 = runs[b];
        assert(r * r <= 0x4000_0002 * 0x4000_0002) by (nonlinear_arith)
            requires
                0 <= r <= 0x4000_0002,
        ;
        proof {
            assert(is_gap(line@, b as int, r as int));
            lemma_axis(selected@, w as int, h as int, vertical, a as int, line@, b as int, r as int);
        }
        d.push(r * r);
        b += 1;
    }
    d
}

proof fn lemma_axis(
    selected: Seq<bool>,
    w: int,
    h: int,
    vertical: bool,
    a: int,
    line: Seq<bool>,
    b: int,
    r: int,
)
    requires
        w >= 0,
        h >= 0,
        vertical ==> 0 <= a < w + 2 && line.len() == h + 2,
        !vertical ==> 0 <= a < h + 2 && line.len() == w + 2,
        0 <= b < line.len(),
        r >= 0,
        forall|i: int|
            0 <= i < line.len() ==> #[trigger] line[i] == !(if vertical {
                outside(selected, w, h, a, i)
            } else {
                outside(selected, w, h, i, a)
            }),
        is_gap(line, b, r),
    ensures
        vertical ==> is_inset(selected, w, h, Reach::Column, a, b, r * r),
        !vertical ==> is_inset(selected, w, h, Reach::Row, b, a, r * r),
{
    let c = choose|c: int|
        0 <= c < line.len() && !(#[trigger] line[c]) && (r == b - c || r == c - b);
    assert((b - c) * (b - c) == r * r) by (nonlinear_arith)
        requires
            r == b - c || r == c - b,
    ;
    assert((a - a) * (a - a) == 0);
    let reach = if vertical {
        Reach::Column
    } else {
        Reach::Row
    };
    let x = if vertical {
        a
    } else {
        b
    };
    let y = if vertical {
        b
    } else {
        a
    };
    let cx = if vertical {
        a
    } else {
        c
    };
    let cy = if vertical {
        c
    } else {
        a
    };
    assert(measured_to(selected, w, h, reach, x, y, cx, cy));
    assert forall|ox: int, oy: int| #[trigger]
        measured_to(selected, w, h, reach, x, y, ox, oy) implies r * r <= squared(x, y, ox, oy) by {
        let o = if vertical {
            oy
        } else {
            ox
        };
        assert(!line[o]);
        assert(r * r <= (b - o) * (b - o)) by (nonlinear_arith)
            requires
                r >= 0,
                r <= b - o || r <= o - b,
        ;
    }
}

/// The squared distance to the nearest unselected texel along one axis only,
/// which is what makes a tube a tube: it rounds across its axis and stays flat
/// along it.
pub fn axis_distance(selected: &[bool], w: u32, h: u32, vertical: bool) -> (field: Vec<u64>)
    requires
        selected@.len() == w * h,
        fits(w, h),
    ensures
        is_field(
            selected@,
            w as int,
            h as int,
            if vertical {
                Reach::Column
            } else {
                Reach::Row
            },
            field@,
        ),
{
    let pw: usize = w as usize + 2;
    let ph: usize = h as usize + 2;
    let outer: usize = if vertical {
        pw
    } else {
        ph
    };
    let mut table: Vec<Vec<u64>> = Vec::new();
    let mut a: usize = 0;
    while a < outer
        invariant
            a <= outer,
            outer == (if vertical {
                w + 2
            } else {
                h + 2
            }),
            w <= LIMIT,
            h <= LIMIT,
            selected@.len() == w * h,
            table@.len() == a,
            forall|i: int|
                0 <= i < a ==> (#[trigger] table@[i])@.len() == (if vertical {
                    h + 2
                } else {
                    w + 2
                }),
            vertical ==> forall|x: int, y: int|
                0 <= x < a && 0 <= y < h + 2 ==> is_inset(
                    selected@,
                    w as int,
                    h as int,
                    Reach::Column,
                    x,
                    y,
                    #[trigger] table@[x]@[y] as int,
                ),
            !vertical ==> forall|x: int, y: int|
                0 <= x < w + 2 && 0 <= y < a ==> is_inset(
                    selected@,
                    w as int,
                    h as int,
                    Reach::Row,
                    x,
                    y,
                    #[trigger] table@[y]@[x] as int,
                ),
        decreases outer - a,
    {
        let d: Vec<u64> = axis_line(selected, w, h, vertical, a);
        table.push(d);
        a += 1;
    }
    let field: Vec<u64> = flatten(&table, pw, ph, vertical);
    proof {
        let reach = if vertical {
            Reach::Column
        } else {
            Reach::Row
        };
        assert forall|x: int, y: int|
            0 <= x < w + 2 && 0 <= y < h + 2 implies #[trigger] field@[texel(w + 2, x, y)] == inset(
            selected@,
            w as int,
            h as int,
            reach,
            x,
            y,
        ) by {
            let v = if vertical {
                table@[x]@[y]
            } else {
                table@[y]@[x]
            };
            lemma_inset(selected@, w as int, h as int, reach, x, y, v as int);
        }
    }
    field
}

// ------------------------------------------------------------------ the laws

/// Is this texel of the canvas, or one off it, unselected?
pub open spec fn bare(selected: Seq<bool>, w: int, h: int, x: int, y: int) -> bool {
    !(0 <= x < w && 0 <= y < h && selected[y * w + x])
}

/// An inset is the least squared distance to an unselected texel. Written out
/// in canvas coordinates, where the ring round the canvas counts as unselected:
/// there is such a texel that far away, and none nearer. Measured down a column
/// or along a row, only the texels of that column or row are looked at.
pub proof fn law_insets_are_least_distances(
    selected: Seq<bool>,
    w: int,
    h: int,
    reach: Reach,
    x: int,
    y: int,
    d: int,
)
    requires
        w >= 0,
        h >= 0,
        -1 <= x <= w,
        -1 <= y <= h,
        d == inset(selected, w, h, reach, x + 1, y + 1),
    ensures
        exists|ox: int, oy: int|
            -1 <= ox <= w && -1 <= oy <= h && #[trigger] bare(selected, w, h, ox, oy) && (reach
                == Reach::Column ==> ox == x) && (reach == Reach::Row ==> oy == y)
                && d == (x - ox) * (x - ox) + (y - oy) * (y - oy),
        forall|ox: int, oy: int|
            -1 <= ox <= w && -1 <= oy <= h && #[trigger] bare(selected, w, h, ox, oy) && (reach
                == Reach::Column ==> ox == x) && (reach == Reach::Row ==> oy == y)
                ==> d <= (x - ox) * (x - ox) + (y - oy) * (y - oy),
{
    let e = crate::shape::lemma_inset_exists(selected, w, h, reach, x + 1, y + 1);
    lemma_inset(selected, w, h, reach, x + 1, y + 1, e);
    let (px, py) = choose|px: int, py: int| #[trigger]
        measured_to(selected, w, h, reach, x + 1, y + 1, px, py) && e == squared(
            x + 1,
            y + 1,
            px,
            py,
        );
    let ox = px - 1;
    let oy = py - 1;
    assert(texel(w, px - 1, py - 1) == oy * w + ox);
    assert(x + 1 - px == x - ox && y + 1 - py == y - oy);
    assert(bare(selected, w, h, ox, oy));
    assert forall|ox: int, oy: int|
        -1 <= ox <= w && -1 <= oy <= h && #[trigger] bare(selected, w, h, ox, oy) && (reach == Reach::Column ==> ox == x) && (reach == Reach::Row ==> oy
            == y) implies d <= (x - ox) * (x - ox) + (y - oy) * (y - oy) by {
        assert(texel(w, ox, oy) == oy * w + ox);
        assert(measured_to(selected, w, h, reach, x + 1, y + 1, ox + 1, oy + 1));
        assert(x + 1 - (ox + 1) == x - ox && y + 1 - (oy + 1) == y - oy);
    }
}

/// The field has a row of the padded grid after the other: its values are the
/// insets of the canvas, with the ring round it.
pub proof fn law_a_field_is_row_by_row(
    selected: Seq<bool>,
    w: int,
    h: int,
    reach: Reach,
    field: Seq<u64>,
    x: int,
    y: int,
)
    requires
        w >= 0,
        h >= 0,
        is_field(selected, w, h, reach, field),
        -1 <= x <= w,
        -1 <= y <= h,
    ensures
        field.len() == (w + 2) * (h + 2),
        field[(y + 1) * (w + 2) + (x + 1)] == inset(selected, w, h, reach, x + 1, y + 1),
{
    assert(texel(w + 2, x + 1, y + 1) == (y + 1) * (w + 2) + (x + 1));
}

/// The region turned about its diagonal.
pub open spec fn turned(selected: Seq<bool>, w: int, h: int) -> Seq<bool> {
    Seq::new((w * h) as nat, |i: int| selected[(i % h) * w + i / h])
}

/// The same reach with rows and columns exchanged.
pub open spec fn turned_reach(reach: Reach) -> Reach {
    match reach {
        Reach::Around => Reach::Around,
        Reach::Column => Reach::Row,
        Reach::Row => Reach::Column,
    }
}

/// Turning a region about its diagonal turns its insets: nothing but a tube
/// tells rows from columns.
pub proof fn law_turning_a_region_turns_its_insets(
    selected: Seq<bool>,
    w: int,
    h: int,
    reach: Reach,
    x: int,
    y: int,
)
    requires
        w >= 0,
        h >= 0,
        0 <= x < w + 2,
        0 <= y < h + 2,
    ensures
        inset(turned(selected, w, h), h, w, turned_reach(reach), y, x) == inset(
            selected,
            w,
            h,
            reach,
            x,
            y,
        ),
{
    let t = turned(selected, w, h);
    let d = crate::shape::lemma_inset_exists(selected, w, h, reach, x, y);
    lemma_inset(selected, w, h, reach, x, y, d);
    let (ox, oy) = choose|ox: int, oy: int| #[trigger]
        measured_to(selected, w, h, reach, x, y, ox, oy) && d == squared(x, y, ox, oy);
    lemma_turned_outside(selected, w, h, ox, oy);
    assert(measured_to(t, h, w, turned_reach(reach), y, x, oy, ox));
    assert forall|px: int, py: int| #[trigger]
        measured_to(t, h, w, turned_reach(reach), y, x, px, py) implies d <= squared(
        y,
        x,
        px,
        py,
    ) by {
        lemma_turned_outside(selected, w, h, py, px);
        assert(measured_to(selected, w, h, reach, x, y, py, px));
    }
    assert(is_inset(t, h, w, turned_reach(reach), y, x, d));
    lemma_inset(t, h, w, turned_reach(reach), y, x, d);
}

pub proof fn lemma_turned_outside(selected: Seq<bool>, w: int, h: int, x: int, y: int)
    requires
        w >= 0,
        h >= 0,
    ensures
        outside(turned(selected, w, h), h, w, y, x) == outside(selected, w, h, x, y),
{
    if 1 <= x <= w && 1 <= y <= h {
        crate::grid::lemma_texel(h, w, y - 1, x - 1);
        assert(w * h == h * w) by (nonlinear_arith);
        assert(texel(w, x - 1, y - 1) == (y - 1) * w + (x - 1));
    }
}

} // verus!
