//! Which opaque texel stands in for a transparent one.
//!
//! A sprite's surround is whatever colour was left under the eraser, and
//! differentiating against it rings the silhouette in a cliff nobody drew. So
//! every see-through texel takes its height from the nearest opaque one.

use vstd::prelude::*;

use crate::grid::{on_canvas, texel};
use crate::pixels::Pixels;

verus! {

/// Is this texel of the picture opaque at all?
pub open spec fn opaque_at(src: Pixels, x: int, y: int) -> bool {
    on_canvas(src.width as int, src.height as int, x, y) && src.at(x, y).a > 0
}

pub open spec fn squared(x: int, y: int, ox: int, oy: int) -> int {
    (x - ox) * (x - ox) + (y - oy) * (y - oy)
}

/// Is `i` an opaque texel, and none nearer to `(x, y)`?
pub open spec fn is_nearest(src: Pixels, x: int, y: int, i: int) -> bool {
    let w = src.width as int;
    &&& 0 <= i < src.width * src.height
    &&& opaque_at(src, i % w, i / w)
    &&& forall|ox: int, oy: int| #[trigger]
        opaque_at(src, ox, oy) ==> squared(x, y, i % w, i / w) <= squared(x, y, ox, oy)
}

/// Is there no opaque texel at all?
pub open spec fn all_clear(src: Pixels) -> bool {
    forall|x: int, y: int| !(#[trigger] opaque_at(src, x, y))
}

pub open spec fn gap(a: int, b: int) -> int {
    if a < b {
        b - a
    } else {
        a - b
    }
}

/// Is `c` the opaque column nearest to `x` in a row, or the row's width where
/// it has none?
spec fn is_row_nearest(src: Pixels, y: int, x: int, c: int) -> bool {
    if c == src.width {
        forall|o: int| !(#[trigger] opaque_at(src, o, y))
    } else {
        opaque_at(src, c, y) && forall|o: int| #[trigger]
            opaque_at(src, o, y) ==> gap(x, c) <= gap(x, o)
    }
}

/// The nearest opaque column to every column of a row.
fn row_nearest(src: &Pixels, y: u32) -> (near: Vec<u32>)
    requires
        src.wf(),
        y < src.height,
    ensures
        near@.len() == src.width,
        forall|x: int|
            0 <= x < src.width ==> is_row_nearest(
                *src,
                y as int,
                x,
                (#[trigger] near@[x]) as int,
            ) && near@[x] <= src.width,
{
    let w: u32 = src.width;
    // The last opaque column at or before each.
    let mut before: Vec<u32> = Vec::new();
    let mut last: u32 = w;
    let mut x: u32 = 0;
    while x < w
        invariant
            x <= w,
            w == src.width,
            src.wf(),
            y < src.height,
            before@.len() == x,
            last <= w,
            last == w ==> forall|o: int| o < x ==> !(#[trigger] opaque_at(*src, o, y as int)),
            last < w ==> last < x && opaque_at(*src, last as int, y as int) && forall|o: int|
                last < o < x ==> !(#[trigger] opaque_at(*src, o, y as int)),
            forall|i: int|
                0 <= i < x ==> (#[trigger] before@[i]) <= w && (if before@[i] == w {
                    forall|o: int| o <= i ==> !(#[trigger] opaque_at(*src, o, y as int))
                } else {
                    before@[i] <= i && opaque_at(*src, before@[i] as int, y as int) && forall|
                        o: int,
                    |
                        before@[i] < o <= i ==> !(#[trigger] opaque_at(*src, o, y as int))
                }),
        decreases w - x,
    {
        if src.get_pixel(x, y).a > 0 {
            last = x;
        }
        before.push(last);
        x += 1;
    }
    // The first at or after each, from the far end.
    let mut after: Vec<u32> = Vec::new();
    let mut first: u32 = w;
    let mut k: u32 = 0;
    while k < w
        invariant
            k <= w,
            w == src.width,
            src.wf(),
            y < src.height,
            after@.len() == k,
            first <= w,
            first == w ==> forall|o: int| o >= w - k ==> !(#[trigger] opaque_at(*src, o, y as int)),
            first < w ==> first >= w - k && opaque_at(*src, first as int, y as int) && forall|
                o: int,
            |
                w - k <= o < first ==> !(#[trigger] opaque_at(*src, o, y as int)),
            forall|j: int|
                0 <= j < k ==> (#[trigger] after@[j]) <= w && (if after@[j] == w {
                    forall|o: int| o >= w - 1 - j ==> !(#[trigger] opaque_at(*src, o, y as int))
                } else {
                    after@[j] >= w - 1 - j && opaque_at(*src, after@[j] as int, y as int) && forall|
                        o: int,
                    |
                        w - 1 - j <= o < after@[j] ==> !(#[trigger] opaque_at(*src, o, y as int))
                }),
        decreases w - k,
    {
        let c: u32 = w - 1 - k;
        if src.get_pixel(c, y).a > 0 {
            first = c;
        }
        after.push(first);
        k += 1;
    }
    let mut near: Vec<u32> = Vec::new();
    x = 0;
    while x < w
        invariant
            x <= w,
            w == src.width,
            before@.len() == w,
            after@.len() == w,
            forall|i: int|
                0 <= i < w ==> (#[trigger] before@[i]) <= w && (if before@[i] == w {
                    forall|o: int| o <= i ==> !(#[trigger] opaque_at(*src, o, y as int))
                } else {
                    before@[i] <= i && opaque_at(*src, before@[i] as int, y as int) && forall|
                        o: int,
                    |
                        before@[i] < o <= i ==> !(#[trigger] opaque_at(*src, o, y as int))
                }),
            forall|j: int|
                0 <= j < w ==> (#[trigger] after@[j]) <= w && (if after@[j] == w {
                    forall|o: int| o >= w - 1 - j ==> !(#[trigger] opaque_at(*src, o, y as int))
                } else {
                    after@[j] >= w - 1 - j && opaque_at(*src, after@[j] as int, y as int) && forall|
                        o: int,
                    |
                        w - 1 - j <= o < after@[j] ==> !(#[trigger] opaque_at(*src, o, y as int))
                }),
            near@.len() == x,
            forall|i: int|
                0 <= i < x ==> is_row_nearest(
                    *src,
                    y as int,
                    i,
                    (#[trigger] near@[i]) as int,
                ) && near@[i] <= w,
        decreases w - x,
    {
        let b: u32 = before[x as usize];
        let a: u32 = after[(w - 1 - x) as usize];
        let c: u32 = if b == w {
            a
        } else if a == w || x - b <= a - x {
            b
        } else {
            a
        };
        assert(is_row_nearest(*src, y as int, x as int, c as int));
        near.push(c);
        x += 1;
    }
    near
}

/// Is row `r` further up or down from `y` than `k`?
spec fn beyond(y: int, r: int, k: int) -> bool {
    gap(y, r) >= k
}

proof fn lemma_square_order(a: int, b: int)
    requires
        0 <= a <= b,
    ensures
        a * a <= b * b,
{
    assert(a * a <= b * b) by (nonlinear_arith)
        requires
            0 <= a <= b,
    ;
}

proof fn lemma_gap_squared(a: int, b: int)
    ensures
        gap(a, b) * gap(a, b) == (a - b) * (a - b),
        gap(a, b) >= 0,
{
    assert((b - a) * (b - a) == (a - b) * (a - b)) by (nonlinear_arith);
}

/// The best found of the rows nearer to `y` than `k`: none, or a texel and how
/// far it is.
spec fn is_best(src: Pixels, x: int, y: int, k: int, best: Option<(u32, u32, u128)>) -> bool {
    match best {
        None => forall|ox: int, oy: int| #[trigger]
            opaque_at(src, ox, oy) ==> beyond(y, oy, k),
        Some((bx, by, d)) => {
            &&& opaque_at(src, bx as int, by as int)
            &&& d == squared(x, y, bx as int, by as int)
            &&& forall|ox: int, oy: int| #[trigger]
                opaque_at(src, ox, oy) ==> beyond(y, oy, k) || d <= squared(x, y, ox, oy)
        },
    }
}

/// The better of what was found so far and a texel of one more row.
fn better(
    src: &Pixels,
    x: u32,
    y: u32,
    best: Option<(u32, u32, u128)>,
    c: u32,
    r: u32,
) -> (next: Option<(u32, u32, u128)>)
    requires
        c <= src.width,
        r < src.height,
        x < src.width,
        y < src.height,
        is_row_nearest(*src, r as int, x as int, c as int),
        best.is_some() ==> opaque_at(*src, best.unwrap().0 as int, best.unwrap().1 as int)
            && best.unwrap().2 == squared(
            x as int,
            y as int,
            best.unwrap().0 as int,
            best.unwrap().1 as int,
        ),
    ensures
        next.is_some() ==> opaque_at(*src, next.unwrap().0 as int, next.unwrap().1 as int)
            && next.unwrap().2 == squared(
            x as int,
            y as int,
            next.unwrap().0 as int,
            next.unwrap().1 as int,
        ),
        best.is_some() ==> next.is_some() && next.unwrap().2 <= best.unwrap().2,
        forall|ox: int| #[trigger]
            opaque_at(*src, ox, r as int) ==> next.is_some() && next.unwrap().2 <= squared(
                x as int,
                y as int,
                ox,
                r as int,
            ),
        best.is_none() && (forall|ox: int| !(#[trigger] opaque_at(*src, ox, r as int)))
            ==> next.is_none(),
{
    if c == src.width {
        return best;
    }
    let dx: u128 = if x < c {
        (c - x) as u128
    } else {
        (x - c) as u128
    };
    let dy: u128 = if y < r {
        (r - y) as u128
    } else {
        (y - r) as u128
    };
    proof {
        lemma_gap_squared(x as int, c as int);
        lemma_gap_squared(y as int, r as int);
        lemma_square_order(dx as int, 0xffff_ffff);
        lemma_square_order(dy as int, 0xffff_ffff);
        assert forall|ox: int| #[trigger] opaque_at(*src, ox, r as int) implies squared(
            x as int,
            y as int,
            c as int,
            r as int,
        ) <= squared(x as int, y as int, ox, r as int) by {
            lemma_gap_squared(x as int, ox);
            lemma_square_order(gap(x as int, c as int), gap(x as int, ox));
        }
    }
    let d: u128 = dx * dx + dy * dy;
    match best {
        Some((_, _, e)) => if e <= d {
            best
        } else {
            Some((c, r, d))
        },
        None => Some((c, r, d)),
    }
}

/// For every texel the nearest opaque one, or itself in a picture that has
/// none.
pub fn nearest_opaque(src: &Pixels) -> (near: Vec<usize>)
    requires
        src.wf(),
    ensures
        near@.len() == src.width * src.height,
        forall|x: int, y: int|
            on_canvas(src.width as int, src.height as int, x, y) ==> {
                let i = #[trigger] near@[texel(src.width as int, x, y)] as int;
                if all_clear(*src) {
                    i == texel(src.width as int, x, y)
                } else {
                    is_nearest(*src, x, y, i)
                }
            },
{
    let w: u32 = src.width;
    let h: u32 = src.height;
    let mut rows: Vec<Vec<u32>> = Vec::new();
    let mut y: u32 = 0;
    while y < h
        invariant
            y <= h,
            h == src.height,
            w == src.width,
            src.wf(),
            rows@.len() == y,
            rows_found(*src, rows@),
        decreases h - y,
    {
        let row: Vec<u32> = row_nearest(src, y);
        rows.push(row);
        y += 1;
    }
    let mut near: Vec<usize> = Vec::new();
    y = 0;
    while y < h
        invariant
            y <= h,
            h == src.height,
            w == src.width,
            src.wf(),
            rows@.len() == h,
            rows_found(*src, rows@),
            near@.len() == y * w,
            forall|i: int|
                0 <= i < near@.len() ==> is_stand_in(*src, i, #[trigger] near@[i] as int),
        decreases h - y,
    {
        let mut x: u32 = 0;
        assert((y + 1) * w == y * w + w) by (nonlinear_arith);
        while x < w
            invariant
                x <= w,
                y < h,
                h == src.height,
                w == src.width,
                src.wf(),
                rows@.len() == h,
                rows_found(*src, rows@),
                near@.len() == y * w + x,
                forall|i: int|
                    0 <= i < near@.len() ==> is_stand_in(*src, i, #[trigger] near@[i] as int),
            decreases w - x,
        {
            proof {
                crate::grid::lemma_texel(w as int, h as int, x as int, y as int);
            }
            let i: usize = stand_in(src, &rows, x, y);
            near.push(i);
            x += 1;
        }
        y += 1;
    }
    proof {
        assert(h * w == w * h) by (nonlinear_arith);
        assert forall|x: int, y: int| on_canvas(w as int, h as int, x, y) implies {
            let i = #[trigger] near@[texel(w as int, x, y)] as int;
            if all_clear(*src) {
                i == texel(w as int, x, y)
            } else {
                is_nearest(*src, x, y, i)
            }
        } by {
            crate::grid::lemma_texel(w as int, h as int, x, y);
            assert(is_stand_in(
                *src,
                texel(w as int, x, y),
                near@[texel(w as int, x, y)] as int,
            ));
        }
    }
    near
}

spec fn rows_found(src: Pixels, rows: Seq<Vec<u32>>) -> bool {
    forall|r: int|
        0 <= r < rows.len() ==> (#[trigger] rows[r])@.len() == src.width && forall|x: int|
            0 <= x < src.width ==> is_row_nearest(src, r, x, (#[trigger] rows[r]@[x]) as int)
                && rows[r]@[x] <= src.width
}

/// Is `i` what texel `t` takes its height from?
spec fn is_stand_in(src: Pixels, t: int, i: int) -> bool {
    if all_clear(src) {
        i == t
    } else {
        is_nearest(src, t % src.width as int, t / src.width as int, i)
    }
}

/// Look in the texel's own row, then in the rows above and below, further and
/// further, until no row can hold a nearer one.
fn stand_in(src: &Pixels, rows: &Vec<Vec<u32>>, x: u32, y: u32) -> (i: usize)
    requires
        src.wf(),
        x < src.width,
        y < src.height,
        rows@.len() == src.height,
        rows_found(*src, rows@),
    ensures
        is_stand_in(*src, texel(src.width as int, x as int, y as int), i as int),
{
    let h: u32 = src.height;
    let w: u32 = src.width;
    let mut best: Option<(u32, u32, u128)> = None;
    let mut k: u32 = 0;
    let mut done: bool = false;
    proof {
        assert forall|ox: int, oy: int| #[trigger] opaque_at(*src, ox, oy) implies beyond(
            y as int,
            oy,
            0,
        ) by {
            lemma_gap_squared(y as int, oy);
        }
    }
    while !done && k < h
        invariant
            k <= h,
            h == src.height,
            w == src.width,
            x < w,
            y < h,
            rows@.len() == h,
            rows_found(*src, rows@),
            is_best(*src, x as int, y as int, k as int, best),
            done ==> best.is_some() && best.unwrap().2 <= k * k,
        decreases h - k + (if done {
            0int
        } else {
            1
        }),
    {
        let near_enough: bool = match best {
            Some((_, _, d)) => {
                assert(k * k <= 0xffff_ffff * 0xffff_ffff) by (nonlinear_arith)
                    requires
                        k <= 0xffff_ffff,
                ;
                d <= k as u128 * k as u128
            },
            None => false,
        };
        if near_enough {
            done = true;
        } else {
            if k <= y {
                assert(rows@[y - k]@.len() == w);
                assert(is_row_nearest(*src, y - k, x as int, rows@[y - k]@[x as int] as int));
                best = better(src, x, y, best, rows[(y - k) as usize][x as usize], y - k);
            }
            let ghost mid = best;
            if k < h - y {
                assert(rows@[y + k]@.len() == w);
                assert(is_row_nearest(*src, y + k, x as int, rows@[y + k]@[x as int] as int));
                best = better(src, x, y, best, rows[(y + k) as usize][x as usize], y + k);
            }
            proof {
                assert forall|ox: int, oy: int| #[trigger]
                    opaque_at(*src, ox, oy) && !beyond(y as int, oy, k + 1) implies best.is_some()
                    && best.unwrap().2 <= squared(x as int, y as int, ox, oy) by {
                    if oy == y - k {
                        assert(mid.is_some() && mid.unwrap().2 <= squared(
                            x as int,
                            y as int,
                            ox,
                            oy,
                        ));
                    } else if oy != y + k {
                        assert(!beyond(y as int, oy, k as int));
                    }
                }
            }
            k += 1;
        }
    }
    proof {
        crate::grid::lemma_texel(w as int, h as int, x as int, y as int);
        assert(src.data.len() == 4 * (w * h));
        assert(0 <= y * w) by (nonlinear_arith);
    }
    match best {
        None => {
            proof {
                assert forall|ox: int, oy: int| !(#[trigger] opaque_at(*src, ox, oy)) by {
                    if opaque_at(*src, ox, oy) {
                        assert(beyond(y as int, oy, k as int));
                    }
                }
            }
            y as usize * w as usize + x as usize
        },
        Some((bx, by, d)) => {
            proof {
                crate::grid::lemma_texel(w as int, h as int, bx as int, by as int);
                assert(0 <= by * w) by (nonlinear_arith);
                assert(!all_clear(*src));
                assert forall|ox: int, oy: int| #[trigger] opaque_at(*src, ox, oy) implies d
                    <= squared(x as int, y as int, ox, oy) by {
                    if beyond(y as int, oy, k as int) {
                        lemma_gap_squared(x as int, ox);
                        lemma_gap_squared(y as int, oy);
                        assert((x - ox) * (x - ox) >= 0) by (nonlinear_arith);
                        lemma_square_order(k as int, gap(y as int, oy));
                    }
                }
            }
            by as usize * w as usize + bx as usize
        },
    }
}

/// An opaque texel keeps its own height.
pub proof fn law_opaque_texels_stand_for_themselves(src: Pixels, x: int, y: int, i: int)
    requires
        opaque_at(src, x, y),
        is_nearest(src, x, y, i),
    ensures
        i == texel(src.width as int, x, y),
{
    let w = src.width as int;
    let ox = i % w;
    let oy = i / w;
    assert(squared(x, y, x, y) == 0);
    assert(squared(x, y, ox, oy) <= 0);
    assert(x == ox && y == oy) by (nonlinear_arith)
        requires
            (x - ox) * (x - ox) + (y - oy) * (y - oy) <= 0,
    ;
    crate::grid::lemma_texel_onto(w, src.height as int, i);
}

/// The texel that stands in for another, outright: it shows something, and
/// none that does is nearer. A texel shows something unless its alpha is
/// nothing.
pub proof fn law_the_nearest_that_shows_stands_in(
    src: Pixels,
    x: int,
    y: int,
    i: int,
    ox: int,
    oy: int,
)
    requires
        src.wf(),
        is_nearest(src, x, y, i),
        0 <= ox < src.width,
        0 <= oy < src.height,
        src.data@[4 * (oy * src.width + ox) + 3] > 0,
    ensures
        0 <= i < src.width * src.height,
        src.data@[4 * i + 3] > 0,
        ({
            let ix = i % src.width as int;
            let iy = i / src.width as int;
            (x - ix) * (x - ix) + (y - iy) * (y - iy) <= (x - ox) * (x - ox) + (y - oy) * (y - oy)
        }),
{
    let w = src.width as int;
    crate::grid::lemma_texel_onto(w, src.height as int, i);
    crate::pixels::law_pixels_are_four_bytes(src, ox, oy);
    crate::pixels::law_pixels_are_four_bytes(src, i % w, i / w);
    assert(opaque_at(src, ox, oy));
    assert(opaque_at(src, i % w, i / w));
    assert((i / w) * w + i % w == i);
}

/// A picture shows nothing at all exactly when every alpha is nothing.
pub proof fn law_clear_is_no_alpha_anywhere(src: Pixels, x: int, y: int)
    requires
        all_clear(src),
        0 <= x < src.width,
        0 <= y < src.height,
    ensures
        src.data@[4 * (y * src.width + x) + 3] == 0,
{
    crate::pixels::law_pixels_are_four_bytes(src, x, y);
    assert(!opaque_at(src, x, y));
}

/// And the other way round.
pub proof fn law_no_alpha_anywhere_is_clear(src: Pixels)
    requires
        forall|x: int, y: int|
            0 <= x < src.width && 0 <= y < src.height ==> (#[trigger] src.at(x, y)).a == 0,
    ensures
        all_clear(src),
{
    assert forall|x: int, y: int| !(#[trigger] opaque_at(src, x, y)) by {
        if 0 <= x < src.width && 0 <= y < src.height {
            assert(src.at(x, y).a == 0);
        }
    }
}

} // verus!
