//! Shapes: say what a region *is*, and let the tool work out the slopes.
//!
//! Measure how far each texel sits from the edge of its region, turn that
//! distance into a height with a profile curve, and sample the curve at the
//! four points that matter: the midpoints of the texel's edges, half a texel
//! out from its centre. Halfway between two texels the distance is the mean of
//! theirs, so an edge is known by two insets, the texel's own and that of the
//! texel across the edge.

use vstd::prelude::*;

use crate::distance::{axis_distance, euclidean_distance, fits, inset, is_field, is_inset, outside};
use crate::distance::{bare, law_turning_a_region_turns_its_insets, turned};
use crate::distance::{measured_to, squared, Reach};
use crate::grid::{connected, count, on_canvas, texel, touching};
use crate::pixels::{Pixels, Rgba};

verus! {

/// The cross-section a shape gives the region it is applied to.
#[derive(Clone, Copy, PartialEq, Eq, Debug, Structural)]
pub enum Shape {
    Flat,
    Dome,
    Cone,
    Bevel,
    RoundBevel,
    /// A tube lying across the canvas: round top to bottom, flat along X.
    TubeX,
    /// A tube standing up the canvas: round left to right, flat along Y.
    TubeY,
}

impl Shape {
    pub const ALL: [Shape; 7] = [
        Shape::Flat,
        Shape::Dome,
        Shape::Cone,
        Shape::Bevel,
        Shape::RoundBevel,
        Shape::TubeX,
        Shape::TubeY,
    ];

    pub fn label(self) -> (s: &'static str)
        ensures
            s@ == match self {
                Shape::Flat => "Flat"@,
                Shape::Dome => "Dome"@,
                Shape::Cone => "Cone"@,
                Shape::Bevel => "Bevel"@,
                Shape::RoundBevel => "Round bevel"@,
                Shape::TubeX => "Tube ↔"@,
                Shape::TubeY => "Tube ↕"@,
            },
    {
        match self {
            Shape::Flat => "Flat",
            Shape::Dome => "Dome",
            Shape::Cone => "Cone",
            Shape::Bevel => "Bevel",
            Shape::RoundBevel => "Round bevel",
            Shape::TubeX => "Tube ↔",
            Shape::TubeY => "Tube ↕",
        }
    }

    pub fn hint(self) -> (s: &'static str)
        ensures
            s@ == match self {
                Shape::Flat => "A plateau, all one height. No slope, so nothing to light"@,
                Shape::Dome => "Rounded like a ball: steep at the rim, flat on top"@,
                Shape::Cone => "Straight sides rising to the middle"@,
                Shape::Bevel => "A flat top with a straight ramp round the edge"@,
                Shape::RoundBevel => "A flat top eased into the edge"@,
                Shape::TubeX => "A tube lying across: round top to bottom"@,
                Shape::TubeY => "A tube standing up: round left to right"@,
            },
    {
        match self {
            Shape::Flat => "A plateau, all one height. No slope, so nothing to light",
            Shape::Dome => "Rounded like a ball: steep at the rim, flat on top",
            Shape::Cone => "Straight sides rising to the middle",
            Shape::Bevel => "A flat top with a straight ramp round the edge",
            Shape::RoundBevel => "A flat top eased into the edge",
            Shape::TubeX => "A tube lying across: round top to bottom",
            Shape::TubeY => "A tube standing up: round left to right",
        }
    }

    /// Whether the shape rounds over a fixed border width, rather than over
    /// however wide the region happens to be.
    pub fn uses_width(self) -> (r: bool)
        ensures
            r == self.ramps(),
            r == (self == Shape::Bevel || self == Shape::RoundBevel),
    {
        matches!(self, Shape::Bevel | Shape::RoundBevel)
    }

    /// The shapes with a ramp of their own width.
    pub open spec fn ramps(self) -> bool {
        self == Shape::Bevel || self == Shape::RoundBevel
    }

    /// A tube measures its inset across its axis only.
    pub open spec fn reach(self) -> Reach {
        match self {
            Shape::TubeX => Reach::Column,
            Shape::TubeY => Reach::Row,
            _ => Reach::Around,
        }
    }
}

/// A shape, and the numbers that say how tall it stands. `T` is what those are
/// counted in.
#[derive(Clone, Copy, PartialEq, Debug)]
pub struct Cut<T> {
    pub shape: Shape,
    /// Height at the region's edge.
    pub floor: T,
    /// Height at its deepest point.
    pub peak: T,
    /// Ramp width in texels, for the bevels.
    pub width: T,
    /// Carve the shape in instead of standing it out.
    pub concave: bool,
}

/// How far in from the edge a profile reaches its top.
#[derive(Clone, Copy, PartialEq, Debug)]
pub enum Span<T> {
    /// A ramp of this width.
    Width(T),
    /// The squared inset of the deepest texel, for the shapes that fill their
    /// region rather than a fixed border.
    Deepest(u64),
}

/// All that a profile curve gets to see of a shape and its region.
#[derive(Clone, Copy, PartialEq, Debug)]
pub struct Curve<T> {
    pub shape: Shape,
    pub floor: T,
    pub peak: T,
    pub span: Span<T>,
    pub concave: bool,
}

impl<T> Cut<T> {
    pub open spec fn curve_over(self, deepest: u64) -> Curve<T> {
        Curve {
            shape: self.shape,
            floor: self.floor,
            peak: self.peak,
            span: if self.shape.ramps() {
                Span::Width(self.width)
            } else {
                Span::Deepest(deepest)
            },
            concave: self.concave,
        }
    }
}

impl<T: Copy> Cut<T> {
    /// The curve of this shape over a region whose deepest texel is so deep.
    pub fn curve(&self, deepest: u64) -> (c: Curve<T>)
        ensures
            c == self.curve_over(deepest),
    {
        Curve {
            shape: self.shape,
            floor: self.floor,
            peak: self.peak,
            span: if self.shape.uses_width() {
                Span::Width(self.width)
            } else {
                Span::Deepest(deepest)
            },
            concave: self.concave,
        }
    }
}

// -------------------------------------------------------------- the heights

/// Is this the largest inset of the region?
pub open spec fn is_deepest(selected: Seq<bool>, w: int, h: int, reach: Reach, d: int) -> bool {
    &&& exists|x: int, y: int|
        0 <= x < w + 2 && 0 <= y < h + 2 && d == #[trigger] inset(selected, w, h, reach, x, y)
    &&& forall|x: int, y: int|
        0 <= x < w + 2 && 0 <= y < h + 2 ==> #[trigger] inset(selected, w, h, reach, x, y) <= d
}

/// The inset of a canvas texel, or of one just off the canvas.
pub open spec fn canvas_inset(
    selected: Seq<bool>,
    w: int,
    h: int,
    reach: Reach,
    x: int,
    y: int,
) -> int {
    inset(selected, w, h, reach, x + 1, y + 1)
}

/// The texel across one of the four edges: top, left, right, bottom.
pub open spec fn across(x: int, y: int, edge: int) -> (int, int) {
    if edge == 0 {
        (x, y - 1)
    } else if edge == 1 {
        (x - 1, y)
    } else if edge == 2 {
        (x + 1, y)
    } else {
        (x, y + 1)
    }
}

/// Is `v` what `height` makes of this edge of this texel?
pub open spec fn edge_is<T, F: Fn(Curve<T>, u64, u64) -> u8>(
    height: F,
    cut: Cut<T>,
    selected: Seq<bool>,
    w: int,
    h: int,
    x: int,
    y: int,
    edge: int,
    v: u8,
) -> bool {
    exists|own: u64, beyond: u64, deepest: u64|
        {
            let reach = cut.shape.reach();
            &&& own == canvas_inset(selected, w, h, reach, x, y)
            &&& beyond == canvas_inset(
                selected,
                w,
                h,
                reach,
                across(x, y, edge).0,
                across(x, y, edge).1,
            )
            &&& is_deepest(selected, w, h, reach, deepest as int)
            &&& #[trigger] height.ensures((cut.curve_over(deepest), own, beyond), v)
        }
}

/// Are these the four edge heights of every selected texel, and nothing for
/// the others?
pub open spec fn is_raster<T, F: Fn(Curve<T>, u64, u64) -> u8>(
    height: F,
    cut: Cut<T>,
    selected: Seq<bool>,
    w: int,
    h: int,
    cells: Seq<Option<[u8; 4]>>,
) -> bool {
    &&& cells.len() == w * h
    &&& forall|i: int| 0 <= i < cells.len() ==> (#[trigger] cells[i]).is_some() == selected[i]
    &&& forall|x: int, y: int, edge: int|
        on_canvas(w, h, x, y) && 0 <= edge < 4 && selected[texel(w, x, y)] ==> edge_is(
            height,
            cut,
            selected,
            w,
            h,
            x,
            y,
            edge,
            #[trigger] cells[texel(w, x, y)].unwrap()@[edge],
        )
}

/// Can `height` be asked of any curve and any two insets?
pub open spec fn asks_curves<T, F: Fn(Curve<T>, u64, u64) -> u8>(height: F) -> bool {
    forall|curve: Curve<T>, own: u64, beyond: u64| #[trigger]
        height.requires((curve, own, beyond))
}

/// The largest value of a field.
fn deepest(field: &Vec<u64>) -> (d: u64)
    ensures
        forall|i: int| 0 <= i < field@.len() ==> #[trigger] field@[i] <= d,
        field@.len() > 0 ==> exists|i: int| 0 <= i < field@.len() && #[trigger] field@[i] == d,
{
    let mut d: u64 = 0;
    let mut i: usize = 0;
    while i < field.len()
        invariant
            i <= field@.len(),
            forall|j: int| 0 <= j < i ==> #[trigger] field@[j] <= d,
            i == 0 ==> d == 0,
            i > 0 ==> exists|j: int| 0 <= j < i && #[trigger] field@[j] == d,
        decreases field@.len() - i,
    {
        if field[i] > d {
            d = field[i];
            assert(field@[i as int] == d);
        } else if i == 0 {
            assert(field@[0] == d);
        }
        i += 1;
    }
    d
}

/// Rasterise a shape over `selected`, returning each selected texel's four
/// edge heights as `[top, left, right, bottom]`, the order
/// [`crate::relief::Side`] indexes by. Unselected texels come back `None` and
/// are left alone.
///
/// `height` is the profile curve: it gets what it may know of the shape, the
/// squared inset of the texel, and that of the texel across the edge.
pub fn rasterize<T: Copy, F: Fn(Curve<T>, u64, u64) -> u8>(
    selected: &[bool],
    w: u32,
    h: u32,
    cut: &Cut<T>,
    height: F,
) -> (out: Vec<Option<[u8; 4]>>)
    requires
        selected@.len() == w * h,
        fits(w, h),
        asks_curves(height),
    ensures
        is_raster(height, *cut, selected@, w as int, h as int, out@),
{
    let ghost reach = cut.shape.reach();
    let field: Vec<u64> = match cut.shape {
        Shape::TubeX => axis_distance(selected, w, h, true),
        Shape::TubeY => axis_distance(selected, w, h, false),
        _ => euclidean_distance(selected, w, h),
    };
    let deep: u64 = deepest(&field);
    proof {
        lemma_deepest(selected@, w as int, h as int, reach, field@, deep);
    }
    let curve: Curve<T> = cut.curve(deep);
    let pw: usize = w as usize + 2;
    let n: usize = selected.len();
    let mut out: Vec<Option<[u8; 4]>> = Vec::new();
    let mut x: usize = 0;
    let mut y: usize = 0;
    while out.len() < n
        invariant
            n == w * h,
            selected@.len() == n,
            fits(w, h),
            pw == w + 2,
            w > 0 ==> x < w,
            out@.len() <= n,
            out@.len() == texel(w as int, x as int, y as int),
            is_field(selected@, w as int, h as int, reach, field@),
            is_deepest(selected@, w as int, h as int, reach, deep as int),
            reach == cut.shape.reach(),
            curve == cut.curve_over(deep),
            asks_curves(height),
            forall|i: int| 0 <= i < out@.len() ==> (#[trigger] out@[i]).is_some() == selected@[i],
            forall|i: int, edge: int|
                0 <= i < out@.len() && 0 <= edge < 4 && selected@[i] ==> edge_is(
                    height,
                    *cut,
                    selected@,
                    w as int,
                    h as int,
                    i % w as int,
                    i / w as int,
                    edge,
                    #[trigger] out@[i].unwrap()@[edge],
                ),
        decreases n - out@.len(),
    {
        proof {
            lemma_inside(w as int, h as int, x as int, y as int, pw);
        }
        let ghost before = out@;
        let ghost i = out@.len() as int;
        if selected[out.len()] {
            let mid: usize = (y + 1) * pw + (x + 1);
            let own: u64 = field[mid];
            let top: u8 = height(curve, own, field[mid - pw]);
            let left: u8 = height(curve, own, field[mid - 1]);
            let right: u8 = height(curve, own, field[mid + 1]);
            let bottom: u8 = height(curve, own, field[mid + pw]);
            let edges: [u8; 4] = [top, left, right, bottom];
            proof {
                let f = field@;
                let k = w + 2;
                assert(own == f[texel(k, x + 1, y + 1)]);
                assert(f[mid - pw] == f[texel(k, x + 1, y as int)]);
                assert(f[mid - 1] == f[texel(k, x as int, y + 1)]);
                assert(f[mid + 1] == f[texel(k, x + 2, y + 1)]);
                assert(f[mid + pw] == f[texel(k, x + 1, y + 2)]);
                assert(height.ensures((curve, own, f[mid - pw]), edges@[0]));
                assert(height.ensures((curve, own, f[mid - 1]), edges@[1]));
                assert(height.ensures((curve, own, f[mid + 1]), edges@[2]));
                assert(height.ensures((curve, own, f[mid + pw]), edges@[3]));
                assert forall|edge: int| 0 <= edge < 4 implies edge_is(
                    height,
                    *cut,
                    selected@,
                    w as int,
                    h as int,
                    x as int,
                    y as int,
                    edge,
                    #[trigger] edges@[edge],
                ) by {
                    assert(edge == 0 || edge == 1 || edge == 2 || edge == 3);
                }
            }
            out.push(Some(edges));
        } else {
            out.push(None);
        }
        proof {
            assert forall|j: int, edge: int|
                0 <= j < out@.len() && 0 <= edge < 4 && selected@[j] implies edge_is(
                height,
                *cut,
                selected@,
                w as int,
                h as int,
                j % w as int,
                j / w as int,
                edge,
                #[trigger] out@[j].unwrap()@[edge],
            ) by {
                if j < i {
                    assert(out@[j] == before[j]);
                    assert(edge_is(
                        height,
                        *cut,
                        selected@,
                        w as int,
                        h as int,
                        j % w as int,
                        j / w as int,
                        edge,
                        before[j].unwrap()@[edge],
                    ));
                }
            }
        }
        if x + 1 < w as usize {
            x += 1;
        } else {
            assert((y + 1) * w == y * w + w) by (nonlinear_arith);
            x = 0;
            y += 1;
        }
    }
    proof {
        assert forall|x: int, y: int, edge: int|
            on_canvas(w as int, h as int, x, y) && 0 <= edge < 4
                && selected@[texel(w as int, x, y)] implies edge_is(
            height,
            *cut,
            selected@,
            w as int,
            h as int,
            x,
            y,
            edge,
            #[trigger] out@[texel(w as int, x, y)].unwrap()@[edge],
        ) by {
            crate::grid::lemma_texel(w as int, h as int, x, y);
        }
    }
    out
}

/// The place of a canvas texel, and of its four neighbours, on the padded grid.
proof fn lemma_inside(w: int, h: int, x: int, y: int, pw: usize)
    requires
        w >= 0,
        h >= 0,
        0 <= texel(w, x, y) < w * h,
        w > 0 ==> x < w,
        x >= 0,
        y >= 0,
        pw == w + 2,
        (w + 2) * (h + 2) <= usize::MAX,
    ensures
        on_canvas(w, h, x, y),
        texel(w, x, y) % w == x,
        texel(w, x, y) / w == y,
        0 <= (y + 1) * pw <= (y + 1) * pw + (x + 1) < (w + 2) * (h + 2),
        (y + 1) * pw + (x + 1) + pw < (w + 2) * (h + 2),
        (y + 1) * pw + (x + 1) - pw >= 0,
        texel(w + 2, x + 1, y + 1) == (y + 1) * pw + (x + 1),
        texel(w + 2, x + 1, y) == (y + 1) * pw + (x + 1) - pw,
        texel(w + 2, x, y + 1) == (y + 1) * pw + x,
        texel(w + 2, x + 2, y + 1) == (y + 1) * pw + (x + 2),
        texel(w + 2, x + 1, y + 2) == (y + 1) * pw + (x + 1) + pw,
{
    if w == 0 {
        assert(w * h == 0) by (nonlinear_arith)
            requires
                w == 0,
        ;
    }
    assert(y < h) by (nonlinear_arith)
        requires
            y * w + x < w * h,
            x >= 0,
            w > 0,
            y >= 0,
    ;
    crate::grid::lemma_texel(w, h, x, y);
    let k = w + 2;
    assert((y + 2) * k == (y + 1) * k + k) by (nonlinear_arith);
    assert((y + 1) * k == y * k + k) by (nonlinear_arith);
    assert(y * k >= 0) by (nonlinear_arith)
        requires
            y >= 0,
            k >= 0,
    ;
    crate::grid::lemma_texel(k, h + 2, x + 1, y + 2);
}

proof fn lemma_deepest(
    selected: Seq<bool>,
    w: int,
    h: int,
    reach: Reach,
    field: Seq<u64>,
    d: u64,
)
    requires
        w >= 0,
        h >= 0,
        is_field(selected, w, h, reach, field),
        forall|i: int| 0 <= i < field.len() ==> #[trigger] field[i] <= d,
        field.len() > 0 ==> exists|i: int| 0 <= i < field.len() && #[trigger] field[i] == d,
    ensures
        is_deepest(selected, w, h, reach, d as int),
{
    crate::grid::lemma_texel(w + 2, h + 2, 0, 0);
    let i = choose|i: int| 0 <= i < field.len() && #[trigger] field[i] == d;
    crate::grid::lemma_texel_onto(w + 2, h + 2, i);
    assert(inset(selected, w, h, reach, i % (w + 2), i / (w + 2)) == field[texel(
        w + 2,
        i % (w + 2),
        i / (w + 2),
    )]);
    assert forall|x: int, y: int| 0 <= x < w + 2 && 0 <= y < h + 2 implies #[trigger] inset(
        selected,
        w,
        h,
        reach,
        x,
        y,
    ) <= d by {
        crate::grid::lemma_texel(w + 2, h + 2, x, y);
        assert(field[texel(w + 2, x, y)] == inset(selected, w, h, reach, x, y));
    }
}

// ------------------------------------------------------------- the selection

/// The four channels of a pixel, in order.
pub open spec fn channels(px: Rgba) -> Seq<u8> {
    seq![px.r, px.g, px.b, px.a]
}

/// The pixel with these channels.
pub open spec fn pixel(c: [u8; 4]) -> Rgba {
    Rgba { r: c@[0], g: c@[1], b: c@[2], a: c@[3] }
}

/// Which row or column of `from` lies under the `at`th of `to`.
pub open spec fn under(at: int, from: int, to: int) -> int {
    let scaled = at * from / (if to < 1 {
        1
    } else {
        to
    });
    if scaled < from - 1 {
        scaled
    } else {
        from - 1
    }
}

/// The source pixel under a canvas texel.
pub open spec fn source(src: Pixels, x: int, y: int, w: int, h: int) -> Rgba {
    src.at(under(x, src.width as int, w), under(y, src.height as int, h))
}

/// Are two levels within `cutoff` of each other?
pub open spec fn near(a: u8, b: u8, cutoff: int) -> bool {
    a - b <= cutoff && b - a <= cutoff
}

/// Two pixels the wand should treat as the same colour: transparent ones match
/// each other and nothing else, opaque ones match channel by channel.
pub open spec fn same_colour(a: Rgba, b: Rgba, cutoff: int) -> bool {
    if a.a == 0 || b.a == 0 {
        a.a == b.a
    } else {
        near(a.r, b.r, cutoff) && near(a.g, b.g, cutoff) && near(a.b, b.b, cutoff)
    }
}

/// The canvas texels whose source pixel matches `seed`.
pub open spec fn matching(src: Pixels, w: int, h: int, seed: Rgba, cutoff: int) -> spec_fn(
    (int, int),
) -> bool {
    |p: (int, int)|
        on_canvas(w, h, p.0, p.1) && same_colour(seed, source(src, p.0, p.1, w, h), cutoff)
}

/// A texel, if it lies on the canvas.
pub open spec fn if_on_canvas(w: u32, h: u32, x: int, y: int) -> Seq<(u32, u32)> {
    if on_canvas(w as int, h as int, x, y) {
        seq![(x as u32, y as u32)]
    } else {
        seq![]
    }
}

/// The texels that share an edge with `(x, y)`: right, left, below, above.
pub open spec fn around(x: u32, y: u32, w: u32, h: u32) -> Seq<(u32, u32)> {
    if_on_canvas(w, h, x + 1, y as int) + if_on_canvas(w, h, x - 1, y as int) + if_on_canvas(
        w,
        h,
        x as int,
        y + 1,
    ) + if_on_canvas(w, h, x as int, y - 1)
}

/// The neighbours of a texel that lie on the canvas: right, left, below, above.
pub fn neighbours(x: u32, y: u32, w: u32, h: u32) -> (out: Vec<(u32, u32)>)
    requires
        x < i32::MAX,
        y < i32::MAX,
        w <= i32::MAX,
        h <= i32::MAX,
    ensures
        out@ == around(x, y, w, h),
{
    let mut out: Vec<(u32, u32)> = Vec::new();
    if x + 1 < w && y < h {
        out.push((x + 1, y));
    }
    assert(out@ =~= if_on_canvas(w, h, x + 1, y as int));
    if x >= 1 && x - 1 < w && y < h {
        out.push((x - 1, y));
    }
    assert(out@ =~= if_on_canvas(w, h, x + 1, y as int) + if_on_canvas(w, h, x - 1, y as int));
    if x < w && y + 1 < h {
        out.push((x, y + 1));
    }
    assert(out@ =~= if_on_canvas(w, h, x + 1, y as int) + if_on_canvas(w, h, x - 1, y as int)
        + if_on_canvas(w, h, x as int, y + 1));
    if x < w && y >= 1 && y - 1 < h {
        out.push((x, y - 1));
    }
    assert(out@ =~= around(x, y, w, h));
    out
}

proof fn lemma_around(x: u32, y: u32, w: u32, h: u32)
    ensures
        forall|j: int|
            #![trigger around(x, y, w, h)[j]]
            0 <= j < around(x, y, w, h).len() ==> {
                let p = around(x, y, w, h)[j];
                on_canvas(w as int, h as int, p.0 as int, p.1 as int) && touching(
                    (x as int, y as int),
                    (p.0 as int, p.1 as int),
                )
            },
        forall|d: (int, int)| #[trigger]
            touching((x as int, y as int), d) && on_canvas(w as int, h as int, d.0, d.1)
                ==> around(x, y, w, h).contains((d.0 as u32, d.1 as u32)),
{
    let a = if_on_canvas(w, h, x + 1, y as int);
    let b = if_on_canvas(w, h, x - 1, y as int);
    let c = if_on_canvas(w, h, x as int, y + 1);
    let e = if_on_canvas(w, h, x as int, y - 1);
    let all = around(x, y, w, h);
    assert forall|d: (int, int)| #[trigger]
        touching((x as int, y as int), d) && on_canvas(
            w as int,
            h as int,
            d.0,
            d.1,
        ) implies all.contains((d.0 as u32, d.1 as u32)) by {
        let j: int = if d.0 == x + 1 {
            0
        } else if d.0 == x - 1 {
            a.len() as int
        } else if d.1 == y + 1 {
            (a.len() + b.len()) as int
        } else {
            (a.len() + b.len() + c.len()) as int
        };
        assert(all[j] == (d.0 as u32, d.1 as u32));
    }
}

/// Two texels the wand should treat as the same colour. Transparent texels
/// match each other whatever their RGB says: what sits under a fully erased
/// pixel is not a colour anyone chose.
pub fn alike(a: [u8; 4], b: [u8; 4], cutoff: i32) -> (r: bool)
    ensures
        r == same_colour(pixel(a), pixel(b), cutoff as int),
        a@[3] == 0 && b@[3] == 0 ==> r,
        (a@[3] == 0) != (b@[3] == 0) ==> !r,
        a@[3] != 0 && b@[3] != 0 ==> r == {
            &&& -cutoff <= a@[0] - b@[0] <= cutoff
            &&& -cutoff <= a@[1] - b@[1] <= cutoff
            &&& -cutoff <= a@[2] - b@[2] <= cutoff
        },
{
    if a[3] == 0 || b[3] == 0 {
        return a[3] == b[3];
    }
    let mut c: usize = 0;
    while c < 3
        invariant
            c <= 3,
            forall|k: int| 0 <= k < c ==> near(#[trigger] a@[k], b@[k], cutoff as int),
            a@[3] != 0,
            b@[3] != 0,
        decreases 3 - c,
    {
        let d: i32 = a[c] as i32 - b[c] as i32;
        if d > cutoff || -d > cutoff {
            assert(!near(a@[c as int], b@[c as int], cutoff as int));
            return false;
        }
        c += 1;
    }
    assert(near(a@[0], b@[0], cutoff as int));
    assert(near(a@[1], b@[1], cutoff as int));
    assert(near(a@[2], b@[2], cutoff as int));
    true
}

/// Which row or column of the source lies under a row or column of the canvas.
fn nearest(at: u32, from: u32, to: u32) -> (s: u32)
    requires
        from > 0,
    ensures
        s == under(at as int, from as int, to as int),
        s < from,
{
    let to: u64 = if to < 1 {
        1
    } else {
        to as u64
    };
    assert(at * from <= 0xffff_ffff * 0xffff_ffff) by (nonlinear_arith)
        requires
            at <= 0xffff_ffff,
            from <= 0xffff_ffff,
    ;
    let scaled: u64 = at as u64 * from as u64 / to;
    assert(at * from / to as int >= 0) by (nonlinear_arith)
        requires
            at >= 0,
            from >= 0,
            to > 0,
    ;
    if scaled < from as u64 - 1 {
        scaled as u32
    } else {
        from - 1
    }
}

/// The source pixel under a canvas texel. Nearest neighbour, never averaged:
/// a blend of two neighbouring colours is a colour the artist never used, and
/// the wand would then match neither of them.
pub fn source_texel(src: &Pixels, x: u32, y: u32, w: u32, h: u32) -> (px: [u8; 4])
    requires
        src.wf(),
        src.width > 0,
        src.height > 0,
    ensures
        px@ == channels(source(*src, x as int, y as int, w as int, h as int)),
        pixel(px) == source(*src, x as int, y as int, w as int, h as int),
        px@[0] == source(*src, x as int, y as int, w as int, h as int).r,
        px@[1] == source(*src, x as int, y as int, w as int, h as int).g,
        px@[2] == source(*src, x as int, y as int, w as int, h as int).b,
        px@[3] == source(*src, x as int, y as int, w as int, h as int).a,
{
    let sx: u32 = nearest(x, src.width, w);
    let sy: u32 = nearest(y, src.height, h);
    let px: Rgba = src.get_pixel(sx, sy);
    let out: [u8; 4] = [px.r, px.g, px.b, px.a];
    assert(out@ =~= channels(px));
    out
}

/// Every texel the sprite actually covers.
pub fn select_opaque(src: &Pixels, w: u32, h: u32) -> (out: Vec<bool>)
    requires
        src.wf(),
        w > 0 && h > 0 ==> src.width > 0 && src.height > 0,
        w * h <= usize::MAX,
    ensures
        out@.len() == w * h,
        forall|x: int, y: int|
            on_canvas(w as int, h as int, x, y) ==> #[trigger] out@[texel(w as int, x, y)] == (
            source(*src, x, y, w as int, h as int).a > 0),
{
    let mut out: Vec<bool> = Vec::new();
    let n: usize = w as usize * h as usize;
    let mut x: u32 = 0;
    let mut y: u32 = 0;
    while out.len() < n
        invariant
            src.wf(),
            w > 0 && h > 0 ==> src.width > 0 && src.height > 0,
            n == w * h,
            w > 0 ==> x < w,
            out@.len() <= n,
            out@.len() == texel(w as int, x as int, y as int),
            forall|i: int|
                0 <= i < out@.len() ==> #[trigger] out@[i] == (source(
                    *src,
                    i % w as int,
                    i / w as int,
                    w as int,
                    h as int,
                ).a > 0),
        decreases n - out@.len(),
    {
        proof {
            if w == 0 {
                assert(w * h == 0) by (nonlinear_arith)
                    requires
                        w == 0,
                ;
            }
            assert(y < h) by (nonlinear_arith)
                requires
                    y * w + x < w * h,
                    x >= 0,
                    w > 0,
                    y >= 0,
            ;
            crate::grid::lemma_texel(w as int, h as int, x as int, y as int);
        }
        out.push(source_texel(src, x, y, w, h)[3] > 0);
        if x + 1 < w {
            x += 1;
        } else {
            assert((y + 1) * w == y * w + w) by (nonlinear_arith);
            x = 0;
            y += 1;
        }
    }
    proof {
        assert forall|x: int, y: int| on_canvas(w as int, h as int, x, y) implies #[trigger] out@[
        texel(w as int, x, y)] == (source(*src, x, y, w as int, h as int).a > 0) by {
            crate::grid::lemma_texel(w as int, h as int, x, y);
        }
    }
    out
}

/// A texel on the stack of those still to be looked round.
spec fn waiting(stack: Seq<(u32, u32)>, c: (int, int)) -> bool {
    stack.contains((c.0 as u32, c.1 as u32))
}

/// A texel all of whose open neighbours have been picked.
spec fn looked_round(
    open: spec_fn((int, int)) -> bool,
    picked: Seq<bool>,
    w: int,
    c: (int, int),
) -> bool {
    forall|d: (int, int)| #[trigger]
        touching(c, d) && open(d) ==> picked[texel(w, d.0, d.1)]
}

/// What holds of the wand between two texels: what is picked can be reached,
/// and every picked texel is either looked round or waiting.
spec fn spreading(
    open: spec_fn((int, int)) -> bool,
    picked: Seq<bool>,
    stack: Seq<(u32, u32)>,
    w: int,
    h: int,
    seed: (int, int),
    busy: (int, int),
) -> bool {
    &&& picked[texel(w, seed.0, seed.1)]
    &&& forall|x: int, y: int|
        on_canvas(w, h, x, y) && picked[#[trigger] texel(w, x, y)] ==> connected(
            open,
            seed,
            (x, y),
        ) && ((x, y) == busy || waiting(stack, (x, y)) || looked_round(open, picked, w, (x, y)))
    &&& forall|k: int|
        0 <= k < stack.len() ==> on_canvas(
            w,
            h,
            (#[trigger] stack[k]).0 as int,
            stack[k].1 as int,
        ) && picked[texel(w, stack[k].0 as int, stack[k].1 as int)]
}

/// The marked texels of a canvas.
pub open spec fn marked(marks: Seq<bool>, w: int, h: int) -> spec_fn((int, int)) -> bool {
    |p: (int, int)| on_canvas(w, h, p.0, p.1) && marks[texel(w, p.0, p.1)]
}

/// The marked texels that can be reached from `(x, y)` over marked ones.
pub fn flood(marks: &Vec<bool>, w: u32, h: u32, x: u32, y: u32) -> (out: Vec<bool>)
    requires
        marks@.len() == w * h,
        w <= i32::MAX,
        h <= i32::MAX,
        x < w,
        y < h,
        marks@[texel(w as int, x as int, y as int)],
    ensures
        out@.len() == w * h,
        forall|cx: int, cy: int|
            on_canvas(w as int, h as int, cx, cy) ==> #[trigger] out@[texel(w as int, cx, cy)]
                == connected(
                marked(marks@, w as int, h as int),
                (x as int, y as int),
                (cx, cy),
            ),
{
    let n: usize = marks.len();
    let mut out: Vec<bool> = vec![false; n];
    let ghost open = marked(marks@, w as int, h as int);
    let ghost start = (x as int, y as int);
    proof {
        crate::grid::lemma_texel(w as int, h as int, x as int, y as int);
        assert(0 <= y * w) by (nonlinear_arith);
        assert(open(start));
        crate::grid::lemma_connected_self(open, start);
    }
    let mut stack: Vec<(u32, u32)> = vec![(x, y)];
    out[y as usize * w as usize + x as usize] = true;
    proof {
        assert forall|cx: int, cy: int|
            on_canvas(w as int, h as int, cx, cy) && out@[#[trigger] texel(
                w as int,
                cx,
                cy,
            )] implies connected(open, start, (cx, cy)) && waiting(stack@, (cx, cy)) by {
            crate::grid::lemma_texel(w as int, h as int, cx, cy);
            assert((cx, cy) == start);
            assert(stack@[0] == (x, y));
        }
    }
    while stack.len() > 0
        invariant
            marks@.len() == w * h,
            w <= i32::MAX,
            h <= i32::MAX,
            x < w,
            y < h,
            out@.len() == w * h,
            start == (x as int, y as int),
            open == marked(marks@, w as int, h as int),
            spreading(open, out@, stack@, w as int, h as int, start, (-1, -1)),
        decreases out@.len() - count(out@), stack@.len(),
    {
        let ghost held = stack@;
        let ghost picked = out@;
        let (cx, cy): (u32, u32) = stack.pop().unwrap();
        let ghost c = (cx as int, cy as int);
        proof {
            assert(held.last() == (cx, cy));
            assert(held[held.len() - 1] == (cx, cy));
            assert forall|ex: int, ey: int|
                on_canvas(w as int, h as int, ex, ey) && out@[#[trigger] texel(
                    w as int,
                    ex,
                    ey,
                )] implies (ex, ey) == c || waiting(stack@, (ex, ey)) || looked_round(
                open,
                out@,
                w as int,
                (ex, ey),
            ) by {
                let e = (ex, ey);
                if waiting(held, e) && e != c {
                    let k = choose|k: int|
                        0 <= k < held.len() && held[k] == (e.0 as u32, e.1 as u32);
                    assert(stack@[k] == held[k]);
                }
            }
            assert forall|k: int| 0 <= k < stack@.len() implies on_canvas(
                w as int,
                h as int,
                (#[trigger] stack@[k]).0 as int,
                stack@[k].1 as int,
            ) && out@[texel(w as int, stack@[k].0 as int, stack@[k].1 as int)] by {
                assert(stack@[k] == held[k]);
            }
            crate::grid::lemma_count_bound(out@);
            lemma_around(cx, cy, w, h);
        }
        let beside: Vec<(u32, u32)> = neighbours(cx, cy, w, h);
        let mut j: usize = 0;
        while j < beside.len()
            invariant
                j <= beside@.len(),
                marks@.len() == w * h,
                x < w,
                y < h,
                out@.len() == w * h,
                start == (x as int, y as int),
                c == (cx as int, cy as int),
                on_canvas(w as int, h as int, c.0, c.1),
                connected(open, start, c),
                open == marked(marks@, w as int, h as int),
                beside@ == around(cx, cy, w, h),
                forall|k: int|
                    #![trigger beside@[k]]
                    0 <= k < beside@.len() ==> on_canvas(
                        w as int,
                        h as int,
                        beside@[k].0 as int,
                        beside@[k].1 as int,
                    ) && touching(c, (beside@[k].0 as int, beside@[k].1 as int)),
                forall|k: int|
                    #![trigger beside@[k]]
                    0 <= k < j && open((beside@[k].0 as int, beside@[k].1 as int)) ==> out@[texel(
                        w as int,
                        beside@[k].0 as int,
                        beside@[k].1 as int,
                    )],
                spreading(open, out@, stack@, w as int, h as int, start, c),
                count(out@) <= out@.len(),
                count(out@) > count(picked) || (out@ == picked && stack@.len() + 1 == held.len()),
                count(out@) >= count(picked),
            decreases beside@.len() - j,
        {
            let (nx, ny): (u32, u32) = beside[j];
            let ghost d = (nx as int, ny as int);
            proof {
                crate::grid::lemma_texel(w as int, h as int, nx as int, ny as int);
                assert(0 <= ny * w) by (nonlinear_arith);
                assert(out.len() == w * h);
            }
            let i: usize = ny as usize * w as usize + nx as usize;
            let ghost was = out@;
            if !out[i] && marks[i] {
                let ghost had = stack@;
                out[i] = true;
                stack.push((nx, ny));
                proof {
                    assert(open(d));
                    crate::grid::lemma_connected_step(open, start, c, d);
                    crate::grid::lemma_count_set(was, i as int);
                    crate::grid::lemma_count_bound(out@);
                    lemma_spread(open, was, had, w as int, h as int, start, c, (nx, ny));
                }
            }
            proof {
                assert forall|k: int|
                    #![trigger beside@[k]]
                    0 <= k < j + 1 && open(
                        (beside@[k].0 as int, beside@[k].1 as int),
                    ) implies out@[texel(w as int, beside@[k].0 as int, beside@[k].1 as int)] by {
                    if k < j {
                        assert(was[texel(w as int, beside@[k].0 as int, beside@[k].1 as int)]);
                        crate::grid::lemma_texel(
                            w as int,
                            h as int,
                            beside@[k].0 as int,
                            beside@[k].1 as int,
                        );
                    }
                }
            }
            j += 1;
        }
        proof {
            assert forall|d: (int, int)| #[trigger]
                touching(c, d) && open(d) implies out@[texel(w as int, d.0, d.1)] by {
                let p = (d.0 as u32, d.1 as u32);
                assert(beside@.contains(p));
                let k = choose|k: int| 0 <= k < beside@.len() && beside@[k] == p;
                assert(open((beside@[k].0 as int, beside@[k].1 as int)));
            }
            assert(looked_round(open, out@, w as int, c));
            assert(spreading(open, out@, stack@, w as int, h as int, start, (-1, -1)));
        }
    }
    proof {
        assert forall|cx: int, cy: int| on_canvas(w as int, h as int, cx, cy) implies #[trigger] out@[
        texel(w as int, cx, cy)] == connected(open, start, (cx, cy)) by {
            if connected(open, start, (cx, cy)) {
                let inside = |p: (int, int)|
                    on_canvas(w as int, h as int, p.0, p.1) && out@[texel(w as int, p.0, p.1)];
                assert forall|a: (int, int), b: (int, int)|
                    #![trigger inside(a), touching(a, b)]
                    inside(a) && touching(a, b) && open(b) implies inside(b) by {
                    assert(out@[texel(w as int, a.0, a.1)]);
                    assert(looked_round(open, out@, w as int, a));
                }
                crate::grid::lemma_connected_within(open, inside, start, (cx, cy));
                assert(inside((cx, cy)));
            }
        }
    }
    out
}

/// Picking one more open texel that can be reached, and leaving it to wait.
proof fn lemma_spread(
    open: spec_fn((int, int)) -> bool,
    picked: Seq<bool>,
    stack: Seq<(u32, u32)>,
    w: int,
    h: int,
    seed: (int, int),
    busy: (int, int),
    p: (u32, u32),
)
    requires
        spreading(open, picked, stack, w, h, seed, busy),
        picked.len() == w * h,
        on_canvas(w, h, seed.0, seed.1),
        on_canvas(w, h, p.0 as int, p.1 as int),
        connected(open, seed, (p.0 as int, p.1 as int)),
        forall|d: (int, int)| #[trigger] open(d) ==> on_canvas(w, h, d.0, d.1),
    ensures
        spreading(
            open,
            picked.update(texel(w, p.0 as int, p.1 as int), true),
            stack.push(p),
            w,
            h,
            seed,
            busy,
        ),
{
    let next = picked.update(texel(w, p.0 as int, p.1 as int), true);
    let longer = stack.push(p);
    crate::grid::lemma_texel(w, h, p.0 as int, p.1 as int);
    crate::grid::lemma_texel(w, h, seed.0, seed.1);
    assert forall|x: int, y: int|
        on_canvas(w, h, x, y) && next[#[trigger] texel(w, x, y)] implies connected(
        open,
        seed,
        (x, y),
    ) && ((x, y) == busy || waiting(longer, (x, y)) || looked_round(open, next, w, (x, y))) by {
        let c = (x, y);
        crate::grid::lemma_texel(w, h, c.0, c.1);
        if c == (p.0 as int, p.1 as int) {
            assert(longer[stack.len() as int] == p);
        } else {
            assert(picked[texel(w, c.0, c.1)]);
            if waiting(stack, c) {
                let k = choose|k: int|
                    0 <= k < stack.len() && stack[k] == (c.0 as u32, c.1 as u32);
                assert(longer[k] == stack[k]);
            } else if looked_round(open, picked, w, c) {
                assert forall|d: (int, int)| #[trigger] touching(c, d) && open(d) implies next[texel(
                    w,
                    d.0,
                    d.1,
                )] by {
                    crate::grid::lemma_texel(w, h, d.0, d.1);
                }
            }
        }
    }
    assert forall|k: int| 0 <= k < longer.len() implies on_canvas(
        w,
        h,
        (#[trigger] longer[k]).0 as int,
        longer[k].1 as int,
    ) && next[texel(w, longer[k].0 as int, longer[k].1 as int)] by {
        if k < stack.len() {
            assert(longer[k] == stack[k]);
            crate::grid::lemma_texel(w, h, stack[k].0 as int, stack[k].1 as int);
        }
    }
}

/// The contiguous run of similar colour under `(x, y)`: the magic wand, and
/// the reason this is worth having for pixel art: a sprite is already drawn in
/// flat regions, so the artist has done the selecting. `cutoff` is how far, in
/// levels, a channel may drift.
pub fn select_similar(src: &Pixels, w: u32, h: u32, x: u32, y: u32, cutoff: i32) -> (out: Vec<
    bool,
>)
    requires
        src.wf(),
        x < w && y < h ==> src.width > 0 && src.height > 0,
        w <= i32::MAX,
        h <= i32::MAX,
        w * h <= usize::MAX,
        cutoff >= 0,
    ensures
        out@.len() == w * h,
        !on_canvas(w as int, h as int, x as int, y as int) ==> forall|i: int|
            0 <= i < out@.len() ==> !(#[trigger] out@[i]),
        on_canvas(w as int, h as int, x as int, y as int) ==> forall|cx: int, cy: int|
            on_canvas(w as int, h as int, cx, cy) ==> #[trigger] out@[texel(w as int, cx, cy)]
                == connected(
                matching(
                    *src,
                    w as int,
                    h as int,
                    source(*src, x as int, y as int, w as int, h as int),
                    cutoff as int,
                ),
                (x as int, y as int),
                (cx, cy),
            ),
{
    let n: usize = w as usize * h as usize;
    if x >= w || y >= h {
        return vec![false; n];
    }
    let seed: [u8; 4] = source_texel(src, x, y, w, h);
    let ghost open = matching(*src, w as int, h as int, pixel(seed), cutoff as int);
    let mut marks: Vec<bool> = Vec::new();
    let mut cx: u32 = 0;
    let mut cy: u32 = 0;
    while marks.len() < n
        invariant
            src.wf(),
            src.width > 0,
            src.height > 0,
            n == w * h,
            w > 0,
            cx < w,
            open == matching(*src, w as int, h as int, pixel(seed), cutoff as int),
            marks@.len() <= n,
            marks@.len() == texel(w as int, cx as int, cy as int),
            forall|i: int|
                0 <= i < marks@.len() ==> #[trigger] marks@[i] == open(
                    (i % w as int, i / w as int),
                ),
        decreases n - marks@.len(),
    {
        proof {
            assert(cy < h) by (nonlinear_arith)
                requires
                    cy * w + cx < w * h,
                    cx >= 0,
                    w > 0,
                    cy >= 0,
            ;
            crate::grid::lemma_texel(w as int, h as int, cx as int, cy as int);
        }
        marks.push(alike(seed, source_texel(src, cx, cy, w, h), cutoff));
        if cx + 1 < w {
            cx += 1;
        } else {
            assert((cy + 1) * w == cy * w + w) by (nonlinear_arith);
            cx = 0;
            cy += 1;
        }
    }
    proof {
        crate::grid::lemma_texel(w as int, h as int, x as int, y as int);
        assert(open((x as int, y as int)));
        assert forall|p: (int, int)| #[trigger]
            marked(marks@, w as int, h as int)(p) == open(p) by {
            if on_canvas(w as int, h as int, p.0, p.1) {
                crate::grid::lemma_texel(w as int, h as int, p.0, p.1);
            }
        }
        assert(marked(marks@, w as int, h as int) =~= open);
    }
    flood(&marks, w, h, x, y)
}

// ------------------------------------------------------------------ the laws

/// Outside a region the inset is nothing, and inside it is at least one texel.
pub proof fn law_inset_starts_at_the_edge(
    selected: Seq<bool>,
    w: int,
    h: int,
    reach: Reach,
    x: int,
    y: int,
    d: int,
)
    requires
        0 <= x < w + 2,
        0 <= y < h + 2,
        is_inset(selected, w, h, reach, x, y, d),
    ensures
        inset(selected, w, h, reach, x, y) == d,
        outside(selected, w, h, x, y) ==> d == 0,
        !outside(selected, w, h, x, y) ==> d >= 1,
{
    crate::distance::lemma_inset(selected, w, h, reach, x, y, d);
    let (ox, oy) = choose|ox: int, oy: int| #[trigger]
        measured_to(selected, w, h, reach, x, y, ox, oy) && d == squared(x, y, ox, oy);
    assert((x - ox) * (x - ox) >= 0) by (nonlinear_arith);
    assert((y - oy) * (y - oy) >= 0) by (nonlinear_arith);
    if outside(selected, w, h, x, y) {
        assert(measured_to(selected, w, h, reach, x, y, x, y));
        assert(squared(x, y, x, y) == 0);
    } else if ox != x {
        assert((x - ox) * (x - ox) >= 1) by (nonlinear_arith)
            requires
                ox != x,
        ;
    } else {
        assert((y - oy) * (y - oy) >= 1) by (nonlinear_arith)
            requires
                oy != y,
        ;
    }
}

/// A tube is round across its axis and dead flat along it: where two columns
/// of a region are selected alike, a tube lying across stands equally high in
/// both.
pub proof fn law_tube_x_is_flat_along_its_axis(
    selected: Seq<bool>,
    w: int,
    h: int,
    a: int,
    b: int,
    y: int,
)
    requires
        0 <= a < w + 2,
        0 <= b < w + 2,
        0 <= y < h + 2,
        forall|r: int|
            0 <= r < h + 2 ==> #[trigger] outside(selected, w, h, a, r) == outside(
                selected,
                w,
                h,
                b,
                r,
            ),
    ensures
        inset(selected, w, h, Shape::TubeX.reach(), a, y) == inset(
            selected,
            w,
            h,
            Shape::TubeX.reach(),
            b,
            y,
        ),
{
    let d = lemma_inset_exists(selected, w, h, Reach::Column, a, y);
    crate::distance::lemma_inset(selected, w, h, Reach::Column, a, y, d);
    let (ox, oy) = choose|ox: int, oy: int| #[trigger]
        measured_to(selected, w, h, Reach::Column, a, y, ox, oy) && d == squared(a, y, ox, oy);
    assert(outside(selected, w, h, a, oy));
    assert(measured_to(selected, w, h, Reach::Column, b, y, b, oy));
    assert((a - a) * (a - a) == (b - b) * (b - b));
    assert forall|px: int, py: int| #[trigger]
        measured_to(selected, w, h, Reach::Column, b, y, px, py) implies d <= squared(
        b,
        y,
        px,
        py,
    ) by {
        assert(outside(selected, w, h, a, py));
        assert(measured_to(selected, w, h, Reach::Column, a, y, a, py));
    }
    assert(is_inset(selected, w, h, Reach::Column, b, y, d));
    crate::distance::lemma_inset(selected, w, h, Reach::Column, b, y, d);
}

/// The same of a tube standing up, for two rows selected alike.
pub proof fn law_tube_y_is_flat_along_its_axis(
    selected: Seq<bool>,
    w: int,
    h: int,
    x: int,
    a: int,
    b: int,
)
    requires
        0 <= a < h + 2,
        0 <= b < h + 2,
        0 <= x < w + 2,
        forall|c: int|
            0 <= c < w + 2 ==> #[trigger] outside(selected, w, h, c, a) == outside(
                selected,
                w,
                h,
                c,
                b,
            ),
    ensures
        inset(selected, w, h, Shape::TubeY.reach(), x, a) == inset(
            selected,
            w,
            h,
            Shape::TubeY.reach(),
            x,
            b,
        ),
{
    let d = lemma_inset_exists(selected, w, h, Reach::Row, x, a);
    crate::distance::lemma_inset(selected, w, h, Reach::Row, x, a, d);
    let (ox, oy) = choose|ox: int, oy: int| #[trigger]
        measured_to(selected, w, h, Reach::Row, x, a, ox, oy) && d == squared(x, a, ox, oy);
    assert(outside(selected, w, h, ox, a));
    assert(measured_to(selected, w, h, Reach::Row, x, b, ox, b));
    assert((a - a) * (a - a) == (b - b) * (b - b));
    assert forall|px: int, py: int| #[trigger]
        measured_to(selected, w, h, Reach::Row, x, b, px, py) implies d <= squared(
        x,
        b,
        px,
        py,
    ) by {
        assert(outside(selected, w, h, px, a));
        assert(measured_to(selected, w, h, Reach::Row, x, a, px, a));
    }
    assert(is_inset(selected, w, h, Reach::Row, x, b, d));
    crate::distance::lemma_inset(selected, w, h, Reach::Row, x, b, d);
}

/// So it has no sideways slope: whatever the profile curve, the left and the
/// right edge of a texel stand equally high where the columns on either side
/// are selected as its own is.
pub proof fn law_a_tube_has_no_sideways_slope<T, F: Fn(Curve<T>, u64, u64) -> u8>(
    height: F,
    cut: Cut<T>,
    selected: Seq<bool>,
    w: int,
    h: int,
    x: int,
    y: int,
    v: u8,
)
    requires
        cut.shape == Shape::TubeX,
        on_canvas(w, h, x, y),
        forall|r: int|
            0 <= r < h + 2 ==> #[trigger] outside(selected, w, h, x, r) == outside(
                selected,
                w,
                h,
                x + 2,
                r,
            ),
    ensures
        edge_is(height, cut, selected, w, h, x, y, 1, v) == edge_is(
            height,
            cut,
            selected,
            w,
            h,
            x,
            y,
            2,
            v,
        ),
{
    law_tube_x_is_flat_along_its_axis(selected, w, h, x, x + 2, y + 1);
    lemma_edges_alike(height, cut, selected, w, h, (x, y, 1), (x, y, 2), v);
}

/// The same of a tube standing up: its top and bottom edges stand equally high
/// where the rows above and below are selected alike.
pub proof fn law_a_standing_tube_has_no_slope_up_and_down<T, F: Fn(Curve<T>, u64, u64) -> u8>(
    height: F,
    cut: Cut<T>,
    selected: Seq<bool>,
    w: int,
    h: int,
    x: int,
    y: int,
    v: u8,
)
    requires
        cut.shape == Shape::TubeY,
        on_canvas(w, h, x, y),
        forall|c: int|
            0 <= c < w + 2 ==> #[trigger] outside(selected, w, h, c, y) == outside(
                selected,
                w,
                h,
                c,
                y + 2,
            ),
    ensures
        edge_is(height, cut, selected, w, h, x, y, 0, v) == edge_is(
            height,
            cut,
            selected,
            w,
            h,
            x,
            y,
            3,
            v,
        ),
{
    law_tube_y_is_flat_along_its_axis(selected, w, h, x + 1, y, y + 2);
    lemma_edges_alike(height, cut, selected, w, h, (x, y, 0), (x, y, 3), v);
}

/// Two edges with the same insets on either side stand equally high.
proof fn lemma_edges_alike<T, F: Fn(Curve<T>, u64, u64) -> u8>(
    height: F,
    cut: Cut<T>,
    selected: Seq<bool>,
    w: int,
    h: int,
    a: (int, int, int),
    b: (int, int, int),
    v: u8,
)
    requires
        ({
            let reach = cut.shape.reach();
            let p = across(a.0, a.1, a.2);
            let q = across(b.0, b.1, b.2);
            &&& canvas_inset(selected, w, h, reach, a.0, a.1) == canvas_inset(
                selected,
                w,
                h,
                reach,
                b.0,
                b.1,
            )
            &&& canvas_inset(selected, w, h, reach, p.0, p.1) == canvas_inset(
                selected,
                w,
                h,
                reach,
                q.0,
                q.1,
            )
        }),
    ensures
        edge_is(height, cut, selected, w, h, a.0, a.1, a.2, v) == edge_is(
            height,
            cut,
            selected,
            w,
            h,
            b.0,
            b.1,
            b.2,
            v,
        ),
{
}

/// Does a curve make the same of an edge from either side?
pub open spec fn even_handed<T, F: Fn(Curve<T>, u64, u64) -> u8>(height: F) -> bool {
    forall|curve: Curve<T>, a: u64, b: u64, v: u8| #[trigger]
        height.ensures((curve, a, b), v) == height.ensures((curve, b, a), v)
}

/// The surface has no cracks. Under a curve that makes the same of an edge from
/// either side, the right edge of a texel stands as high as the left edge of
/// the texel beside it, and the bottom edge as high as the top edge of the
/// texel below.
pub proof fn law_the_surface_has_no_cracks<T, F: Fn(Curve<T>, u64, u64) -> u8>(
    height: F,
    cut: Cut<T>,
    selected: Seq<bool>,
    w: int,
    h: int,
    x: int,
    y: int,
    v: u8,
)
    requires
        even_handed(height),
    ensures
        edge_is(height, cut, selected, w, h, x, y, 2, v) == edge_is(
            height,
            cut,
            selected,
            w,
            h,
            x + 1,
            y,
            1,
            v,
        ),
        edge_is(height, cut, selected, w, h, x, y, 3, v) == edge_is(
            height,
            cut,
            selected,
            w,
            h,
            x,
            y + 1,
            0,
            v,
        ),
{
    lemma_edge_from_both_sides(height, cut, selected, w, h, (x, y, 2), (x + 1, y, 1), v);
    lemma_edge_from_both_sides(height, cut, selected, w, h, (x + 1, y, 1), (x, y, 2), v);
    lemma_edge_from_both_sides(height, cut, selected, w, h, (x, y, 3), (x, y + 1, 0), v);
    lemma_edge_from_both_sides(height, cut, selected, w, h, (x, y + 1, 0), (x, y, 3), v);
}

proof fn lemma_edge_from_both_sides<T, F: Fn(Curve<T>, u64, u64) -> u8>(
    height: F,
    cut: Cut<T>,
    selected: Seq<bool>,
    w: int,
    h: int,
    a: (int, int, int),
    b: (int, int, int),
    v: u8,
)
    requires
        even_handed(height),
        across(a.0, a.1, a.2) == (b.0, b.1),
        across(b.0, b.1, b.2) == (a.0, a.1),
    ensures
        edge_is(height, cut, selected, w, h, a.0, a.1, a.2, v) ==> edge_is(
            height,
            cut,
            selected,
            w,
            h,
            b.0,
            b.1,
            b.2,
            v,
        ),
{
    if edge_is(height, cut, selected, w, h, a.0, a.1, a.2, v) {
        let reach = cut.shape.reach();
        let (own, beyond, deepest) = choose|own: u64, beyond: u64, deepest: u64|
            {
                &&& own == canvas_inset(selected, w, h, reach, a.0, a.1)
                &&& beyond == canvas_inset(selected, w, h, reach, b.0, b.1)
                &&& is_deepest(selected, w, h, reach, deepest as int)
                &&& #[trigger] height.ensures((cut.curve_over(deepest), own, beyond), v)
            };
        assert(height.ensures((cut.curve_over(deepest), beyond, own), v));
    }
}

/// Do two cuts under two curves make the same of every edge? With one cut and
/// one curve this says that the curve has one answer to each question.
pub open spec fn agree<T, F: Fn(Curve<T>, u64, u64) -> u8, G: Fn(Curve<T>, u64, u64) -> u8>(
    f: F,
    a: Cut<T>,
    g: G,
    b: Cut<T>,
) -> bool {
    forall|deepest: u64, own: u64, beyond: u64, u: u8, v: u8|
        #![trigger f.ensures((a.curve_over(deepest), own, beyond), u), g.ensures((b.curve_over(deepest), own, beyond), v)]
        f.ensures((a.curve_over(deepest), own, beyond), u) && g.ensures(
            (b.curve_over(deepest), own, beyond),
            v,
        ) ==> u == v
}

/// Curves that agree give the same cells.
pub proof fn law_curves_that_agree_raster_alike<
    T,
    F: Fn(Curve<T>, u64, u64) -> u8,
    G: Fn(Curve<T>, u64, u64) -> u8,
>(
    f: F,
    a: Cut<T>,
    x: Seq<Option<[u8; 4]>>,
    g: G,
    b: Cut<T>,
    y: Seq<Option<[u8; 4]>>,
    selected: Seq<bool>,
    w: int,
    h: int,
)
    requires
        w >= 0,
        h >= 0,
        selected.len() == w * h,
        a.shape.reach() == b.shape.reach(),
        agree(f, a, g, b),
        is_raster(f, a, selected, w, h, x),
        is_raster(g, b, selected, w, h, y),
    ensures
        x == y,
{
    assert forall|i: int| 0 <= i < x.len() implies #[trigger] x[i] == y[i] by {
        assert(x[i].is_some() == selected[i]);
        assert(y[i].is_some() == selected[i]);
        if selected[i] {
            if w == 0 {
                assert(w * h == 0) by (nonlinear_arith)
                    requires
                        w == 0,
                ;
            }
            crate::grid::lemma_texel_onto(w, h, i);
            let cx = i % w;
            let cy = i / w;
            let p = x[i].unwrap();
            let q = y[i].unwrap();
            assert forall|edge: int| 0 <= edge < 4 implies p@[edge] == q@[edge] by {
                let u = x[texel(w, cx, cy)].unwrap()@[edge];
                let v = y[texel(w, cx, cy)].unwrap()@[edge];
                assert(edge_is(f, a, selected, w, h, cx, cy, edge, u));
                assert(edge_is(g, b, selected, w, h, cx, cy, edge, v));
                lemma_edges_agree(f, a, g, b, selected, w, h, cx, cy, edge, u, v);
            }
            assert(p@ =~= q@);
            assert(p =~= q);
        }
    }
    assert(x =~= y);
}

proof fn lemma_edges_agree<
    T,
    F: Fn(Curve<T>, u64, u64) -> u8,
    G: Fn(Curve<T>, u64, u64) -> u8,
>(
    f: F,
    a: Cut<T>,
    g: G,
    b: Cut<T>,
    selected: Seq<bool>,
    w: int,
    h: int,
    x: int,
    y: int,
    edge: int,
    u: u8,
    v: u8,
)
    requires
        a.shape.reach() == b.shape.reach(),
        agree(f, a, g, b),
        edge_is(f, a, selected, w, h, x, y, edge, u),
        edge_is(g, b, selected, w, h, x, y, edge, v),
    ensures
        u == v,
{
    let reach = a.shape.reach();
    let o = across(x, y, edge);
    let (o1, b1, d1) = choose|own: u64, beyond: u64, deepest: u64|
        {
            &&& own == canvas_inset(selected, w, h, reach, x, y)
            &&& beyond == canvas_inset(selected, w, h, reach, o.0, o.1)
            &&& is_deepest(selected, w, h, reach, deepest as int)
            &&& #[trigger] f.ensures((a.curve_over(deepest), own, beyond), u)
        };
    let (o2, b2, d2) = choose|own: u64, beyond: u64, deepest: u64|
        {
            &&& own == canvas_inset(selected, w, h, reach, x, y)
            &&& beyond == canvas_inset(selected, w, h, reach, o.0, o.1)
            &&& is_deepest(selected, w, h, reach, deepest as int)
            &&& #[trigger] g.ensures((b.curve_over(deepest), own, beyond), v)
        };
    // There is one deepest inset.
    assert(d1 == d2);
    assert(g.ensures((b.curve_over(d1), o1, b1), v));
}

/// The ramp width is for the bevels only: whatever the curve, as long as it has
/// one answer to each question, the width cannot move any other shape.
pub proof fn law_the_width_is_for_the_bevels<T, F: Fn(Curve<T>, u64, u64) -> u8>(
    height: F,
    a: Cut<T>,
    x: Seq<Option<[u8; 4]>>,
    b: Cut<T>,
    y: Seq<Option<[u8; 4]>>,
    selected: Seq<bool>,
    w: int,
    h: int,
)
    requires
        w >= 0,
        h >= 0,
        selected.len() == w * h,
        !a.shape.ramps(),
        b == (Cut { width: b.width, ..a }),
        agree(height, a, height, a),
        is_raster(height, a, selected, w, h, x),
        is_raster(height, b, selected, w, h, y),
    ensures
        x == y,
{
    assert forall|deepest: u64| a.curve_over(deepest) == #[trigger] b.curve_over(deepest) by {}
    assert(agree(height, a, height, b));
    law_curves_that_agree_raster_alike(height, a, x, height, b, y, selected, w, h);
}

/// The ring round the canvas is always outside, so an inset always exists.
pub proof fn lemma_inset_exists(
    selected: Seq<bool>,
    w: int,
    h: int,
    reach: Reach,
    x: int,
    y: int,
) -> (d: int)
    requires
        0 <= x < w + 2,
        0 <= y < h + 2,
    ensures
        is_inset(selected, w, h, reach, x, y, d),
{
    let (ox, oy) = match reach {
        Reach::Row => (0int, y),
        _ => (x, 0int),
    };
    assert(measured_to(selected, w, h, reach, x, y, ox, oy));
    lemma_least(selected, w, h, reach, x, y, ox, oy, squared(x, y, ox, oy) as nat)
}

proof fn lemma_least(
    selected: Seq<bool>,
    w: int,
    h: int,
    reach: Reach,
    x: int,
    y: int,
    ox: int,
    oy: int,
    bound: nat,
) -> (d: int)
    requires
        measured_to(selected, w, h, reach, x, y, ox, oy),
        squared(x, y, ox, oy) <= bound,
    ensures
        is_inset(selected, w, h, reach, x, y, d),
    decreases bound,
{
    let here = squared(x, y, ox, oy);
    if exists|px: int, py: int| #[trigger]
        measured_to(selected, w, h, reach, x, y, px, py) && squared(x, y, px, py) < here {
        let (px, py) = choose|px: int, py: int| #[trigger]
            measured_to(selected, w, h, reach, x, y, px, py) && squared(x, y, px, py) < here;
        assert((x - px) * (x - px) >= 0) by (nonlinear_arith);
        assert((y - py) * (y - py) >= 0) by (nonlinear_arith);
        lemma_least(selected, w, h, reach, x, y, px, py, squared(x, y, px, py) as nat)
    } else {
        here
    }
}

/// A texel picked by the wand is one that matches its seed.
pub proof fn law_wand_stops_at_a_different_colour(
    src: Pixels,
    w: int,
    h: int,
    x: int,
    y: int,
    cutoff: int,
    cx: int,
    cy: int,
)
    requires
        connected(
            matching(src, w, h, source(src, x, y, w, h), cutoff),
            (x, y),
            (cx, cy),
        ),
    ensures
        on_canvas(w, h, cx, cy),
        same_colour(source(src, x, y, w, h), source(src, cx, cy, w, h), cutoff),
{
    let open = matching(src, w, h, source(src, x, y, w, h), cutoff);
    let walk = choose|walk: Seq<(int, int)>| #[trigger]
        crate::grid::is_walk(open, walk) && walk[0] == (x, y) && walk.last() == (cx, cy);
    assert(open(walk[walk.len() - 1]));
}

/// Where all the source is transparent, the wand picks the whole canvas,
/// whatever colours lie under the eraser.
pub proof fn law_wand_treats_transparent_alike(
    src: Pixels,
    w: int,
    h: int,
    x: int,
    y: int,
    cutoff: int,
    cx: int,
    cy: int,
)
    requires
        on_canvas(w, h, x, y),
        on_canvas(w, h, cx, cy),
        forall|px: int, py: int|
            on_canvas(w, h, px, py) ==> (#[trigger] source(src, px, py, w, h)).a == 0,
    ensures
        connected(
            matching(src, w, h, source(src, x, y, w, h), cutoff),
            (x, y),
            (cx, cy),
        ),
{
    let open = matching(src, w, h, source(src, x, y, w, h), cutoff);
    assert forall|px: int, py: int| #[trigger] on_canvas(w, h, px, py) implies open((px, py)) by {
        assert(source(src, px, py, w, h).a == 0);
    }
    lemma_across_open(open, w, h, (x, y), cx, cy);
}

/// On a canvas that is open throughout, every texel can be reached.
proof fn lemma_across_open(
    open: spec_fn((int, int)) -> bool,
    w: int,
    h: int,
    a: (int, int),
    x: int,
    y: int,
)
    requires
        on_canvas(w, h, a.0, a.1),
        on_canvas(w, h, x, y),
        forall|px: int, py: int| #[trigger] on_canvas(w, h, px, py) ==> open((px, py)),
    ensures
        connected(open, a, (x, y)),
    decreases
            if x < a.0 {
                a.0 - x
            } else {
                x - a.0
            },
            if y < a.1 {
                a.1 - y
            } else {
                y - a.1
            },
{
    assert(open((x, y)));
    if x == a.0 && y == a.1 {
        assert(a == (x, y));
        crate::grid::lemma_connected_self(open, a);
    } else {
        let (px, py) = if x < a.0 {
            (x + 1, y)
        } else if x > a.0 {
            (x - 1, y)
        } else if y < a.1 {
            (x, y + 1)
        } else {
            (x, y - 1)
        };
        lemma_across_open(open, w, h, a, px, py);
        crate::grid::lemma_connected_step(open, a, (px, py), (x, y));
    }
}

/// Is `d` the least squared distance from `(x, y)` to an unselected texel, the
/// ring round the canvas counting as unselected? A tube lying across looks up
/// and down only, one standing up looks left and right only.
pub open spec fn is_nearest_bare(
    selected: Seq<bool>,
    w: int,
    h: int,
    shape: Shape,
    x: int,
    y: int,
    d: int,
) -> bool {
    &&& exists|ox: int, oy: int|
        -1 <= ox <= w && -1 <= oy <= h && #[trigger] bare(selected, w, h, ox, oy) && (shape
            == Shape::TubeX ==> ox == x) && (shape == Shape::TubeY ==> oy == y) && d == (x - ox)
            * (x - ox) + (y - oy) * (y - oy)
    &&& forall|ox: int, oy: int|
        -1 <= ox <= w && -1 <= oy <= h && #[trigger] bare(selected, w, h, ox, oy) && (shape
            == Shape::TubeX ==> ox == x) && (shape == Shape::TubeY ==> oy == y) ==> d <= (x - ox)
            * (x - ox) + (y - oy) * (y - oy)
}

/// An inset measured as the shape does it is the nearest unselected texel.
pub proof fn law_insets_go_by_the_shape(
    selected: Seq<bool>,
    w: int,
    h: int,
    shape: Shape,
    x: int,
    y: int,
    d: int,
)
    requires
        w >= 0,
        h >= 0,
        -1 <= x <= w,
        -1 <= y <= h,
    ensures
        d == canvas_inset(selected, w, h, shape.reach(), x, y) <==> is_nearest_bare(
            selected,
            w,
            h,
            shape,
            x,
            y,
            d,
        ),
        shape != Shape::TubeX && shape != Shape::TubeY ==> shape.reach() == Reach::Around,
{
    let e = canvas_inset(selected, w, h, shape.reach(), x, y);
    crate::distance::law_insets_are_least_distances(selected, w, h, shape.reach(), x, y, e);
    assert(is_nearest_bare(selected, w, h, shape, x, y, e));
}

/// Is `d` the largest of the least squared distances, over the canvas and the
/// ring round it?
pub open spec fn is_deepest_bare(
    selected: Seq<bool>,
    w: int,
    h: int,
    shape: Shape,
    d: int,
) -> bool {
    &&& exists|x: int, y: int|
        -1 <= x <= w && -1 <= y <= h && #[trigger] is_nearest_bare(selected, w, h, shape, x, y, d)
    &&& forall|x: int, y: int, e: int|
        -1 <= x <= w && -1 <= y <= h && #[trigger] is_nearest_bare(selected, w, h, shape, x, y, e)
            ==> e <= d
}

proof fn lemma_deepest_bare(selected: Seq<bool>, w: int, h: int, shape: Shape, d: int)
    requires
        w >= 0,
        h >= 0,
        is_deepest(selected, w, h, shape.reach(), d),
    ensures
        is_deepest_bare(selected, w, h, shape, d),
{
    let reach = shape.reach();
    let (dx, dy) = choose|dx: int, dy: int|
        0 <= dx < w + 2 && 0 <= dy < h + 2 && d == #[trigger] inset(selected, w, h, reach, dx, dy);
    let x = dx - 1;
    let y = dy - 1;
    assert(canvas_inset(selected, w, h, reach, x, y) == inset(selected, w, h, reach, dx, dy));
    law_insets_go_by_the_shape(selected, w, h, shape, x, y, d);
    assert(-1 <= x <= w && -1 <= y <= h && is_nearest_bare(selected, w, h, shape, x, y, d));
    assert forall|x: int, y: int, e: int|
        -1 <= x <= w && -1 <= y <= h && #[trigger] is_nearest_bare(
            selected,
            w,
            h,
            shape,
            x,
            y,
            e,
        ) implies e <= d by {
        law_insets_go_by_the_shape(selected, w, h, shape, x, y, e);
        assert(inset(selected, w, h, reach, x + 1, y + 1) <= d);
    }
}

/// What a shape gives an edge, outright. The curve is asked about the shape
/// with its own heights, about the distance from the texel to the nearest
/// unselected one, and about that of the texel across the edge: above, to the
/// left, to the right or below. A bevel hands it its width, and any other shape
/// the distance of the deepest texel.
pub proof fn law_edges_go_by_the_nearest_unselected_texel<T, F: Fn(Curve<T>, u64, u64) -> u8>(
    height: F,
    cut: Cut<T>,
    selected: Seq<bool>,
    w: int,
    h: int,
    cells: Seq<Option<[u8; 4]>>,
    x: int,
    y: int,
    edge: int,
) -> (asked: (Curve<T>, u64, u64, u64))
    requires
        is_raster(height, cut, selected, w, h, cells),
        0 <= x < w,
        0 <= y < h,
        0 <= edge < 4,
    ensures
        cells.len() == w * h,
        cells[y * w + x].is_some() == selected[y * w + x],
        selected[y * w + x] ==> is_nearest_bare(selected, w, h, cut.shape, x, y, asked.1 as int),
        selected[y * w + x] && edge == 0 ==> is_nearest_bare(
            selected,
            w,
            h,
            cut.shape,
            x,
            y - 1,
            asked.2 as int,
        ),
        selected[y * w + x] && edge == 1 ==> is_nearest_bare(
            selected,
            w,
            h,
            cut.shape,
            x - 1,
            y,
            asked.2 as int,
        ),
        selected[y * w + x] && edge == 2 ==> is_nearest_bare(
            selected,
            w,
            h,
            cut.shape,
            x + 1,
            y,
            asked.2 as int,
        ),
        selected[y * w + x] && edge == 3 ==> is_nearest_bare(
            selected,
            w,
            h,
            cut.shape,
            x,
            y + 1,
            asked.2 as int,
        ),
        selected[y * w + x] ==> is_deepest_bare(selected, w, h, cut.shape, asked.3 as int),
        asked.0.shape == cut.shape,
        asked.0.floor == cut.floor,
        asked.0.peak == cut.peak,
        asked.0.concave == cut.concave,
        asked.0.span == (if cut.shape == Shape::Bevel || cut.shape == Shape::RoundBevel {
            Span::Width(cut.width)
        } else {
            Span::Deepest(asked.3)
        }),
        selected[y * w + x] ==> height.ensures(
            (asked.0, asked.1, asked.2),
            cells[y * w + x].unwrap()@[edge],
        ),
{
    crate::grid::lemma_texel(w, h, x, y);
    let i = texel(w, x, y);
    assert(i == y * w + x);
    assert(cells[i].is_some() == selected[i]);
    if selected[i] {
        let v = cells[texel(w, x, y)].unwrap()@[edge];
        assert(edge_is(height, cut, selected, w, h, x, y, edge, v));
        let reach = cut.shape.reach();
        let o = across(x, y, edge);
        let (own, beyond, deepest) = choose|own: u64, beyond: u64, deepest: u64|
            {
                &&& own == canvas_inset(selected, w, h, reach, x, y)
                &&& beyond == canvas_inset(selected, w, h, reach, o.0, o.1)
                &&& is_deepest(selected, w, h, reach, deepest as int)
                &&& #[trigger] height.ensures((cut.curve_over(deepest), own, beyond), v)
            };
        let curve = cut.curve_over(deepest);
        law_insets_go_by_the_shape(selected, w, h, cut.shape, x, y, own as int);
        law_insets_go_by_the_shape(selected, w, h, cut.shape, o.0, o.1, beyond as int);
        lemma_deepest_bare(selected, w, h, cut.shape, deepest as int);
        (curve, own, beyond, deepest)
    } else {
        (cut.curve_over(0), 0, 0, 0)
    }
}

/// The edge that an edge comes to lie on when a region is turned about its
/// diagonal: top and left change places, and right and bottom.
pub open spec fn turned_edge(edge: int) -> int {
    if edge == 0 {
        1
    } else if edge == 1 {
        0
    } else if edge == 2 {
        3
    } else {
        2
    }
}

/// Turning a region about its diagonal turns its edges, for every shape but
/// the tubes.
pub proof fn law_turning_a_region_turns_its_edges<T, F: Fn(Curve<T>, u64, u64) -> u8>(
    height: F,
    cut: Cut<T>,
    selected: Seq<bool>,
    w: int,
    h: int,
    x: int,
    y: int,
    edge: int,
    v: u8,
)
    requires
        cut.shape != Shape::TubeX,
        cut.shape != Shape::TubeY,
        0 <= x < w,
        0 <= y < h,
        0 <= edge < 4,
        edge_is(height, cut, selected, w, h, x, y, edge, v),
    ensures
        edge_is(height, cut, turned(selected, w, h), h, w, y, x, turned_edge(edge), v),
{
    let reach = cut.shape.reach();
    let t = turned(selected, w, h);
    let o = across(x, y, edge);
    let (own, beyond, deepest) = choose|own: u64, beyond: u64, deepest: u64|
        {
            &&& own == canvas_inset(selected, w, h, reach, x, y)
            &&& beyond == canvas_inset(selected, w, h, reach, o.0, o.1)
            &&& is_deepest(selected, w, h, reach, deepest as int)
            &&& #[trigger] height.ensures((cut.curve_over(deepest), own, beyond), v)
        };
    law_turning_a_region_turns_its_insets(selected, w, h, reach, x + 1, y + 1);
    law_turning_a_region_turns_its_insets(selected, w, h, reach, o.0 + 1, o.1 + 1);
    assert(across(y, x, turned_edge(edge)) == (o.1, o.0));
    let (dx, dy) = choose|dx: int, dy: int|
        0 <= dx < w + 2 && 0 <= dy < h + 2 && deepest == #[trigger] inset(
            selected,
            w,
            h,
            reach,
            dx,
            dy,
        );
    law_turning_a_region_turns_its_insets(selected, w, h, reach, dx, dy);
    assert(inset(t, h, w, reach, dy, dx) == deepest);
    assert forall|px: int, py: int| 0 <= px < h + 2 && 0 <= py < w + 2 implies #[trigger] inset(
        t,
        h,
        w,
        reach,
        px,
        py,
    ) <= deepest by {
        law_turning_a_region_turns_its_insets(selected, w, h, reach, py, px);
        assert(inset(selected, w, h, reach, py, px) <= deepest);
    }
    assert(is_deepest(t, h, w, reach, deepest as int));
    assert(height.ensures((cut.curve_over(deepest), own, beyond), v));
}

/// What the wand takes for one colour. Two texels that show nothing are alike
/// whatever colour they hide, one that shows and one that does not never are,
/// and two that show are alike exactly when none of red, green and blue is
/// further apart than the cutoff.
pub proof fn law_colours_are_alike_channel_by_channel(a: Rgba, b: Rgba, cutoff: int)
    ensures
        a.a == 0 && b.a == 0 ==> same_colour(a, b, cutoff),
        (a.a == 0) != (b.a == 0) ==> !same_colour(a, b, cutoff),
        a.a != 0 && b.a != 0 ==> same_colour(a, b, cutoff) == {
            &&& -cutoff <= a.r - b.r <= cutoff
            &&& -cutoff <= a.g - b.g <= cutoff
            &&& -cutoff <= a.b - b.b <= cutoff
        },
        same_colour(a, b, cutoff) == same_colour(b, a, cutoff),
        a.a != 0 && b.a != 0 ==> (same_colour(a, b, 0) <==> a.r == b.r && a.g == b.g && a.b == b.b),
{
}

/// A canvas texel is looked up in the source where it lies on it: `u` is the
/// source column under column `x` exactly when `x` scaled up falls inside it.
/// Columns past the end of the canvas read the last one.
pub proof fn law_the_source_is_read_where_it_lies(x: int, from: int, to: int, u: int)
    requires
        from > 0,
        to > 0,
        x >= 0,
    ensures
        0 <= under(x, from, to) < from,
        x < to ==> (u == under(x, from, to) <==> u * to <= x * from < (u + 1) * to),
        x >= to ==> under(x, from, to) == from - 1,
        from == to && x < to ==> under(x, from, to) == x,
{
    let q = x * from / to;
    vstd::arithmetic::div_mod::lemma_fundamental_div_mod(x * from, to);
    let r = x * from % to;
    assert(to * q == q * to) by (nonlinear_arith);
    assert((q + 1) * to == q * to + to) by (nonlinear_arith);
    assert(x * from >= 0) by (nonlinear_arith)
        requires
            x >= 0,
            from > 0,
    ;
    assert(q >= 0) by (nonlinear_arith)
        requires
            q * to + r >= 0,
            r < to,
            to > 0,
    ;
    if x < to {
        assert(q < from) by (nonlinear_arith)
            requires
                q * to <= x * from,
                x < to,
                to > 0,
                from > 0,
        ;
        if u * to <= x * from < (u + 1) * to {
            assert(u == q) by (nonlinear_arith)
                requires
                    u * to <= x * from < (u + 1) * to,
                    q * to <= x * from < (q + 1) * to,
                    to > 0,
            ;
        }
        if from == to {
            assert(x * from < (x + 1) * to) by (nonlinear_arith)
                requires
                    from == to,
                    to > 0,
            ;
            assert(x == q) by (nonlinear_arith)
                requires
                    x * to <= x * from < (x + 1) * to,
                    q * to <= x * from < (q + 1) * to,
                    from == to,
                    to > 0,
            ;
        }
    } else {
        assert(q >= from) by (nonlinear_arith)
            requires
                q * to + to > x * from,
                x >= to,
                to > 0,
                from > 0,
        {
            assert(x * from >= to * from);
        }
    }
}

/// May the wand go on from its seed to this texel? Written out over the bytes
/// of the source: both show nothing, or both show and none of red, green and
/// blue is further apart than the cutoff.
pub open spec fn goes_with(
    src: Pixels,
    w: int,
    h: int,
    x: int,
    y: int,
    cutoff: int,
    cx: int,
    cy: int,
) -> bool {
    let i = 4 * (under(y, src.height as int, h) * src.width + under(x, src.width as int, w));
    let j = 4 * (under(cy, src.height as int, h) * src.width + under(cx, src.width as int, w));
    let d = src.data@;
    &&& 0 <= cx < w
    &&& 0 <= cy < h
    &&& (d[i + 3] == 0) == (d[j + 3] == 0)
    &&& d[i + 3] != 0 ==> {
        &&& -cutoff <= d[i] - d[j] <= cutoff
        &&& -cutoff <= d[i + 1] - d[j + 1] <= cutoff
        &&& -cutoff <= d[i + 2] - d[j + 2] <= cutoff
    }
}

/// The wand picks the run of texels that go with its seed: the seed, all that
/// goes with it beside what is picked, and nothing outside a set that is closed
/// under this.
pub proof fn law_the_wand_picks_the_run_of_its_seed(
    src: Pixels,
    w: int,
    h: int,
    x: int,
    y: int,
    cutoff: int,
    closed: spec_fn((int, int)) -> bool,
    a: (int, int),
    b: (int, int),
)
    requires
        0 <= x < w,
        0 <= y < h,
        cutoff >= 0,
    ensures
        ({
            let picked = |p: (int, int)|
                connected(matching(src, w, h, source(src, x, y, w, h), cutoff), (x, y), p);
            &&& picked((x, y))
            &&& picked(a) ==> goes_with(src, w, h, x, y, cutoff, a.0, a.1)
            &&& picked(a) && (a.0 - b.0) * (a.0 - b.0) + (a.1 - b.1) * (a.1 - b.1) == 1 && goes_with(
                src,
                w,
                h,
                x,
                y,
                cutoff,
                b.0,
                b.1,
            ) ==> picked(b)
            &&& closed((x, y)) && picked(a) && (forall|c: (int, int), d: (int, int)|
                #![trigger closed(c), closed(d)]
                closed(c) && (c.0 - d.0) * (c.0 - d.0) + (c.1 - d.1) * (c.1 - d.1) == 1
                    && goes_with(src, w, h, x, y, cutoff, d.0, d.1) ==> closed(d)) ==> closed(a)
        }),
{
    let seed = source(src, x, y, w, h);
    let open = matching(src, w, h, seed, cutoff);
    assert forall|p: (int, int)| #[trigger] open(p) == goes_with(
        src,
        w,
        h,
        x,
        y,
        cutoff,
        p.0,
        p.1,
    ) by {
        let other = source(src, p.0, p.1, w, h);
        law_colours_are_alike_channel_by_channel(seed, other, cutoff);
        let sw = src.width as int;
        crate::pixels::law_pixels_are_four_bytes(
            src,
            under(x, sw, w),
            under(y, src.height as int, h),
        );
        crate::pixels::law_pixels_are_four_bytes(
            src,
            under(p.0, sw, w),
            under(p.1, src.height as int, h),
        );
    }
    assert(open((x, y)));
    crate::grid::lemma_connected_self(open, (x, y));
    if connected(open, (x, y), a) {
        crate::grid::law_connected_goes_both_ways(open, (x, y), a);
        assert(open(a));
        crate::grid::law_touching_is_one_apart(a, b);
        if touching(a, b) && goes_with(src, w, h, x, y, cutoff, b.0, b.1) {
            assert(open(b));
            crate::grid::lemma_connected_step(open, (x, y), a, b);
        }
        if closed((x, y)) && (forall|c: (int, int), d: (int, int)|
            #![trigger closed(c), closed(d)]
            closed(c) && (c.0 - d.0) * (c.0 - d.0) + (c.1 - d.1) * (c.1 - d.1) == 1 && goes_with(
                src,
                w,
                h,
                x,
                y,
                cutoff,
                d.0,
                d.1,
            ) ==> closed(d)) {
            assert forall|c: (int, int), d: (int, int)|
                #![trigger closed(c), touching(c, d)]
                closed(c) && touching(c, d) && open(d) implies closed(d) by {
                crate::grid::law_touching_is_one_apart(c, d);
                assert(goes_with(src, w, h, x, y, cutoff, d.0, d.1));
            }
            crate::grid::lemma_connected_within(open, closed, (x, y), a);
        }
    }
}

/// The texels beside one another are those one apart, each once.
pub proof fn law_neighbours_are_one_apart(x: u32, y: u32, w: u32, h: u32, p: (u32, u32))
    ensures
        around(x, y, w, h).contains(p) <==> p.0 < w && p.1 < h && (x - p.0) * (x - p.0) + (y - p.1)
            * (y - p.1) == 1,
        around(x, y, w, h).no_duplicates(),
{
    lemma_around(x, y, w, h);
    let here = (x as int, y as int);
    let there = (p.0 as int, p.1 as int);
    crate::grid::law_touching_is_one_apart(here, there);
    if around(x, y, w, h).contains(p) {
        let j = choose|j: int| 0 <= j < around(x, y, w, h).len() && around(x, y, w, h)[j] == p;
        assert(touching(here, there));
    } else if touching(here, there) && p.0 < w && p.1 < h {
        assert(around(x, y, w, h).contains((there.0 as u32, there.1 as u32)));
    }
}

/// Every shape is on offer, and none of them twice.
pub proof fn law_every_shape_is_listed(shape: Shape, i: int, j: int)
    requires
        0 <= i < j < 7,
    ensures
        exists|k: int| 0 <= k < 7 && #[trigger] Shape::ALL@[k] == shape,
        Shape::ALL@[i] != Shape::ALL@[j],
{
    let k: int = match shape {
        Shape::Flat => 0,
        Shape::Dome => 1,
        Shape::Cone => 2,
        Shape::Bevel => 3,
        Shape::RoundBevel => 4,
        Shape::TubeX => 5,
        Shape::TubeY => 6,
    };
    assert(Shape::ALL@[k] == shape);
}

} // verus!
