//! Hand-drawn relief: four height canvases, one per side of a texel.
//!
//! For a sprite, colour means paint rather than depth: a dark outline is not a
//! trench, and a highlight is not a hill. So the relief lets you say it
//! outright: for every texel, how high its **top**, **left**, **right** and
//! **bottom** edges stand.
//!
//! Four numbers per texel is exactly what a normal needs. The horizontal slope
//! is `right - left` and the vertical one is `bottom - top`: two subtractions,
//! no kernel, no neighbours, nothing inferred.

use vstd::prelude::*;

use crate::binary32::{along, scale, scaled, step_along};
use crate::grid::{connected, count, on_canvas, texel};
use crate::normalmap::{same_but_for_the_image, Settings, Shading, Surface};
use crate::pixels::{grey, pixel_of, resizable, resized_to, Pixels, Rgba};
use crate::shape::{self, Curve, Cut};
use crate::sheet::{are_writes, lemma_cell, lemma_cells_apart, lemma_write_push};
use crate::sheet::{Board, Sheet, Write};
use crate::theme::Icon;

pub use crate::sheet::MAX_SIDE;

verus! {

/// The height of a texel nobody has painted: flat, halfway up the range.
pub const FLAT: u8 = 128;

const DEFAULT_SIDE: u32 = 32;

/// Every height the swatches offer, 0% to 100%. Ten per cent is coarse enough
/// that a relief stays readable as a handful of levels rather than a gradient.
pub const STEPS: usize = 11;

/// Which edge of the texel a canvas holds the height of.
#[derive(Clone, Copy, PartialEq, Eq, Debug, Structural)]
pub enum Side {
    Top,
    Left,
    Right,
    Bottom,
}

impl Side {
    pub const ALL: [Side; 4] = [Side::Top, Side::Left, Side::Right, Side::Bottom];

    pub fn label(self) -> (s: &'static str)
        ensures
            s@ == match self {
                Side::Top => "Top"@,
                Side::Left => "Left"@,
                Side::Right => "Right"@,
                Side::Bottom => "Bottom"@,
            },
    {
        match self {
            Side::Top => "Top",
            Side::Left => "Left",
            Side::Right => "Right",
            Side::Bottom => "Bottom",
        }
    }

    pub open spec fn named(self) -> Seq<char> {
        match self {
            Side::Top => "top"@,
            Side::Left => "left"@,
            Side::Right => "right"@,
            Side::Bottom => "bottom"@,
        }
    }

    /// Filename suffix used when a single side is saved.
    pub fn suffix(self) -> (s: &'static str)
        ensures
            s@ == self.named(),
    {
        match self {
            Side::Top => "top",
            Side::Left => "left",
            Side::Right => "right",
            Side::Bottom => "bottom",
        }
    }

    /// The canvas's place among the four.
    pub open spec fn nth(self) -> int {
        match self {
            Side::Top => 0,
            Side::Left => 1,
            Side::Right => 2,
            Side::Bottom => 3,
        }
    }

    pub fn index(self) -> (i: usize)
        ensures
            i == self.nth(),
    {
        match self {
            Side::Top => 0,
            Side::Left => 1,
            Side::Right => 2,
            Side::Bottom => 3,
        }
    }
}

/// What a stamp of the brush does to the texels under it.
#[derive(Clone, Copy, PartialEq, Eq, Debug, Structural)]
pub enum Tool {
    Pencil,
    Eraser,
    Bucket,
    Picker,
    Raise,
    Lower,
    Smooth,
}

impl Tool {
    pub const ALL: [Tool; 7] = [
        Tool::Pencil,
        Tool::Eraser,
        Tool::Bucket,
        Tool::Picker,
        Tool::Raise,
        Tool::Lower,
        Tool::Smooth,
    ];

    pub fn label(self) -> (s: &'static str)
        ensures
            s@ == match self {
                Tool::Pencil => "Pencil"@,
                Tool::Eraser => "Eraser"@,
                Tool::Bucket => "Fill"@,
                Tool::Picker => "Pick"@,
                Tool::Raise => "Raise"@,
                Tool::Lower => "Lower"@,
                Tool::Smooth => "Smooth"@,
            },
    {
        match self {
            Tool::Pencil => "Pencil",
            Tool::Eraser => "Eraser",
            Tool::Bucket => "Fill",
            Tool::Picker => "Pick",
            Tool::Raise => "Raise",
            Tool::Lower => "Lower",
            Tool::Smooth => "Smooth",
        }
    }

    pub fn hint(self) -> (s: &'static str)
        ensures
            s@ == match self {
                Tool::Pencil => "Set every texel under the brush to the Height below"@,
                Tool::Eraser => "Back to unpainted — flat, and transparent on the canvas"@,
                Tool::Bucket => "Flood the connected run of equal texels with the Height"@,
                Tool::Picker => "Read a texel's height back into the Height slider"@,
                Tool::Raise => "Nudge the texels under the brush up"@,
                Tool::Lower => "Nudge the texels under the brush down"@,
                Tool::Smooth => "Average each texel with its four neighbours"@,
            },
    {
        match self {
            Tool::Pencil => "Set every texel under the brush to the Height below",
            Tool::Eraser => "Back to unpainted — flat, and transparent on the canvas",
            Tool::Bucket => "Flood the connected run of equal texels with the Height",
            Tool::Picker => "Read a texel's height back into the Height slider",
            Tool::Raise => "Nudge the texels under the brush up",
            Tool::Lower => "Nudge the texels under the brush down",
            Tool::Smooth => "Average each texel with its four neighbours",
        }
    }

    pub fn icon(self) -> (icon: Icon)
        ensures
            icon == match self {
                Tool::Pencil => Icon::Pencil,
                Tool::Eraser => Icon::Eraser,
                Tool::Bucket => Icon::Bucket,
                Tool::Picker => Icon::Picker,
                Tool::Raise => Icon::Raise,
                Tool::Lower => Icon::Lower,
                Tool::Smooth => Icon::Smooth,
            },
    {
        match self {
            Tool::Pencil => Icon::Pencil,
            Tool::Eraser => Icon::Eraser,
            Tool::Bucket => Icon::Bucket,
            Tool::Picker => Icon::Picker,
            Tool::Raise => Icon::Raise,
            Tool::Lower => Icon::Lower,
            Tool::Smooth => Icon::Smooth,
        }
    }
}

// ------------------------------------------------------------------ the ramp

/// The height one rung of the ramp is stored as: tenths of the range, rounded,
/// the first and last rung being where the ramp ends.
pub open spec fn rung(k: int) -> u8 {
    let k = if k < 0 {
        0
    } else if k > STEPS - 1 {
        STEPS - 1
    } else {
        k
    };
    ((k * 51 + 1) / 2) as u8
}

/// The height one rung of the ramp is stored as.
pub fn rung_value(k: i32) -> (v: u8)
    ensures
        v == rung(k as int),
{
    let k: i32 = if k < 0 {
        0
    } else if k > 10 {
        10
    } else {
        k
    };
    ((k * 51 + 1) / 2) as u8
}

/// The rung nearest to a height.
pub open spec fn rung_of(v: u8) -> int {
    (4 * v + 51) / 102
}

/// The rung nearest to a height, which is the swatch that shows as picked.
pub fn nearest_rung(v: u8) -> (k: i32)
    ensures
        k == rung_of(v),
        0 <= k < STEPS,
{
    (4 * v as i32 + 51) / 102
}

/// A height in per cent, rounded.
pub fn percent(v: u8) -> (p: u8)
    ensures
        p == (40 * v + 51) / 102,
        p <= 100,
{
    ((40 * v as u32 + 51) / 102) as u8
}

/// Every rung is its own nearest, and no two heights of the ramp are the same.
pub proof fn law_rungs_are_apart(j: int, k: int)
    requires
        0 <= j < k < STEPS,
    ensures
        rung(j) < rung(k),
        rung_of(rung(j)) == j,
        rung_of(rung(k)) == k,
{
}

/// A texel nudged from a rung lands on a rung: the next one up or down, or
/// where it was at the end of the ramp.
pub proof fn law_nudging_stays_on_the_ramp(k: int)
    requires
        0 <= k < STEPS,
    ensures
        rung(rung_of(rung(k)) + 1) == rung(if k + 1 < STEPS {
            k + 1
        } else {
            k
        }),
        rung(rung_of(rung(k)) - 1) == rung(if k > 0 {
            k - 1
        } else {
            k
        }),
{
}

/// A side shrunk so that the longest side fits a relief canvas, and at least
/// one texel.
pub open spec fn fitted(side: u32, longest: u32) -> int {
    let s = if longest <= MAX_SIDE {
        side as int
    } else {
        scaled(side as nat, longest as nat, MAX_SIDE as nat) as int
    };
    if s < 1 {
        1
    } else {
        s
    }
}

/// The longer of two sides.
pub open spec fn longer(w: u32, h: u32) -> u32 {
    if w > h {
        w
    } else {
        h
    }
}

/// An image's dimensions shrunk to fit a relief canvas.
pub fn fitted_dims(w: u32, h: u32) -> (d: (u32, u32))
    ensures
        d.0 == fitted(w, longer(w, h)),
        d.1 == fitted(h, longer(w, h)),
        1 <= d.0 <= MAX_SIDE,
        1 <= d.1 <= MAX_SIDE,
        w > MAX_SIDE && w >= h ==> d.0 == MAX_SIDE,
        h > MAX_SIDE && h >= w ==> d.1 == MAX_SIDE,
{
    let longest: u32 = if w > h {
        w
    } else {
        h
    };
    if longest <= MAX_SIDE {
        return (
            if w < 1 {
                1
            } else {
                w
            },
            if h < 1 {
                1
            } else {
                h
            },
        );
    }
    proof {
        crate::drift::law_scaled_fits(w as nat, longest as nat, MAX_SIDE as nat);
        crate::drift::law_scaled_fits(h as nat, longest as nat, MAX_SIDE as nat);
        crate::drift::law_longest_side_reaches_the_limit(longest as nat, MAX_SIDE as nat);
    }
    let fw: u32 = scale(w, longest, MAX_SIDE);
    let fh: u32 = scale(h, longest, MAX_SIDE);
    (
        if fw < 1 {
            1
        } else {
            fw
        },
        if fh < 1 {
            1
        } else {
            fh
        },
    )
}

// ----------------------------------------------------------------- the stamp

/// A height for the bake, or for averaging: unpainted texels are flat.
pub open spec fn level(v: Option<u8>) -> u8 {
    match v {
        Some(v) => v,
        None => FLAT,
    }
}

/// How wide the brush is; one too wide to count paints nothing.
pub open spec fn breadth(brush: u32) -> int {
    if brush <= i32::MAX {
        brush as int
    } else {
        0
    }
}

/// Is this coordinate under a brush set down at `at`? A brush of even width
/// reaches one texel further up and left.
pub open spec fn under(brush: u32, at: int, c: int) -> bool {
    at - breadth(brush) / 2 <= c < at - breadth(brush) / 2 + breadth(brush)
}

pub open spec fn clamped(c: int, side: int) -> int {
    if c < 0 {
        0
    } else if c > side - 1 {
        side - 1
    } else {
        c
    }
}

/// A texel's height for averaging, clamped at the border so the edge of the
/// canvas does not pull the smooth tool towards flat.
pub open spec fn near_level(s: Sheet, side: Side, x: int, y: int) -> u8 {
    level(s.get(side, clamped(x, s.w), clamped(y, s.h)))
}

/// The average of a texel and its four neighbours, rounded.
pub open spec fn smoothed(s: Sheet, side: Side, x: int, y: int) -> u8 {
    let sum = near_level(s, side, x, y) + near_level(s, side, x - 1, y) + near_level(
        s,
        side,
        x + 1,
        y,
    ) + near_level(s, side, x, y - 1) + near_level(s, side, x, y + 1);
    ((sum + 2) / 5) as u8
}

/// What a brush makes of a texel under it.
pub open spec fn brushed(s: Sheet, side: Side, tool: Tool, value: u8, x: int, y: int) -> Option<
    u8,
> {
    match tool {
        Tool::Eraser => None,
        Tool::Raise => Some(rung(rung_of(level(s.get(side, x, y))) + 1)),
        Tool::Lower => Some(rung(rung_of(level(s.get(side, x, y))) - 1)),
        Tool::Smooth => Some(smoothed(s, side, x, y)),
        _ => Some(value),
    }
}

/// What a stamp of a brush at `(x, y)` sets each texel to; `None` where it
/// leaves it alone.
pub open spec fn brush_plan(
    s: Sheet,
    side: Side,
    tool: Tool,
    brush: u32,
    value: u8,
    x: int,
    y: int,
) -> spec_fn(int) -> Option<Option<u8>> {
    |t: int|
        if under(brush, x, t % s.w) && under(brush, y, t / s.w) {
            Some(brushed(s, side, tool, value, t % s.w, t / s.w))
        } else {
            None
        }
}

/// The texels of a canvas with the same height as `target`.
pub open spec fn level_with(s: Sheet, side: Side, target: Option<u8>) -> spec_fn(
    (int, int),
) -> bool {
    |p: (int, int)| on_canvas(s.w, s.h, p.0, p.1) && s.get(side, p.0, p.1) == target
}

/// What a fill from `(x, y)` sets each texel to: the connected run of texels
/// as high as the one it starts on.
pub open spec fn fill_plan(s: Sheet, side: Side, value: u8, x: int, y: int) -> spec_fn(
    int,
) -> Option<Option<u8>> {
    |t: int|
        if on_canvas(s.w, s.h, x, y) && s.get(side, x, y) != Some(value) && connected(
            level_with(s, side, s.get(side, x, y)),
            (x, y),
            (t % s.w, t / s.w),
        ) {
            Some(Some(value))
        } else {
            None
        }
}

/// The writes that carry out a plan on the first `n` texels, in order.
pub open spec fn writes(side: Side, plan: spec_fn(int) -> Option<Option<u8>>, n: int) -> Seq<Write>
    decreases n,
{
    if n <= 0 {
        seq![]
    } else {
        match plan(n - 1) {
            None => writes(side, plan, n - 1),
            Some(v) => writes(side, plan, n - 1).push((side, (n - 1) as usize, v)),
        }
    }
}

/// One stamp of a tool: what becomes of the canvases and of the height that
/// the brush declares.
pub open spec fn stamped(
    s: Sheet,
    side: Side,
    tool: Tool,
    brush: u32,
    value: u8,
    x: int,
    y: int,
) -> (Sheet, u8) {
    match tool {
        Tool::Picker => (
            s,
            match s.get(side, x, y) {
                Some(v) => v,
                None => value,
            },
        ),
        Tool::Bucket => (
            s.write_all(writes(side, fill_plan(s, side, value, x, y), s.n())),
            value,
        ),
        _ => (
            s.write_all(writes(side, brush_plan(s, side, tool, brush, value, x, y), s.n())),
            value,
        ),
    }
}

/// A coordinate of a drag's `k`th stamp.
pub open spec fn drag_at(from: i32, to: i32, k: int, steps: int) -> int {
    let p = along(from as int, to as int, k as nat, steps as nat);
    if p < i32::MIN {
        i32::MIN as int
    } else if p > i32::MAX {
        i32::MAX as int
    } else {
        p
    }
}

/// The first `k` stamps of a drag.
pub open spec fn dragged(
    s: Sheet,
    side: Side,
    tool: Tool,
    brush: u32,
    value: u8,
    from: (i32, i32),
    to: (i32, i32),
    steps: int,
    k: int,
) -> (Sheet, u8)
    decreases k,
{
    if k <= 0 {
        (s, value)
    } else {
        let before = dragged(s, side, tool, brush, value, from, to, steps, k - 1);
        stamped(
            before.0,
            side,
            tool,
            brush,
            before.1,
            drag_at(from.0, to.0, k - 1, steps),
            drag_at(from.1, to.1, k - 1, steps),
        )
    }
}

pub open spec fn apart(a: i32, b: i32) -> int {
    if a < b {
        b - a
    } else {
        a - b
    }
}

/// How many steps a drag takes: one for every texel of its longer axis.
pub open spec fn drag_steps(from: (i32, i32), to: (i32, i32)) -> int {
    let dx = apart(from.0, to.0);
    let dy = apart(from.1, to.1);
    let most = if dx > dy {
        dx
    } else {
        dy
    };
    if most < 1 {
        1
    } else {
        most
    }
}

proof fn lemma_writes_skip(side: Side, plan: spec_fn(int) -> Option<Option<u8>>, a: int, b: int)
    requires
        0 <= a <= b,
        forall|t: int| a <= t < b ==> (#[trigger] plan(t)).is_none(),
    ensures
        writes(side, plan, b) == writes(side, plan, a),
    decreases b - a,
{
    if a < b {
        assert(plan(b - 1).is_none());
        lemma_writes_skip(side, plan, a, b - 1);
    }
}

pub proof fn lemma_writes(side: Side, plan: spec_fn(int) -> Option<Option<u8>>, n: int, most: int)
    requires
        0 <= n <= most,
        most <= usize::MAX,
    ensures
        forall|k: int|
            0 <= k < writes(side, plan, n).len() ==> (#[trigger] writes(side, plan, n)[k]).1 < n,
        are_writes(most, writes(side, plan, n)),
    decreases n,
{
    if n > 0 {
        lemma_writes(side, plan, n - 1, most);
    }
}

/// What a plan comes to: on its side every texel that it names has the height
/// it says, every other texel and every other side is as it was.
pub proof fn lemma_plan_done(s: Sheet, side: Side, plan: spec_fn(int) -> Option<Option<u8>>, n: int)
    requires
        s.wf(),
        0 <= n <= s.n(),
    ensures
        forall|t: int|
            0 <= t < s.n() ==> #[trigger] s.write_all(writes(side, plan, n)).at(side, t) == (if t
                < n && plan(t).is_some() {
                plan(t).unwrap()
            } else {
                s.at(side, t)
            }),
        forall|other: Side, t: int|
            0 <= t < s.n() && other != side ==> #[trigger] s.write_all(writes(side, plan, n)).at(
                other,
                t,
            ) == s.at(other, t),
        s.write_all(writes(side, plan, n)).cells.len() == s.cells.len(),
        s.write_all(writes(side, plan, n)).n() == s.n(),
    decreases n,
{
    assert(s.n() <= 0x4_0000) by (nonlinear_arith)
        requires
            s.n() == s.w * s.h,
            0 <= s.w <= 512,
            0 <= s.h <= 512,
    ;
    if n > 0 {
        lemma_plan_done(s, side, plan, n - 1);
        let before = s.write_all(writes(side, plan, n - 1));
        let after = s.write_all(writes(side, plan, n));
        match plan(n - 1) {
            None => {},
            Some(v) => {
                let ws = writes(side, plan, n - 1);
                let last = (side, (n - 1) as usize, v);
                assert(ws.push(last).drop_last() =~= ws);
                assert(after == before.write(last));
                lemma_cell(s.n(), side, n - 1);
                assert forall|t: int| 0 <= t < s.n() implies #[trigger] after.at(side, t) == (if t
                    < n && plan(t).is_some() {
                    plan(t).unwrap()
                } else {
                    s.at(side, t)
                }) by {
                    lemma_cells_apart(s.n(), side, t, side, n - 1);
                    assert(before.at(side, t) == (if t < n - 1 && plan(t).is_some() {
                        plan(t).unwrap()
                    } else {
                        s.at(side, t)
                    }));
                }
                assert forall|other: Side, t: int|
                    0 <= t < s.n() && other != side implies #[trigger] after.at(other, t) == s.at(
                    other,
                    t,
                ) by {
                    lemma_cells_apart(s.n(), other, t, side, n - 1);
                    assert(before.at(other, t) == s.at(other, t));
                }
            },
        }
    }
}

// ---------------------------------------------------------------- the relief

/// The four canvases, the brush that paints them and the knobs beside them.
pub struct Relief {
    pub board: Board,
    pub side: Side,
    pub tool: Tool,
    /// The height the brush declares.
    pub value: u8,
    /// Brush width in texels.
    pub brush: u32,
    /// Size for the "New canvas" control.
    pub new_size: [u32; 2],
    /// Whether clicking the canvas picks a region instead of painting on it.
    pub selecting: bool,
    /// How far a colour can drift, in levels, and still count as the same
    /// region.
    pub cutoff: u8,
    /// What the canvases turned into when they were last baked.
    pub baked: Option<Baked>,
    /// Which canvas, at which revision, was last handed out to be shown.
    pub canvas_key: Option<(Side, u64)>,
    /// At which revision the baked normals were.
    pub normal_key: Option<u64>,
}

/// Everything the four canvases turn into, rebuilt on every change.
pub struct Baked {
    pub normal: Pixels,
    pub height: Pixels,
    pub shading: Shading,
}

impl Default for Relief {
    fn default() -> (r: Relief)
        ensures
            r.wf(),
            r.board@ == (Sheet {
                w: 32,
                h: 32,
                cells: Seq::new(4096, |i: int| None),
                selection: Seq::new(1024, |i: int| false),
                undo: seq![],
                redo: seq![],
                stroke: None,
                last_texel: None,
                revision: 0,
                dirty: true,
            }),
            r.side == Side::Top,
            r.tool == Tool::Pencil,
            r.value == rung(7),
            r.brush == 1,
            r.new_size@ == seq![32u32, 32u32],
            !r.selecting,
            r.cutoff == 12,
            r.baked.is_none(),
            r.canvas_key.is_none(),
            r.normal_key.is_none(),
    {
        let new_size: [u32; 2] = [DEFAULT_SIDE, DEFAULT_SIDE];
        assert(new_size@ =~= seq![32u32, 32u32]);
        Relief {
            board: Board::new(DEFAULT_SIDE, DEFAULT_SIDE),
            side: Side::Top,
            tool: Tool::Pencil,
            value: rung_value(7),
            brush: 1,
            new_size,
            selecting: false,
            cutoff: 12,
            baked: None,
            canvas_key: None,
            normal_key: None,
        }
    }
}

// -------------------------------------------------------------- the canvases

impl Relief {
    pub open spec fn wf(self) -> bool {
        self.board.wf()
    }

    pub fn dims(&self) -> (d: (u32, u32))
        ensures
            d.0 == self.board@.w,
            d.1 == self.board@.h,
    {
        (self.board.width(), self.board.height())
    }

    /// How often the canvases have changed.
    pub fn revision(&self) -> (r: u64)
        ensures
            r == self.board@.revision,
    {
        self.board.revision()
    }

    /// Has anything at all been painted, on any side?
    pub fn has_content(&self) -> (r: bool)
        requires
            self.wf(),
        ensures
            r == exists|side: Side| self.board@.drawn(side),
    {
        self.drawn(Side::Top) || self.drawn(Side::Left) || self.drawn(Side::Right) || self.drawn(
            Side::Bottom,
        )
    }

    /// Has this side been painted?
    pub fn drawn(&self, side: Side) -> (r: bool)
        requires
            self.wf(),
        ensures
            r == self.board@.drawn(side),
    {
        let n: usize = self.board.len();
        let mut i: usize = 0;
        while i < n
            invariant
                i <= n,
                n == self.board@.n(),
                self.wf(),
                forall|t: int| 0 <= t < i ==> (#[trigger] self.board@.at(side, t)).is_none(),
            decreases n - i,
        {
            if self.board.at(side, i).is_some() {
                return true;
            }
            i += 1;
        }
        false
    }

    /// The height of one texel on one side, or `None` if it is unpainted.
    pub fn get(&self, side: Side, x: i32, y: i32) -> (v: Option<u8>)
        requires
            self.wf(),
        ensures
            v == self.board@.get(side, x as int, y as int),
    {
        match self.board.index(x, y) {
            Some(i) => self.board.at(side, i),
            None => None,
        }
    }

    /// Everything downstream is stale, for the knobs the bake reads that are
    /// not on the canvases.
    pub fn touch(&mut self)
        requires
            old(self).wf(),
        ensures
            final(self).wf(),
            final(self).board@ == old(self).board@.marked(),
            *final(self) == (Relief { board: final(self).board, ..*old(self) }),
    {
        self.board.mark();
    }

    /// Resize every canvas, keeping whatever overlaps the new rectangle.
    pub fn resize(&mut self, w: u32, h: u32)
        requires
            old(self).wf(),
        ensures
            final(self).wf(),
            final(self).board@ == old(self).board@.resized(canvas_side(w), canvas_side(h)),
            canvas_side(w) == old(self).board@.w && canvas_side(h) == old(self).board@.h
                ==> final(self).new_size == old(self).new_size,
            canvas_side(w) != old(self).board@.w || canvas_side(h) != old(self).board@.h
                ==> final(self).new_size@ == seq![canvas_side(w) as u32, canvas_side(h) as u32],
            *final(self) == (Relief {
                board: final(self).board,
                new_size: final(self).new_size,
                ..*old(self)
            }),
    {
        let w: u32 = clamp_side(w);
        let h: u32 = clamp_side(h);
        if w == self.board.width() && h == self.board.height() {
            return;
        }
        self.board.resize(w, h);
        self.new_size = [w, h];
        assert(self.new_size@ =~= seq![w, h]);
    }

    /// Match a newly loaded image, capped at [`MAX_SIDE`].
    pub fn fit_to(&mut self, w: u32, h: u32)
        requires
            old(self).wf(),
        ensures
            final(self).wf(),
            final(self).board@ == old(self).board@.resized(
                fitted(w, longer(w, h)),
                fitted(h, longer(w, h)),
            ),
            final(self).board@.w == old(self).board@.w && final(self).board@.h
                == old(self).board@.h ==> final(self).new_size == old(self).new_size,
            final(self).board@.w != old(self).board@.w || final(self).board@.h
                != old(self).board@.h ==> final(self).new_size@ == seq![
                final(self).board@.w as u32,
                final(self).board@.h as u32,
            ],
            *final(self) == (Relief {
                board: final(self).board,
                new_size: final(self).new_size,
                ..*old(self)
            }),
    {
        let (fw, fh) = fitted_dims(w, h);
        self.resize(fw, fh);
    }

    /// Would the size asked for change the canvases?
    pub fn size_asked(&self) -> (r: bool)
        ensures
            r == (self.new_size@[0] != self.board@.w || self.new_size@[1] != self.board@.h),
    {
        let (w, h) = self.dims();
        self.new_size[0] != w || self.new_size[1] != h
    }

    /// Are the canvases of another size than this image would give them?
    pub fn unlike_image(&self, w: u32, h: u32) -> (r: bool)
        ensures
            r == (fitted(w, longer(w, h)) != self.board@.w || fitted(h, longer(w, h))
                != self.board@.h),
    {
        let (fw, fh) = fitted_dims(w, h);
        let (cw, ch) = self.dims();
        fw != cw || fh != ch
    }

    /// A newly loaded image: an untouched relief takes its shape; one that has
    /// been drawn on is the user's work and keeps its size.
    pub fn take_image(&mut self, w: u32, h: u32)
        requires
            old(self).wf(),
        ensures
            final(self).wf(),
            final(self).board@ == (if exists|side: Side| old(self).board@.drawn(side) {
                old(self).board@
            } else {
                old(self).board@.resized(fitted(w, longer(w, h)), fitted(h, longer(w, h)))
            }).marked(),
            *final(self) == (Relief {
                board: final(self).board,
                new_size: final(self).new_size,
                ..*old(self)
            }),
            final(self).board@.w == old(self).board@.w && final(self).board@.h
                == old(self).board@.h ==> final(self).new_size == old(self).new_size,
            final(self).board@.w != old(self).board@.w || final(self).board@.h
                != old(self).board@.h ==> final(self).new_size@ == seq![
                final(self).board@.w as u32,
                final(self).board@.h as u32,
            ],
    {
        if !self.has_content() {
            self.fit_to(w, h);
        }
        self.touch();
    }

    /// Erase one side, as one undoable edit. A side that is already bare is
    /// left alone, and so is a stroke in progress.
    pub fn clear_side(&mut self, side: Side)
        requires
            old(self).wf(),
        ensures
            final(self).wf(),
            final(self).board@ == (if old(self).board@.drawn(side) {
                old(self).board@.begun().write_all(
                    writes(side, |t: int| Some(None), old(self).board@.n()),
                ).ended()
            } else {
                old(self).board@
            }),
            !final(self).board@.drawn(side),
            forall|other: Side, t: int|
                other != side && 0 <= t < old(self).board@.n() ==> #[trigger] final(self).board@.at(
                    other,
                    t,
                ) == old(self).board@.at(other, t),
            *final(self) == (Relief { board: final(self).board, ..*old(self) }),
    {
        if !self.drawn(side) {
            return;
        }
        self.board.begin_stroke();
        let ghost begun = self.board@;
        let ghost plan = |t: int| Some(None::<u8>);
        proof {
            self.board.lemma_wf();
        }
        let n: usize = self.board.len();
        let mut i: usize = 0;
        while i < n
            invariant
                i <= n,
                n == begun.n(),
                n <= 0x4_0000,
                begun.wf(),
                self.board.wf(),
                self.board@.n() == n,
                plan == (|t: int| Some(None::<u8>)),
                self.board@ == begun.write_all(writes(side, plan, i as int)),
                *self == (Relief { board: self.board, ..*old(self) }),
            decreases n - i,
        {
            self.board.write(side, i, None);
            proof {
                let ws = writes(side, plan, i as int);
                assert(writes(side, plan, i + 1) == ws.push((side, i, None)));
                assert(ws.push((side, i, None)).drop_last() =~= ws);
            }
            i += 1;
        }
        let ghost painted = self.board@;
        proof {
            lemma_plan_done(begun, side, plan, n as int);
        }
        self.board.end_stroke();
        proof {
            assert(self.board@.cells == painted.cells);
            assert forall|t: int| 0 <= t < n implies (#[trigger] self.board@.at(
                side,
                t,
            )).is_none() by {
                assert(painted.at(side, t) == None::<u8>);
            }
            assert forall|other: Side, t: int| other != side && 0 <= t < n implies #[trigger]
                self.board@.at(other, t) == old(self).board@.at(other, t) by {
                assert(painted.at(other, t) == begun.at(other, t));
            }
        }
    }
}

/// A side clamped to what a canvas can be.
pub open spec fn canvas_side(side: u32) -> int {
    if side < 1 {
        1
    } else if side > MAX_SIDE {
        MAX_SIDE as int
    } else {
        side as int
    }
}

fn clamp_side(side: u32) -> (s: u32)
    ensures
        s == canvas_side(side),
{
    if side < 1 {
        1
    } else if side > MAX_SIDE {
        MAX_SIDE
    } else {
        side
    }
}

// ------------------------------------------------------------ the selection

impl Relief {
    /// Is anything selected? A shape needs somewhere to go.
    pub fn has_selection(&self) -> (r: bool)
        ensures
            r == exists|i: int|
                0 <= i < self.board@.selection.len() && #[trigger] self.board@.selection[i],
    {
        let s = self.board.selection();
        let mut i: usize = 0;
        while i < s.len()
            invariant
                i <= s@.len(),
                s@ == self.board@.selection,
                forall|j: int| 0 <= j < i ==> !(#[trigger] self.board@.selection[j]),
            decreases s@.len() - i,
        {
            if s[i] {
                assert(self.board@.selection[i as int]);
                return true;
            }
            i += 1;
        }
        false
    }

    pub fn selected_count(&self) -> (k: usize)
        ensures
            k == count(self.board@.selection),
    {
        let s = self.board.selection();
        let mut k: usize = 0;
        let mut i: usize = 0;
        while i < s.len()
            invariant
                i <= s@.len(),
                k <= i,
                k == count(s@.take(i as int)),
            decreases s@.len() - i,
        {
            proof {
                assert(s@.take(i + 1).drop_last() =~= s@.take(i as int));
                assert(s@.take(i + 1).last() == s@[i as int]);
            }
            if s[i] {
                k += 1;
            }
            i += 1;
        }
        assert(s@.take(i as int) =~= s@);
        k
    }

    pub fn selection(&self) -> (s: &[bool])
        ensures
            s@ == self.board@.selection,
    {
        self.board.selection()
    }

    pub fn clear_selection(&mut self)
        requires
            old(self).wf(),
        ensures
            final(self).wf(),
            final(self).board@ == (if count(old(self).board@.selection) == 0 {
                old(self).board@
            } else {
                old(self).board@.selecting(
                    Seq::new(old(self).board@.n() as nat, |i: int| false),
                )
            }),
            *final(self) == (Relief { board: final(self).board, ..*old(self) }),
    {
        proof {
            crate::grid::lemma_count_none(self.board@.selection);
        }
        if self.has_selection() {
            let n: usize = self.board.len();
            let none: Vec<bool> = vec![false; n];
            assert(none@ =~= Seq::new(n as nat, |i: int| false));
            self.board.set_selection(none);
        }
    }

    pub fn select_all(&mut self)
        requires
            old(self).wf(),
        ensures
            final(self).wf(),
            final(self).board@ == old(self).board@.selecting(
                Seq::new(old(self).board@.n() as nat, |i: int| true),
            ),
            *final(self) == (Relief { board: final(self).board, ..*old(self) }),
    {
        let n: usize = self.board.len();
        let all: Vec<bool> = vec![true; n];
        assert(all@ =~= Seq::new(n as nat, |i: int| true));
        self.board.set_selection(all);
    }

    /// Everything the sprite covers: the one selection worth a button of its
    /// own, because a whole-silhouette bevel is most of what these tools get
    /// used for.
    pub fn select_opaque(&mut self, src: &Pixels)
        requires
            old(self).wf(),
            src.wf(),
            src.width > 0,
            src.height > 0,
        ensures
            final(self).wf(),
            final(self).board@ == old(self).board@.selecting(final(self).board@.selection),
            forall|x: int, y: int|
                on_canvas(old(self).board@.w, old(self).board@.h, x, y) ==> #[trigger] final(
                self).board@.selection[texel(old(self).board@.w, x, y)] == (shape::source(
                    *src,
                    x,
                    y,
                    old(self).board@.w,
                    old(self).board@.h,
                ).a > 0),
            *final(self) == (Relief { board: final(self).board, ..*old(self) }),
    {
        proof {
            self.board.lemma_wf();
        }
        let picked = shape::select_opaque(src, self.board.width(), self.board.height());
        self.board.set_selection(picked);
    }

    /// The magic wand: the contiguous run of one colour under the pointer, in
    /// place of what was selected or on top of it.
    pub fn select_at(&mut self, src: &Pixels, x: i32, y: i32, add: bool)
        requires
            old(self).wf(),
            src.wf(),
            on_canvas(old(self).board@.w, old(self).board@.h, x as int, y as int) ==> src.width > 0
                && src.height > 0,
        ensures
            final(self).wf(),
            *final(self) == (Relief { board: final(self).board, ..*old(self) }),
            !on_canvas(old(self).board@.w, old(self).board@.h, x as int, y as int) ==> final(
            self).board@ == old(self).board@,
            on_canvas(old(self).board@.w, old(self).board@.h, x as int, y as int) ==> {
                let s = old(self).board@;
                &&& final(self).board@ == s.selecting(final(self).board@.selection)
                &&& forall|cx: int, cy: int|
                    on_canvas(s.w, s.h, cx, cy) ==> #[trigger] final(self).board@.selection[texel(
                        s.w,
                        cx,
                        cy,
                    )] == ((add && s.selection[texel(s.w, cx, cy)]) || connected(
                        shape::matching(
                            *src,
                            s.w,
                            s.h,
                            shape::source(*src, x as int, y as int, s.w, s.h),
                            old(self).cutoff as int,
                        ),
                        (x as int, y as int),
                        (cx, cy),
                    ))
            },
    {
        proof {
            self.board.lemma_wf();
        }
        let ghost s = self.board@;
        let n: usize = self.board.len();
        let w: u32 = self.board.width();
        let h: u32 = self.board.height();
        if x < 0 || y < 0 || x >= w as i32 || y >= h as i32 {
            return;
        }
        let mut picked = shape::select_similar(src, w, h, x as u32, y as u32, self.cutoff as i32);
        let ghost found = picked@;
        if add {
            let mut i: usize = 0;
            while i < n
                invariant
                    i <= n,
                    n == s.n(),
                    s.wf(),
                    self.board@ == s,
                    picked@.len() == n,
                    found.len() == n,
                    forall|j: int| 0 <= j < i ==> #[trigger] picked@[j] == (s.selection[j] || found[j]),
                    forall|j: int| i <= j < n ==> #[trigger] picked@[j] == found[j],
                decreases n - i,
            {
                if self.board.selection()[i] {
                    picked[i] = true;
                }
                i += 1;
            }
        }
        proof {
            assert forall|cx: int, cy: int| on_canvas(s.w, s.h, cx, cy) implies #[trigger] picked@[
            texel(s.w, cx, cy)] == ((add && s.selection[texel(s.w, cx, cy)]) || found[texel(
                s.w,
                cx,
                cy,
            )]) by {
                crate::grid::lemma_texel(s.w, s.h, cx, cy);
            }
        }
        self.board.set_selection(picked);
    }

    /// Stamp a shape into the selection, as one undoable edit. Returns how
    /// many texels it wrote. `height` is the profile curve that
    /// [`shape::rasterize`] takes.
    pub fn apply_shape<T: Copy, F: Fn(Curve<T>, u64, u64) -> u8>(
        &mut self,
        cut: &Cut<T>,
        height: F,
    ) -> (written: usize)
        requires
            old(self).wf(),
            shape::asks_curves(height),
        ensures
            final(self).wf(),
            *final(self) == (Relief { board: final(self).board, ..*old(self) }),
            written == count(old(self).board@.selection),
            exists|cells: Seq<Option<[u8; 4]>>|
                {
                    &&& shape::is_raster(
                        height,
                        *cut,
                        old(self).board@.selection,
                        old(self).board@.w,
                        old(self).board@.h,
                        cells,
                    )
                    &&& final(self).board@ == old(self).board@.begun().write_all(
                        #[trigger] shape_writes(cells),
                    ).ended()
                },
    {
        let ghost start = self.board@;
        proof {
            self.board.lemma_wf();
        }
        let n: usize = self.board.len();
        let w: u32 = self.board.width();
        let h: u32 = self.board.height();
        proof {
            assert((w + 2) * (h + 2) <= 514 * 514) by (nonlinear_arith)
                requires
                    w <= 512,
                    h <= 512,
            ;
        }
        let cells = shape::rasterize(self.board.selection(), w, h, cut, height);
        let mut written: usize = 0;
        self.board.begin_stroke();
        let ghost begun = self.board@;
        let mut i: usize = 0;
        while i < n
            invariant
                i <= n,
                n == start.n(),
                cells@.len() == n,
                start.selection.len() == n,
                forall|j: int|
                    0 <= j < n ==> (#[trigger] cells@[j]).is_some() == start.selection[j],
                self.board.wf(),
                self.board@.n() == n,
                written <= i,
                written == count(start.selection.take(i as int)),
                self.board@ == begun.write_all(shape_writes(cells@.take(i as int))),
                *self == (Relief { board: self.board, ..*old(self) }),
            decreases n - i,
        {
            let ghost done = cells@.take(i as int);
            proof {
                assert(cells@.take(i + 1).drop_last() =~= done);
                assert(cells@.take(i + 1).last() == cells@[i as int]);
                assert(start.selection.take(i + 1).drop_last() =~= start.selection.take(i as int));
                assert(start.selection.take(i + 1).last() == start.selection[i as int]);
                assert(cells@[i as int].is_some() == start.selection[i as int]);
            }
            if let Some(edges) = cells[i] {
                written += 1;
                self.board.write(Side::Top, i, Some(edges[0]));
                self.board.write(Side::Left, i, Some(edges[1]));
                self.board.write(Side::Right, i, Some(edges[2]));
                self.board.write(Side::Bottom, i, Some(edges[3]));
                proof {
                    lemma_write_four(begun, shape_writes(done), i, edges);
                }
            }
            i += 1;
        }
        proof {
            assert(cells@.take(i as int) =~= cells@);
            assert(start.selection.take(i as int) =~= start.selection);
        }
        self.board.end_stroke();
        written
    }
}

/// Four writes to a texel that has heights, one to each side in order, texel
/// after texel.
pub open spec fn shape_writes(cells: Seq<Option<[u8; 4]>>) -> Seq<Write>
    decreases cells.len(),
{
    if cells.len() == 0 {
        seq![]
    } else {
        let rest = shape_writes(cells.drop_last());
        let i = (cells.len() - 1) as usize;
        match cells.last() {
            None => rest,
            Some(edges) => rest.push((Side::Top, i, Some(edges@[0]))).push(
                (Side::Left, i, Some(edges@[1])),
            ).push((Side::Right, i, Some(edges@[2]))).push((Side::Bottom, i, Some(edges@[3]))),
        }
    }
}

proof fn lemma_write_four(s: Sheet, ws: Seq<Write>, i: usize, edges: [u8; 4])
    ensures
        s.write_all(
            ws.push((Side::Top, i, Some(edges@[0]))).push((Side::Left, i, Some(edges@[1]))).push(
                (Side::Right, i, Some(edges@[2])),
            ).push((Side::Bottom, i, Some(edges@[3]))),
        ) == s.write_all(ws).write((Side::Top, i, Some(edges@[0]))).write(
            (Side::Left, i, Some(edges@[1])),
        ).write((Side::Right, i, Some(edges@[2]))).write((Side::Bottom, i, Some(edges@[3]))),
{
    let a = ws.push((Side::Top, i, Some(edges@[0])));
    let b = a.push((Side::Left, i, Some(edges@[1])));
    let c = b.push((Side::Right, i, Some(edges@[2])));
    lemma_write_push(s, ws, (Side::Top, i, Some(edges@[0])));
    lemma_write_push(s, a, (Side::Left, i, Some(edges@[1])));
    lemma_write_push(s, b, (Side::Right, i, Some(edges@[2])));
    lemma_write_push(s, c, (Side::Bottom, i, Some(edges@[3])));
}

// ---------------------------------------------------------------- the brush

impl Relief {
    pub fn stroking(&self) -> (r: bool)
        ensures
            r == self.board@.stroke.is_some(),
    {
        self.board.stroking()
    }

    pub fn begin_stroke(&mut self)
        requires
            old(self).wf(),
        ensures
            final(self).wf(),
            final(self).board@ == old(self).board@.begun(),
            *final(self) == (Relief { board: final(self).board, ..*old(self) }),
    {
        self.board.begin_stroke();
    }

    pub fn end_stroke(&mut self)
        requires
            old(self).wf(),
        ensures
            final(self).wf(),
            final(self).board@ == old(self).board@.ended(),
            *final(self) == (Relief { board: final(self).board, ..*old(self) }),
    {
        self.board.end_stroke();
    }

    /// Paint from wherever the brush was last to `(x, y)`, so a fast drag
    /// leaves a line rather than a dotted trail.
    pub fn stroke_to(&mut self, x: i32, y: i32)
        requires
            old(self).wf(),
        ensures
            final(self).wf(),
            *final(self) == (Relief {
                board: final(self).board,
                value: final(self).value,
                ..*old(self)
            }),
            ({
                let from = match old(self).board@.last_texel {
                    Some(p) => p,
                    None => (x, y),
                };
                let steps = drag_steps(from, (x, y));
                let end = dragged(
                    old(self).board@,
                    old(self).side,
                    old(self).tool,
                    old(self).brush,
                    old(self).value,
                    from,
                    (x, y),
                    steps,
                    steps + 1,
                );
                &&& final(self).board@ == (Sheet { last_texel: Some((x, y)), ..end.0 })
                &&& final(self).value == end.1
            }),
    {
        let from: (i32, i32) = match self.board.last_texel() {
            Some(p) => p,
            None => (x, y),
        };
        let dx: i64 = if from.0 < x {
            x as i64 - from.0 as i64
        } else {
            from.0 as i64 - x as i64
        };
        let dy: i64 = if from.1 < y {
            y as i64 - from.1 as i64
        } else {
            from.1 as i64 - y as i64
        };
        let most: i64 = if dx > dy {
            dx
        } else {
            dy
        };
        let steps: u64 = if most < 1 {
            1
        } else {
            most as u64
        };
        // Plain DDA: at most one texel of the line per step in the long axis.
        let mut k: u64 = 0;
        while k <= steps
            invariant
                k <= steps + 1,
                0 < steps <= 0x1_0000_0000,
                steps == drag_steps(from, (x, y)),
                self.wf(),
                *self == (Relief { board: self.board, value: self.value, ..*old(self) }),
                (self.board@, self.value) == dragged(
                    old(self).board@,
                    old(self).side,
                    old(self).tool,
                    old(self).brush,
                    old(self).value,
                    from,
                    (x, y),
                    steps as int,
                    k as int,
                ),
            decreases steps + 1 - k,
        {
            let px: i32 = step_along(from.0, x, k, steps);
            let py: i32 = step_along(from.1, y, k, steps);
            self.stamp(px, py);
            k += 1;
        }
        self.board.set_last_texel(Some((x, y)));
    }

    /// One stamp of the current tool.
    pub fn stamp(&mut self, x: i32, y: i32)
        requires
            old(self).wf(),
        ensures
            final(self).wf(),
            (final(self).board@, final(self).value) == stamped(
                old(self).board@,
                old(self).side,
                old(self).tool,
                old(self).brush,
                old(self).value,
                x as int,
                y as int,
            ),
            *final(self) == (Relief {
                board: final(self).board,
                value: final(self).value,
                ..*old(self)
            }),
    {
        match self.tool {
            Tool::Picker => {
                if let Some(v) = self.get(self.side, x, y) {
                    self.value = v;
                }
            },
            Tool::Bucket => {
                let ws = self.fill(x, y);
                self.board.write_all(&ws);
            },
            _ => {
                // The whole footprint is read before any of it is written, or
                // smoothing smears in whichever direction the loop runs.
                let ws = self.footprint(x, y);
                self.board.write_all(&ws);
            },
        }
    }

    /// What a stamp of the brush would write.
    fn footprint(&self, x: i32, y: i32) -> (ws: Vec<Write>)
        requires
            self.wf(),
        ensures
            ws@ == writes(
                self.side,
                brush_plan(
                    self.board@,
                    self.side,
                    self.tool,
                    self.brush,
                    self.value,
                    x as int,
                    y as int,
                ),
                self.board@.n(),
            ),
            are_writes(self.board@.n(), ws@),
    {
        proof {
            self.board.lemma_wf();
        }
        let ghost s = self.board@;
        let ghost plan = brush_plan(
            s,
            self.side,
            self.tool,
            self.brush,
            self.value,
            x as int,
            y as int,
        );
        let w: i64 = self.board.width() as i64;
        let h: i64 = self.board.height() as i64;
        let (x0, x1): (i64, i64) = span(self.brush, x, w);
        let (y0, y1): (i64, i64) = span(self.brush, y, h);
        let mut ws: Vec<Write> = Vec::new();
        if x0 < x1 {
            let mut cy: i64 = y0;
            proof {
                assert(y0 * w <= h * w) by (nonlinear_arith)
                    requires
                        y0 <= h,
                        w > 0,
                ;
                assert(0 <= y0 * w) by (nonlinear_arith)
                    requires
                        y0 >= 0,
                        w > 0,
                ;
                assert forall|t: int| 0 <= t < y0 * w implies (#[trigger] plan(t)).is_none() by {
                    assert((t / w as int) < y0) by (nonlinear_arith)
                        requires
                            0 <= t < y0 * w,
                            w > 0,
                    ;
                    assert(t / w as int >= 0) by (nonlinear_arith)
                        requires
                            0 <= t,
                            w > 0,
                    ;
                }
                lemma_writes_skip(self.side, plan, 0, y0 * w);
            }
            while cy < y1
                invariant
                    0 <= y0 <= cy <= y1 <= h || (cy == y0 && y1 < y0 && 0 <= y0 <= h),
                    0 <= x0 < x1 <= w,
                    w <= 512,
                    h <= 512,
                    w == s.w,
                    h == s.h,
                    self.board@ == s,
                    s.wf(),
                    self.wf(),
                    s.n() <= 0x4_0000,
                    plan == brush_plan(
                        s,
                        self.side,
                        self.tool,
                        self.brush,
                        self.value,
                        x as int,
                        y as int,
                    ),
                    forall|c: int| 0 <= c < w ==> #[trigger] under(self.brush, x as int, c) == (x0 <= c
                        < x1),
                    forall|c: int| 0 <= c < h ==> #[trigger] under(self.brush, y as int, c) == (y0 <= c
                        < y1),
                    ws@ == writes(self.side, plan, cy * w),
                    are_writes(s.n(), ws@),
                decreases y1 - cy,
            {
                proof {
                    assert(0 <= cy * w && (cy + 1) * w <= h * w && (cy + 1) * w == cy * w + w)
                        by (nonlinear_arith)
                        requires
                            0 <= cy < h,
                            w > 0,
                    ;
                    assert forall|c: int| 0 <= c < x0 implies (#[trigger] plan(
                        cy * s.w + c,
                    )).is_none() by {
                        crate::grid::lemma_texel(s.w, s.h, c, cy as int);
                        assert(under(self.brush, x as int, c) == (x0 <= c < x1));
                    }
                    lemma_row_skip(s, self.side, plan, cy as int, 0, x0 as int);
                }
                let mut cx: i64 = x0;
                while cx < x1
                    invariant
                        x0 <= cx <= x1,
                        0 <= x0 < x1 <= w,
                        0 <= y0 <= cy < y1 <= h,
                        w <= 512,
                        h <= 512,
                        w == s.w,
                        h == s.h,
                        self.board@ == s,
                        s.wf(),
                        self.wf(),
                        s.n() <= 0x4_0000,
                        0 <= cy * w,
                        cy * w + w <= h * w,
                        plan == brush_plan(
                            s,
                            self.side,
                            self.tool,
                            self.brush,
                            self.value,
                            x as int,
                            y as int,
                        ),
                        forall|c: int|
                            0 <= c < w ==> #[trigger] under(self.brush, x as int, c) == (x0 <= c
                                < x1),
                        forall|c: int|
                            0 <= c < h ==> #[trigger] under(self.brush, y as int, c) == (y0 <= c
                                < y1),
                        ws@ == writes(self.side, plan, cy * w + cx),
                        are_writes(s.n(), ws@),
                    decreases x1 - cx,
                {
                    let v: Option<u8> = self.brushed_texel(cx as i32, cy as i32);
                    proof {
                        crate::grid::lemma_texel(s.w, s.h, cx as int, cy as int);
                        assert(under(self.brush, x as int, cx as int));
                        assert(under(self.brush, y as int, cy as int));
                        assert(plan(cy * w + cx) == Some(v));
                        assert(h * w == w * h) by (nonlinear_arith);
                    }
                    ws.push((self.side, (cy * w + cx) as usize, v));
                    assert(ws@ == writes(self.side, plan, cy * w + cx + 1));
                    cx += 1;
                }
                proof {
                    assert forall|c: int| x1 <= c < w implies (#[trigger] plan(
                        cy * s.w + c,
                    )).is_none() by {
                        crate::grid::lemma_texel(s.w, s.h, c, cy as int);
                        assert(under(self.brush, x as int, c) == (x0 <= c < x1));
                    }
                    lemma_row_skip(s, self.side, plan, cy as int, x1 as int, w as int);
                }
                cy += 1;
            }
            proof {
                assert(h * w == w * h) by (nonlinear_arith);
                assert(cy * w <= h * w) by (nonlinear_arith)
                    requires
                        cy <= h,
                        w > 0,
                ;
                assert(0 <= cy * w) by (nonlinear_arith)
                    requires
                        cy >= 0,
                        w > 0,
                ;
                assert forall|t: int| cy * w <= t < s.n() implies (#[trigger] plan(t)).is_none() by {
                    crate::grid::lemma_texel_onto(s.w, s.h, t);
                    assert(t / w as int >= cy) by (nonlinear_arith)
                        requires
                            cy * w <= t,
                            w > 0,
                    ;
                    assert(under(self.brush, y as int, t / s.w) == (y0 <= t / s.w < y1));
                }
                lemma_writes_skip(self.side, plan, cy * w, s.n());
            }
        } else {
            proof {
                assert forall|t: int| 0 <= t < s.n() implies (#[trigger] plan(t)).is_none() by {
                    crate::grid::lemma_texel_onto(s.w, s.h, t);
                    assert(under(self.brush, x as int, t % s.w) == (x0 <= t % s.w < x1));
                }
                lemma_writes_skip(self.side, plan, 0, s.n());
            }
        }
        ws
    }

    /// What the brush makes of one texel.
    fn brushed_texel(&self, x: i32, y: i32) -> (v: Option<u8>)
        requires
            self.wf(),
            on_canvas(self.board@.w, self.board@.h, x as int, y as int),
        ensures
            v == brushed(self.board@, self.side, self.tool, self.value, x as int, y as int),
    {
        proof {
            self.board.lemma_wf();
        }
        match self.tool {
            Tool::Eraser => None,
            Tool::Raise => Some(rung_value(nearest_rung(self.level_at(x, y)) + 1)),
            Tool::Lower => Some(rung_value(nearest_rung(self.level_at(x, y)) - 1)),
            Tool::Smooth => {
                let sum: u32 = self.sample(x, y) as u32 + self.sample(x - 1, y) as u32
                    + self.sample(x + 1, y) as u32 + self.sample(x, y - 1) as u32 + self.sample(
                    x,
                    y + 1,
                ) as u32;
                Some(((sum + 2) / 5) as u8)
            },
            _ => Some(self.value),
        }
    }

    /// A texel's height, flat where it is unpainted.
    fn level_at(&self, x: i32, y: i32) -> (v: u8)
        requires
            self.wf(),
        ensures
            v == level(self.board@.get(self.side, x as int, y as int)),
    {
        match self.get(self.side, x, y) {
            Some(v) => v,
            None => FLAT,
        }
    }

    /// A texel's height for averaging, clamped at the border so the edge of
    /// the canvas does not pull the smooth tool towards flat.
    fn sample(&self, x: i32, y: i32) -> (v: u8)
        requires
            self.wf(),
        ensures
            v == near_level(self.board@, self.side, x as int, y as int),
    {
        proof {
            self.board.lemma_wf();
        }
        let w: i32 = self.board.width() as i32;
        let h: i32 = self.board.height() as i32;
        let cx: i32 = if x < 0 {
            0
        } else if x > w - 1 {
            w - 1
        } else {
            x
        };
        let cy: i32 = if y < 0 {
            0
        } else if y > h - 1 {
            h - 1
        } else {
            y
        };
        self.level_at(cx, cy)
    }

    /// What a fill from `(x, y)` would write: the connected run of texels as
    /// high as the one it starts on.
    fn fill(&self, x: i32, y: i32) -> (ws: Vec<Write>)
        requires
            self.wf(),
        ensures
            ws@ == writes(
                self.side,
                fill_plan(self.board@, self.side, self.value, x as int, y as int),
                self.board@.n(),
            ),
            are_writes(self.board@.n(), ws@),
    {
        proof {
            self.board.lemma_wf();
        }
        let ghost s = self.board@;
        let ghost plan = fill_plan(s, self.side, self.value, x as int, y as int);
        let mut ws: Vec<Write> = Vec::new();
        let target: Option<u8> = self.get(self.side, x, y);
        if self.board.index(x, y).is_none() || target == Some(self.value) {
            proof {
                assert forall|t: int| 0 <= t < s.n() implies (#[trigger] plan(t)).is_none() by {}
                lemma_writes_skip(self.side, plan, 0, s.n());
            }
            return ws;
        }
        let n: usize = self.board.len();
        let mut marks: Vec<bool> = Vec::new();
        while marks.len() < n
            invariant
                marks@.len() <= n,
                n == s.n(),
                self.wf(),
                self.board@ == s,
                forall|t: int|
                    0 <= t < marks@.len() ==> #[trigger] marks@[t] == (s.at(self.side, t)
                        == target),
            decreases n - marks@.len(),
        {
            let same: bool = self.board.at(self.side, marks.len()) == target;
            marks.push(same);
        }
        let w: u32 = self.board.width();
        let h: u32 = self.board.height();
        let ghost open = level_with(s, self.side, target);
        proof {
            crate::grid::lemma_texel(s.w, s.h, x as int, y as int);
            assert forall|p: (int, int)| #[trigger]
                shape::marked(marks@, s.w, s.h)(p) == open(p) by {
                if on_canvas(s.w, s.h, p.0, p.1) {
                    crate::grid::lemma_texel(s.w, s.h, p.0, p.1);
                }
            }
            assert(shape::marked(marks@, s.w, s.h) =~= open);
        }
        let run: Vec<bool> = shape::flood(&marks, w, h, x as u32, y as u32);
        let mut i: usize = 0;
        while i < n
            invariant
                i <= n,
                n == s.n(),
                n <= 0x4_0000,
                s.wf(),
                run@.len() == n,
                plan == fill_plan(s, self.side, self.value, x as int, y as int),
                on_canvas(s.w, s.h, x as int, y as int),
                target == s.get(self.side, x as int, y as int),
                target != Some(self.value),
                open == level_with(s, self.side, target),
                forall|cx: int, cy: int|
                    on_canvas(s.w, s.h, cx, cy) ==> #[trigger] run@[texel(s.w, cx, cy)]
                        == connected(open, (x as int, y as int), (cx, cy)),
                ws@ == writes(self.side, plan, i as int),
                are_writes(s.n(), ws@),
            decreases n - i,
        {
            proof {
                crate::grid::lemma_texel_onto(s.w, s.h, i as int);
                assert(run@[texel(s.w, i as int % s.w, i as int / s.w)] == connected(
                    open,
                    (x as int, y as int),
                    (i as int % s.w, i as int / s.w),
                ));
            }
            if run[i] {
                ws.push((self.side, i, Some(self.value)));
            }
            i += 1;
        }
        ws
    }
}

/// The part of `0..side` that lies under the brush, as a half-open range.
fn span(brush: u32, at: i32, side: i64) -> (r: (i64, i64))
    requires
        1 <= side <= 512,
    ensures
        0 <= r.0 <= side,
        r.1 <= side,
        forall|c: int| 0 <= c < side ==> #[trigger] under(brush, at as int, c) == (r.0 <= c < r.1),
{
    let b: i64 = if brush <= i32::MAX as u32 {
        brush as i64
    } else {
        0
    };
    let lo: i64 = at as i64 - b / 2;
    let hi: i64 = lo + b;
    (
        if lo < 0 {
            0
        } else if lo > side {
            side
        } else {
            lo
        },
        if hi > side {
            side
        } else {
            hi
        },
    )
}

/// A stretch of a row that the plan leaves alone.
proof fn lemma_row_skip(
    s: Sheet,
    side: Side,
    plan: spec_fn(int) -> Option<Option<u8>>,
    y: int,
    a: int,
    b: int,
)
    requires
        0 <= a <= b <= s.w,
        0 <= y < s.h,
        forall|c: int| a <= c < b ==> (#[trigger] plan(y * s.w + c)).is_none(),
    ensures
        writes(side, plan, y * s.w + b) == writes(side, plan, y * s.w + a),
{
    assert(0 <= y * s.w) by (nonlinear_arith)
        requires
            y >= 0,
            s.w >= 0,
    ;
    assert forall|t: int| y * s.w + a <= t < y * s.w + b implies (#[trigger] plan(t)).is_none() by {
        assert(plan(y * s.w + (t - y * s.w)).is_none());
    }
    lemma_writes_skip(side, plan, y * s.w + a, y * s.w + b);
}

// ---------------------------------------------------------------- the history

impl Relief {
    pub fn can_undo(&self) -> (r: bool)
        ensures
            r == (self.board@.undo.len() > 0),
    {
        self.board.can_undo()
    }

    pub fn can_redo(&self) -> (r: bool)
        ensures
            r == (self.board@.redo.len() > 0),
    {
        self.board.can_redo()
    }

    /// Undo the last stroke, and select a side it was on.
    pub fn undo(&mut self)
        requires
            old(self).wf(),
        ensures
            final(self).wf(),
            final(self).board@ == old(self).board@.undone(),
            final(self).side == (if old(self).board@.undo.len() == 0 {
                old(self).side
            } else {
                old(self).board@.undo.last()[0].side
            }),
            *final(self) == (Relief {
                board: final(self).board,
                side: final(self).side,
                ..*old(self)
            }),
    {
        proof {
            self.board.lemma_wf();
            if self.board@.undo.len() > 0 {
                let last = self.board@.undo.len() - 1;
                assert(crate::sheet::is_edit(self.board@.n(), self.board@.undo[last]));
            }
        }
        if let Some(side) = self.board.undo() {
            self.side = side;
        }
    }

    /// Put the last stroke undone back, and select a side it was on.
    pub fn redo(&mut self)
        requires
            old(self).wf(),
        ensures
            final(self).wf(),
            final(self).board@ == old(self).board@.redone(),
            final(self).side == (if old(self).board@.redo.len() == 0 {
                old(self).side
            } else {
                old(self).board@.redo.last()[0].side
            }),
            *final(self) == (Relief {
                board: final(self).board,
                side: final(self).side,
                ..*old(self)
            }),
    {
        proof {
            self.board.lemma_wf();
            if self.board@.redo.len() > 0 {
                let last = self.board@.redo.len() - 1;
                assert(crate::sheet::is_edit(self.board@.n(), self.board@.redo[last]));
            }
        }
        if let Some(side) = self.board.redo() {
            self.side = side;
        }
    }
}

// ------------------------------------------------------------------ the bake

/// The four edge heights of a texel: top, left, right, bottom.
pub open spec fn edges_of(s: Sheet, i: int) -> (u8, u8, u8, u8) {
    (
        level(s.at(Side::Top, i)),
        level(s.at(Side::Left, i)),
        level(s.at(Side::Right, i)),
        level(s.at(Side::Bottom, i)),
    )
}

/// The four edge heights of every texel.
pub open spec fn all_edges(s: Sheet) -> Seq<(u8, u8, u8, u8)> {
    Seq::new(s.n() as nat, |i: int| edges_of(s, i))
}

/// A neutral surface, so the shape is all there is to see.
pub const NEUTRAL: u8 = 204;

/// Is this what a relief is lit on: the picture at the canvas's size, or
/// without one a neutral surface?
pub open spec fn is_albedo(out: Pixels, albedo: Option<&Pixels>, w: u32, h: u32) -> bool {
    &&& out.wf()
    &&& out.width == w
    &&& out.height == h
    &&& match albedo {
        Some(img) => out.data@ == resized_to(img.data@, img.width, img.height, w, h),
        None => forall|i: int| 0 <= i < w * h ==> #[trigger] out.nth(i) == grey(NEUTRAL),
    }
}

/// A greyscale picture of what `f` made of the edge heights.
pub open spec fn is_levels<T, F: Fn(Surface<T>, &Vec<(u8, u8, u8, u8)>) -> Vec<u8>>(
    f: F,
    surface: Surface<T>,
    s: Sheet,
    out: Pixels,
) -> bool {
    exists|edges: Vec<(u8, u8, u8, u8)>, levels: Vec<u8>|
        {
            &&& edges@ == all_edges(s)
            &&& #[trigger] f.ensures((surface, &edges), levels)
            &&& forall|i: int| 0 <= i < s.n() ==> #[trigger] out.nth(i) == grey(levels@[i])
        }
}

/// Can `f` be handed the edges of these canvases, and does it give one level
/// for each texel?
pub open spec fn gives_levels<T, F: Fn(Surface<T>, &Vec<(u8, u8, u8, u8)>) -> Vec<u8>>(f: F) -> bool {
    &&& forall|surface: Surface<T>, edges: &Vec<(u8, u8, u8, u8)>| #[trigger]
        f.requires((surface, edges))
    &&& forall|surface: Surface<T>, edges: &Vec<(u8, u8, u8, u8)>, levels: Vec<u8>| #[trigger]
        f.ensures((surface, edges), levels) ==> levels@.len() == edges@.len()
}

/// Is `baked` what the canvases turn into, given what a texel's four edges
/// make of its normal and of its height?
pub open spec fn is_baked<
    T,
    N: Fn(Surface<T>, u8, u8, u8, u8) -> (u8, u8, u8),
    H: Fn(u8, u8, u8, u8) -> u8,
    A: Fn(Surface<T>, &Vec<(u8, u8, u8, u8)>) -> Vec<u8>,
    R: Fn(Surface<T>, &Vec<(u8, u8, u8, u8)>) -> Vec<u8>,
>(
    baked: Baked,
    s: Sheet,
    surface: Surface<T>,
    normal: N,
    height: H,
    ao: A,
    roughness: R,
    albedo: Option<&Pixels>,
) -> bool {
    &&& baked.shading.wf()
    &&& baked.shading.width == s.w
    &&& baked.shading.height == s.h
    &&& baked.shading.normal.same(baked.normal)
    &&& baked.height.wf()
    &&& baked.height.width == s.w
    &&& baked.height.height == s.h
    &&& forall|i: int| 0 <= i < s.n() ==> is_normal(
        normal,
        surface,
        s,
        i,
        #[trigger] baked.normal.nth(i),
    )
    &&& forall|i: int| 0 <= i < s.n() ==> is_height(height, s, i, #[trigger] baked.height.nth(i))
    &&& is_levels(ao, surface, s, baked.shading.ao)
    &&& is_levels(roughness, surface, s, baked.shading.roughness)
    &&& is_albedo(baked.shading.albedo, albedo, s.w as u32, s.h as u32)
}

/// A texel's normal: made of its own four edges, opaque.
pub open spec fn is_normal<T, N: Fn(Surface<T>, u8, u8, u8, u8) -> (u8, u8, u8)>(
    normal: N,
    surface: Surface<T>,
    s: Sheet,
    i: int,
    px: Rgba,
) -> bool {
    let (t, l, r, b) = edges_of(s, i);
    normal.ensures((surface, t, l, r, b), (px.r, px.g, px.b)) && px.a == 255
}

/// Can `normal` be asked of any surface and any four edges?
pub open spec fn asks_edges<T, N: Fn(Surface<T>, u8, u8, u8, u8) -> (u8, u8, u8)>(
    normal: N,
) -> bool {
    forall|surface: Surface<T>, t: u8, l: u8, r: u8, b: u8| #[trigger]
        normal.requires((surface, t, l, r, b))
}

/// A texel's height: made of its own four edges, grey.
pub open spec fn is_height<H: Fn(u8, u8, u8, u8) -> u8>(
    height: H,
    s: Sheet,
    i: int,
    px: Rgba,
) -> bool {
    height.ensures(edges_of(s, i), px.r) && px == grey(px.r)
}

impl Relief {
    /// The four edge heights of every texel, row by row.
    pub fn edges(&self) -> (edges: Vec<(u8, u8, u8, u8)>)
        requires
            self.wf(),
        ensures
            edges@ == all_edges(self.board@),
    {
        proof {
            self.board.lemma_wf();
        }
        let n: usize = self.board.len();
        let mut edges: Vec<(u8, u8, u8, u8)> = Vec::new();
        while edges.len() < n
            invariant
                edges@.len() <= n,
                n == self.board@.n(),
                self.wf(),
                forall|i: int|
                    0 <= i < edges@.len() ==> #[trigger] edges@[i] == edges_of(self.board@, i),
            decreases n - edges@.len(),
        {
            let i: usize = edges.len();
            edges.push(
                (
                    self.baking(Side::Top, i),
                    self.baking(Side::Left, i),
                    self.baking(Side::Right, i),
                    self.baking(Side::Bottom, i),
                ),
            );
        }
        assert(edges@ =~= all_edges(self.board@));
        edges
    }

    /// The height used by the bake: unpainted texels are flat.
    fn baking(&self, side: Side, i: usize) -> (v: u8)
        requires
            self.wf(),
            i < self.board@.n(),
        ensures
            v == level(self.board@.at(side, i as int)),
    {
        match self.board.at(side, i) {
            Some(v) => v,
            None => FLAT,
        }
    }

    /// Four edge heights per texel into a normal map, a height map, and the
    /// maps the lit preview needs. `normal` and `height` see one texel's own
    /// top, left, right and bottom edge; `ao` and `roughness`, which look
    /// further, see them all. Of the image's knobs they get those of
    /// [`Surface`], with the relief's own `depth`.
    pub fn bake<
        T: Copy,
        N: Fn(Surface<T>, u8, u8, u8, u8) -> (u8, u8, u8),
        H: Fn(u8, u8, u8, u8) -> u8,
        A: Fn(Surface<T>, &Vec<(u8, u8, u8, u8)>) -> Vec<u8>,
        R: Fn(Surface<T>, &Vec<(u8, u8, u8, u8)>) -> Vec<u8>,
    >(
        &self,
        settings: &Settings<T>,
        depth: T,
        normal: N,
        height: H,
        ao: A,
        roughness: R,
        albedo: Option<&Pixels>,
    ) -> (baked: Baked)
        requires
            self.wf(),
            asks_edges(normal),
            forall|t: u8, l: u8, r: u8, b: u8| #[trigger] height.requires((t, l, r, b)),
            gives_levels(ao),
            gives_levels(roughness),
            albedo.is_some() ==> lightable(*albedo.unwrap(), self.board@),
        ensures
            is_baked(
                baked,
                self.board@,
                settings.surface_of(depth),
                normal,
                height,
                ao,
                roughness,
                albedo,
            ),
    {
        let ghost s = self.board@;
        proof {
            self.board.lemma_wf();
        }
        let w: u32 = self.board.width();
        let h: u32 = self.board.height();
        let n: usize = self.board.len();
        let surface: Surface<T> = settings.surface(depth);
        let edges = self.edges();
        let mut data: Vec<u8> = Vec::new();
        let mut heights: Vec<u8> = Vec::new();
        let mut i: usize = 0;
        while i < n
            invariant
                i <= n,
                n == s.n(),
                n <= 0x4_0000,
                edges@ == all_edges(s),
                asks_edges(normal),
                forall|t: u8, l: u8, r: u8, b: u8| #[trigger] height.requires((t, l, r, b)),
                data@.len() == 4 * i,
                heights@.len() == i,
                forall|j: int| 0 <= j < i ==> is_normal(
                    normal,
                    surface,
                    s,
                    j,
                    #[trigger] pixel_of(data@, j),
                ),
                forall|j: int|
                    0 <= j < i ==> height.ensures(edges_of(s, j), #[trigger] heights@[j]),
            decreases n - i,
        {
            let ghost before = data@;
            let (t, l, r, b): (u8, u8, u8, u8) = edges[i];
            // No kernel, no neighbours: what the texel's edges were declared to
            // be is what it is.
            let (nx, ny, nz): (u8, u8, u8) = normal(surface, t, l, r, b);
            data.push(nx);
            data.push(ny);
            data.push(nz);
            data.push(255);
            heights.push(height(t, l, r, b));
            proof {
                assert forall|j: int| 0 <= j < i + 1 implies is_normal(
                    normal,
                    surface,
                    s,
                    j,
                    #[trigger] pixel_of(data@, j),
                ) by {
                    if j < i {
                        assert(pixel_of(data@, j) == pixel_of(before, j));
                    } else {
                        assert(pixel_of(data@, j) == Rgba { r: nx, g: ny, b: nz, a: 255 });
                    }
                }
            }
            i += 1;
        }
        let normals = Pixels { width: w, height: h, data };
        let occlusion: Vec<u8> = ao(surface, &edges);
        let rough: Vec<u8> = roughness(surface, &edges);
        let lit: Pixels = match albedo {
            Some(img) => img.resize_to(w, h),
            None => Pixels::from_pixel(
                w,
                h,
                Rgba { r: NEUTRAL, g: NEUTRAL, b: NEUTRAL, a: 255 },
            ),
        };
        let copy: Pixels = normals.duplicate();
        let heights: Pixels = Pixels::from_grey(w, h, heights.as_slice());
        let baked = Baked {
            shading: Shading {
                width: w,
                height: h,
                albedo: lit,
                normal: copy,
                ao: Pixels::from_grey(w, h, occlusion.as_slice()),
                roughness: Pixels::from_grey(w, h, rough.as_slice()),
            },
            normal: normals,
            height: heights,
        };
        proof {
            assert(is_levels(ao, surface, s, baked.shading.ao)) by {
                assert(ao.ensures((surface, &edges), occlusion));
            }
            assert(is_levels(roughness, surface, s, baked.shading.roughness)) by {
                assert(roughness.ensures((surface, &edges), rough));
            }
            assert forall|j: int| 0 <= j < n implies is_normal(
                normal,
                surface,
                s,
                j,
                #[trigger] baked.normal.nth(j),
            ) by {
                assert(is_normal(normal, surface, s, j, pixel_of(normals.data@, j)));
            }
        }
        baked
    }
}

/// Can a relief of this size be lit on this picture?
pub open spec fn lightable(img: Pixels, s: Sheet) -> bool {
    img.wf() && ((img.width == s.w && img.height == s.h) || resizable(
        img.width,
        s.w as u32,
        s.h as u32,
    ))
}

impl Relief {
    /// Rebake if anything moved. Cheap enough to call every frame: it does
    /// nothing unless something changed. `moved` says that the knobs the bake
    /// borrows from the image pipeline are not what they were.
    pub fn sync<
        T: Copy,
        N: Fn(Surface<T>, u8, u8, u8, u8) -> (u8, u8, u8),
        H: Fn(u8, u8, u8, u8) -> u8,
        A: Fn(Surface<T>, &Vec<(u8, u8, u8, u8)>) -> Vec<u8>,
        R: Fn(Surface<T>, &Vec<(u8, u8, u8, u8)>) -> Vec<u8>,
    >(
        &mut self,
        moved: bool,
        settings: &Settings<T>,
        depth: T,
        normal: N,
        height: H,
        ao: A,
        roughness: R,
        albedo: Option<&Pixels>,
    )
        requires
            old(self).wf(),
            asks_edges(normal),
            forall|t: u8, l: u8, r: u8, b: u8| #[trigger] height.requires((t, l, r, b)),
            gives_levels(ao),
            gives_levels(roughness),
            albedo.is_some() ==> lightable(*albedo.unwrap(), old(self).board@),
        ensures
            final(self).wf(),
            *final(self) == (Relief {
                board: final(self).board,
                baked: final(self).baked,
                ..*old(self)
            }),
            ({
                let seen = if moved {
                    old(self).board@.marked()
                } else {
                    old(self).board@
                };
                &&& final(self).board@ == (Sheet {
                    dirty: false,
                    ..seen
                })
                &&& final(self).baked.is_some()
                &&& if seen.dirty || old(self).baked.is_none() {
                    is_baked(
                        final(self).baked.unwrap(),
                        final(self).board@,
                        settings.surface_of(depth),
                        normal,
                        height,
                        ao,
                        roughness,
                        albedo,
                    )
                } else {
                    final(self).baked == old(self).baked
                }
            }),
    {
        if moved {
            self.board.mark();
        }
        if self.board.dirty() || self.baked.is_none() {
            self.board.settle();
            let baked = self.bake(settings, depth, normal, height, ao, roughness, albedo);
            self.baked = Some(baked);
        }
    }

    /// Does the canvas on show have to be drawn anew? It does when it is
    /// another canvas than the one last handed out, or has changed since.
    pub fn refresh_canvas(&mut self) -> (stale: bool)
        ensures
            stale == (old(self).canvas_key != Some((old(self).side, old(self).board@.revision))),
            *final(self) == (Relief {
                canvas_key: Some((old(self).side, old(self).board@.revision)),
                ..*old(self)
            }),
    {
        let revision: u64 = self.board.revision();
        let fresh: bool = match self.canvas_key {
            Some((side, r)) => side == self.side && r == revision,
            None => false,
        };
        if !fresh {
            self.canvas_key = Some((self.side, revision));
        }
        !fresh
    }

    /// Do the baked normals have to be drawn anew?
    pub fn refresh_normal(&mut self) -> (stale: bool)
        ensures
            stale == (old(self).baked.is_some() && old(self).normal_key != Some(
                old(self).board@.revision,
            )),
            *final(self) == (Relief {
                normal_key: if old(self).baked.is_some() {
                    Some(old(self).board@.revision)
                } else {
                    old(self).normal_key
                },
                ..*old(self)
            }),
    {
        let revision: u64 = self.board.revision();
        let fresh: bool = match self.normal_key {
            Some(r) => r == revision,
            None => false,
        };
        if self.baked.is_none() || fresh {
            return false;
        }
        self.normal_key = Some(revision);
        true
    }

    /// Is this the canvas that was last handed out?
    pub fn canvas_shown(&self, side: Side) -> (r: bool)
        ensures
            r == (self.canvas_key.is_some() && self.canvas_key.unwrap().0 == side),
    {
        match self.canvas_key {
            Some((s, _)) => s == side,
            None => false,
        }
    }

    pub fn baked(&self) -> (baked: Option<&Baked>)
        ensures
            baked.is_some() == self.baked.is_some(),
            baked.is_some() ==> *baked.unwrap() == self.baked.unwrap(),
    {
        match &self.baked {
            Some(baked) => Some(baked),
            None => None,
        }
    }

    /// The canvas as an image: painted texels grey by height, unpainted ones
    /// transparent, so "nothing here" and "flat, deliberately" look different.
    pub fn canvas_image(&self, side: Side) -> (out: Pixels)
        requires
            self.wf(),
        ensures
            out.wf(),
            out.width == self.board@.w,
            out.height == self.board@.h,
            forall|i: int|
                0 <= i < self.board@.n() ==> #[trigger] out.nth(i) == canvas_pixel(
                    self.board@.at(side, i),
                ),
            forall|i: int|
                0 <= i < self.board@.n() ==> (#[trigger] out.nth(i)).a == (
                if self.board@.at(side, i) is Some {
                    255u8
                } else {
                    0u8
                }),
            forall|i: int|
                0 <= i < self.board@.n() && self.board@.at(side, i) is Some ==> {
                    let v = self.board@.at(side, i).unwrap();
                    (#[trigger] out.nth(i)).r == v && out.nth(i).g == v && out.nth(i).b == v
                },
    {
        proof {
            self.board.lemma_wf();
        }
        let n: usize = self.board.len();
        let mut data: Vec<u8> = Vec::new();
        let mut i: usize = 0;
        while i < n
            invariant
                i <= n,
                n == self.board@.n(),
                n <= 0x4_0000,
                self.wf(),
                data@.len() == 4 * i,
                forall|j: int|
                    0 <= j < i ==> #[trigger] pixel_of(data@, j) == canvas_pixel(
                        self.board@.at(side, j),
                    ),
            decreases n - i,
        {
            let ghost before = data@;
            let (v, a): (u8, u8) = match self.board.at(side, i) {
                Some(v) => (v, 255),
                None => (0, 0),
            };
            data.push(v);
            data.push(v);
            data.push(v);
            data.push(a);
            proof {
                assert forall|j: int| 0 <= j < i + 1 implies #[trigger] pixel_of(data@, j)
                    == canvas_pixel(self.board@.at(side, j)) by {
                    if j < i {
                        assert(pixel_of(data@, j) == pixel_of(before, j));
                    }
                }
            }
            i += 1;
        }
        Pixels { width: self.board.width(), height: self.board.height(), data }
    }

    /// One side's heights as a greyscale image, for export.
    pub fn side_image(&self, side: Side) -> (out: Pixels)
        requires
            self.wf(),
        ensures
            out.wf(),
            out.width == self.board@.w,
            out.height == self.board@.h,
            forall|i: int|
                0 <= i < self.board@.n() ==> #[trigger] out.nth(i) == grey(
                    level(self.board@.at(side, i)),
                ),
    {
        proof {
            self.board.lemma_wf();
        }
        let n: usize = self.board.len();
        let mut levels: Vec<u8> = Vec::new();
        while levels.len() < n
            invariant
                levels@.len() <= n,
                n == self.board@.n(),
                self.wf(),
                forall|j: int|
                    0 <= j < levels@.len() ==> #[trigger] levels@[j] == level(
                        self.board@.at(side, j),
                    ),
            decreases n - levels@.len(),
        {
            levels.push(self.baking(side, levels.len()));
        }
        Pixels::from_grey(self.board.width(), self.board.height(), levels.as_slice())
    }

    /// One frame of the pointer on a canvas. While the button is held the
    /// brush follows the pointer, beginning a stroke if there is none; when it
    /// is let go the stroke ends.
    pub fn follow(&mut self, held: bool, at: Option<(i32, i32)>)
        requires
            old(self).wf(),
        ensures
            final(self).wf(),
            *final(self) == (Relief {
                board: final(self).board,
                value: final(self).value,
                ..*old(self)
            }),
            !held ==> final(self).value == old(self).value && final(self).board@ == (if old(self).board@.stroke.is_some() {
                old(self).board@.ended()
            } else {
                old(self).board@
            }),
            held ==> ({
                let on = if old(self).board@.stroke.is_some() {
                    old(self).board@
                } else {
                    old(self).board@.begun()
                };
                match at {
                    None => final(self).board@ == on && final(self).value == old(self).value,
                    Some(to) => {
                        let from = match on.last_texel {
                            Some(p) => p,
                            None => to,
                        };
                        let steps = drag_steps(from, to);
                        let end = dragged(
                            on,
                            old(self).side,
                            old(self).tool,
                            old(self).brush,
                            old(self).value,
                            from,
                            to,
                            steps,
                            steps + 1,
                        );
                        &&& final(self).board@ == (Sheet { last_texel: Some(to), ..end.0 })
                        &&& final(self).value == end.1
                    },
                }
            }),
    {
        if held {
            if !self.stroking() {
                self.begin_stroke();
            }
            if let Some((x, y)) = at {
                self.stroke_to(x, y);
            }
        } else if self.stroking() {
            self.end_stroke();
        }
    }
}

/// How a texel of a canvas is shown.
pub open spec fn canvas_pixel(v: Option<u8>) -> Rgba {
    match v {
        Some(v) => grey(v),
        None => Rgba { r: 0, g: 0, b: 0, a: 0 },
    }
}

// ------------------------------------------------------------------ the laws

/// Are two sets of canvases of one size, and equally high wherever an
/// unpainted texel is read as flat?
pub open spec fn equally_high(a: Sheet, b: Sheet) -> bool {
    &&& a.w == b.w
    &&& a.h == b.h
    &&& forall|side: Side, i: int|
        0 <= i < a.n() ==> level(#[trigger] a.at(side, i)) == level(b.at(side, i))
}

/// Unpainted is as good as painted flat: canvases that are equally high hand
/// the bake the same edges.
pub proof fn law_unpainted_is_flat(a: Sheet, b: Sheet)
    requires
        a.wf(),
        b.wf(),
        equally_high(a, b),
    ensures
        all_edges(a) == all_edges(b),
{
    let w = a.w;
    let h = a.h;
    assert(w * h >= 0) by (nonlinear_arith)
        requires
            w >= 0,
            h >= 0,
    ;
    assert forall|i: int| 0 <= i < a.n() implies #[trigger] all_edges(a)[i] == all_edges(b)[i] by {
        assert(level(a.at(Side::Top, i)) == level(b.at(Side::Top, i)));
        assert(level(a.at(Side::Left, i)) == level(b.at(Side::Left, i)));
        assert(level(a.at(Side::Right, i)) == level(b.at(Side::Right, i)));
        assert(level(a.at(Side::Bottom, i)) == level(b.at(Side::Bottom, i)));
    }
    assert(all_edges(a) =~= all_edges(b));
}

/// Has a function one answer to each question?
pub open spec fn one_normal<T, N: Fn(Surface<T>, u8, u8, u8, u8) -> (u8, u8, u8)>(
    f: N,
) -> bool {
    forall|
        surface: Surface<T>,
        t: u8,
        l: u8,
        r: u8,
        b: u8,
        u: (u8, u8, u8),
        v: (u8, u8, u8),
    |
        #![trigger f.ensures((surface, t, l, r, b), u), f.ensures((surface, t, l, r, b), v)]
        f.ensures((surface, t, l, r, b), u) && f.ensures((surface, t, l, r, b), v) ==> u == v
}

pub open spec fn one_height<H: Fn(u8, u8, u8, u8) -> u8>(f: H) -> bool {
    forall|t: u8, l: u8, r: u8, b: u8, u: u8, v: u8|
        #![trigger f.ensures((t, l, r, b), u), f.ensures((t, l, r, b), v)]
        f.ensures((t, l, r, b), u) && f.ensures((t, l, r, b), v) ==> u == v
}

pub open spec fn one_field<T, F: Fn(Surface<T>, &Vec<(u8, u8, u8, u8)>) -> Vec<u8>>(
    f: F,
) -> bool {
    forall|
        surface: Surface<T>,
        c: Vec<(u8, u8, u8, u8)>,
        d: Vec<(u8, u8, u8, u8)>,
        u: Vec<u8>,
        v: Vec<u8>,
    |
        #![trigger f.ensures((surface, &c), u), f.ensures((surface, &d), v)]
        c@ == d@ && f.ensures((surface, &c), u) && f.ensures((surface, &d), v) ==> u@ == v@
}

/// Two pictures of one size with the same pixels are the same.
proof fn lemma_same_pixels(a: Pixels, b: Pixels)
    requires
        a.wf(),
        b.wf(),
        a.width == b.width,
        a.height == b.height,
        forall|i: int| 0 <= i < a.width * a.height ==> #[trigger] a.nth(i) == b.nth(i),
    ensures
        a.same(b),
{
    assert forall|j: int| 0 <= j < a.data@.len() implies #[trigger] a.data@[j] == b.data@[j] by {
        let i = j / 4;
        assert(a.nth(i) == b.nth(i));
        assert(j == 4 * i || j == 4 * i + 1 || j == 4 * i + 2 || j == 4 * i + 3);
    }
    assert(a.data@ =~= b.data@);
}

proof fn lemma_same_levels<T, F: Fn(Surface<T>, &Vec<(u8, u8, u8, u8)>) -> Vec<u8>>(
    f: F,
    surface: Surface<T>,
    a: Sheet,
    b: Sheet,
    x: Pixels,
    y: Pixels,
)
    requires
        a.wf(),
        b.wf(),
        equally_high(a, b),
        one_field(f),
        x.wf(),
        y.wf(),
        x.width == a.w,
        x.height == a.h,
        y.width == a.w,
        y.height == a.h,
        is_levels(f, surface, a, x),
        is_levels(f, surface, b, y),
    ensures
        x.same(y),
{
    law_unpainted_is_flat(a, b);
    let (c, u) = choose|edges: Vec<(u8, u8, u8, u8)>, levels: Vec<u8>|
        {
            &&& edges@ == all_edges(a)
            &&& #[trigger] f.ensures((surface, &edges), levels)
            &&& forall|i: int| 0 <= i < a.n() ==> #[trigger] x.nth(i) == grey(levels@[i])
        };
    let (d, v) = choose|edges: Vec<(u8, u8, u8, u8)>, levels: Vec<u8>|
        {
            &&& edges@ == all_edges(b)
            &&& #[trigger] f.ensures((surface, &edges), levels)
            &&& forall|i: int| 0 <= i < b.n() ==> #[trigger] y.nth(i) == grey(levels@[i])
        };
    assert(u@ == v@);
    assert forall|i: int| 0 <= i < x.width * x.height implies #[trigger] x.nth(i) == y.nth(i) by {
        assert(x.nth(i) == grey(u@[i]));
        assert(y.nth(i) == grey(v@[i]));
    }
    lemma_same_pixels(x, y);
}

/// The bake goes by the heights and the relief's own depth alone. Two reliefs
/// that are equally high, baked at one depth with knobs that differ only in how
/// an image is turned into heights, turn into the same pictures: the image's
/// strength cannot move a relief, and unpainted bakes exactly as painted flat.
pub proof fn law_the_bake_goes_by_the_heights<
    T,
    N: Fn(Surface<T>, u8, u8, u8, u8) -> (u8, u8, u8),
    H: Fn(u8, u8, u8, u8) -> u8,
    A: Fn(Surface<T>, &Vec<(u8, u8, u8, u8)>) -> Vec<u8>,
    R: Fn(Surface<T>, &Vec<(u8, u8, u8, u8)>) -> Vec<u8>,
>(
    a: Sheet,
    x: Baked,
    sa: Settings<T>,
    b: Sheet,
    y: Baked,
    sb: Settings<T>,
    depth: T,
    normal: N,
    height: H,
    ao: A,
    roughness: R,
    albedo: Option<&Pixels>,
)
    requires
        a.wf(),
        b.wf(),
        equally_high(a, b),
        same_but_for_the_image(sa, sb),
        one_normal(normal),
        one_height(height),
        one_field(ao),
        one_field(roughness),
        is_baked(x, a, sa.surface_of(depth), normal, height, ao, roughness, albedo),
        is_baked(y, b, sb.surface_of(depth), normal, height, ao, roughness, albedo),
    ensures
        x.normal.same(y.normal),
        x.height.same(y.height),
        x.shading.width == y.shading.width,
        x.shading.height == y.shading.height,
        x.shading.albedo.same(y.shading.albedo),
        x.shading.normal.same(y.shading.normal),
        x.shading.ao.same(y.shading.ao),
        x.shading.roughness.same(y.shading.roughness),
{
    let surface = sa.surface_of(depth);
    assert(surface == sb.surface_of(depth));
    law_unpainted_is_flat(a, b);
    assert forall|i: int| 0 <= i < a.n() implies #[trigger] edges_of(a, i) == edges_of(b, i) by {
        assert(all_edges(a)[i] == all_edges(b)[i]);
    }
    assert forall|i: int| 0 <= i < a.n() implies #[trigger] x.normal.nth(i) == y.normal.nth(i) by {
        assert(is_normal(normal, surface, a, i, x.normal.nth(i)));
        assert(is_normal(normal, surface, b, i, y.normal.nth(i)));
        assert(edges_of(a, i) == edges_of(b, i));
    }
    assert forall|i: int| 0 <= i < a.n() implies #[trigger] x.height.nth(i) == y.height.nth(i) by {
        assert(is_height(height, a, i, x.height.nth(i)));
        assert(is_height(height, b, i, y.height.nth(i)));
        assert(edges_of(a, i) == edges_of(b, i));
    }
    lemma_same_pixels(x.normal, y.normal);
    lemma_same_pixels(x.height, y.height);
    lemma_same_levels(ao, surface, a, b, x.shading.ao, y.shading.ao);
    lemma_same_levels(roughness, surface, a, b, x.shading.roughness, y.shading.roughness);
    if albedo.is_none() {
        lemma_same_pixels(x.shading.albedo, y.shading.albedo);
    }
}

/// "Nothing here" and "flat, deliberately" look different: a texel shows on its
/// canvas exactly when it is painted, in the grey of its height, and no two
/// heights look the same.
pub proof fn law_canvases_show_what_is_painted(a: Option<u8>, b: Option<u8>)
    ensures
        a is Some <==> canvas_pixel(a).a == 255,
        a is None <==> canvas_pixel(a).a == 0,
        a is Some ==> canvas_pixel(a).r == a.unwrap() && canvas_pixel(a).g == a.unwrap()
            && canvas_pixel(a).b == a.unwrap(),
        canvas_pixel(a) == canvas_pixel(b) <==> a == b,
{
}

/// A size asked for is taken as near as a canvas can be: itself between one and
/// 512, else the end it lies beyond.
pub proof fn law_a_canvas_is_as_near_as_can_be(side: u32)
    ensures
        1 <= canvas_side(side) <= 512,
        1 <= side <= 512 ==> canvas_side(side) == side,
        side < 1 ==> canvas_side(side) == 1,
        side > 512 ==> canvas_side(side) == 512,
{
}

/// An image that fits a canvas gives it its own size, but for a side of
/// nothing; a larger one is shrunk in proportion until its longest side is 512,
/// each side within half a texel, give or take what single precision loses, and
/// at least one.
pub proof fn law_a_canvas_takes_the_shape_of_the_image(w: u32, h: u32)
    ensures
        w <= 512 && h <= 512 && w >= 1 ==> fitted(w, longer(w, h)) == w,
        w <= 512 && h <= 512 && h >= 1 ==> fitted(h, longer(w, h)) == h,
        w == 0 ==> fitted(w, longer(w, h)) == 1,
        h == 0 ==> fitted(h, longer(w, h)) == 1,
        w > 512 && w >= h ==> fitted(w, longer(w, h)) == 512 && is_share(
            fitted(h, longer(w, h)),
            h as int,
            w as int,
            512,
        ),
        h > 512 && h >= w ==> fitted(h, longer(w, h)) == 512 && is_share(
            fitted(w, longer(w, h)),
            w as int,
            h as int,
            512,
        ),
{
    let longest = longer(w, h);
    if longest > 512 {
        crate::drift::law_longest_side_reaches_the_limit(longest as nat, 512);
        crate::drift::law_scaled_fits(w as nat, longest as nat, 512);
        crate::drift::law_scaled_fits(h as nat, longest as nat, 512);
        lemma_share(w as nat, longest as nat, 512);
        lemma_share(h as nat, longest as nat, 512);
    }
}

pub proof fn lemma_share(side: nat, longest: nat, max: nat)
    requires
        0 < max <= 0x10_0000,
        max <= longest <= u32::MAX,
        side <= longest,
    ensures
        is_share(
            if scaled(side, longest, max) < 1 {
                1
            } else {
                scaled(side, longest, max) as int
            },
            side as int,
            longest as int,
            max as int,
        ),
{
    crate::rounding::law_scaling_keeps_proportions(side, longest, max);
    let v = scaled(side, longest, max);
    assert(0 * longest == 0 && 1 * longest == longest);
}

/// Is `v` the share that `side` has of `longest` when that is scaled to `max`?
/// It is off by half a texel and ten parts in two to the 25th at most, or one
/// where the share is too small to show.
pub open spec fn is_share(v: int, side: int, longest: int, max: int) -> bool {
    let off = v * longest - side * max;
    &&& v >= 1
    &&& v == 1 || 2 * off * 0x100_0000 <= longest * 0x100_0000 + 10 * (side * max)
    &&& 2 * off * 0x100_0000 >= -(longest * 0x100_0000 + 10 * (side * max))
}

/// The bake, outright. A texel's normal is what `normal` makes of the surface
/// and of its own four heights, top, left, right and bottom, an unpainted edge
/// standing half way up; its height what `height` makes of them; both opaque.
pub proof fn law_each_texel_bakes_from_its_own_edges<
    T,
    N: Fn(Surface<T>, u8, u8, u8, u8) -> (u8, u8, u8),
    H: Fn(u8, u8, u8, u8) -> u8,
    A: Fn(Surface<T>, &Vec<(u8, u8, u8, u8)>) -> Vec<u8>,
    R: Fn(Surface<T>, &Vec<(u8, u8, u8, u8)>) -> Vec<u8>,
>(
    baked: Baked,
    s: Sheet,
    surface: Surface<T>,
    normal: N,
    height: H,
    ao: A,
    roughness: R,
    albedo: Option<&Pixels>,
    x: int,
    y: int,
)
    requires
        s.wf(),
        is_baked(baked, s, surface, normal, height, ao, roughness, albedo),
        0 <= x < s.w,
        0 <= y < s.h,
    ensures
        baked.normal.width == s.w && baked.normal.height == s.h,
        baked.height.width == s.w && baked.height.height == s.h,
        baked.shading.normal.data@ == baked.normal.data@,
        ({
            let t = crate::tools::stands(s, Side::Top, x, y) as u8;
            let l = crate::tools::stands(s, Side::Left, x, y) as u8;
            let r = crate::tools::stands(s, Side::Right, x, y) as u8;
            let b = crate::tools::stands(s, Side::Bottom, x, y) as u8;
            let i = 4 * (y * s.w + x);
            let nd = baked.normal.data@;
            let hd = baked.height.data@;
            &&& normal.ensures((surface, t, l, r, b), (nd[i], nd[i + 1], nd[i + 2]))
            &&& nd[i + 3] == 255
            &&& height.ensures((t, l, r, b), hd[i])
            &&& hd[i + 1] == hd[i] && hd[i + 2] == hd[i] && hd[i + 3] == 255
        }),
{
    let t = y * s.w + x;
    crate::grid::lemma_texel(s.w, s.h, x, y);
    assert(texel(s.w, x, y) == t);
    crate::tools::law_canvases_are_kept_in_order(s, Side::Top, x, y);
    crate::tools::law_canvases_are_kept_in_order(s, Side::Left, x, y);
    crate::tools::law_canvases_are_kept_in_order(s, Side::Right, x, y);
    crate::tools::law_canvases_are_kept_in_order(s, Side::Bottom, x, y);
    assert(is_normal(normal, surface, s, t, baked.normal.nth(t)));
    assert(is_height(height, s, t, baked.height.nth(t)));
}

/// The maps that look further than one texel are handed the four heights of
/// every texel, row by row, and what they make of them is shown in greys.
pub proof fn law_occlusion_and_roughness_see_every_edge<
    T,
    F: Fn(Surface<T>, &Vec<(u8, u8, u8, u8)>) -> Vec<u8>,
>(f: F, surface: Surface<T>, s: Sheet, out: Pixels) -> (seen: (
    Vec<(u8, u8, u8, u8)>,
    Vec<u8>,
))
    requires
        s.wf(),
        is_levels(f, surface, s, out),
        out.width == s.w,
        out.height == s.h,
    ensures
        f.ensures((surface, &seen.0), seen.1),
        seen.0@.len() == s.w * s.h,
        forall|x: int, y: int|
            #![trigger crate::tools::stands(s, Side::Top, x, y)]
            0 <= x < s.w && 0 <= y < s.h ==> {
                let e = seen.0@[y * s.w + x];
                &&& e.0 == crate::tools::stands(s, Side::Top, x, y)
                &&& e.1 == crate::tools::stands(s, Side::Left, x, y)
                &&& e.2 == crate::tools::stands(s, Side::Right, x, y)
                &&& e.3 == crate::tools::stands(s, Side::Bottom, x, y)
            },
        forall|x: int, y: int|
            0 <= x < s.w && 0 <= y < s.h ==> {
                let px = #[trigger] out.at(x, y);
                let v = seen.1@[y * s.w + x];
                px.r == v && px.g == v && px.b == v && px.a == 255
            },
{
    let (edges, levels) = choose|edges: Vec<(u8, u8, u8, u8)>, levels: Vec<u8>|
        {
            &&& edges@ == all_edges(s)
            &&& #[trigger] f.ensures((surface, &edges), levels)
            &&& forall|i: int| 0 <= i < s.n() ==> #[trigger] out.nth(i) == grey(levels@[i])
        };
    let w = s.w;
    let h = s.h;
    assert(w * h >= 0) by (nonlinear_arith)
        requires
            w >= 1,
            h >= 1,
    ;
    assert forall|x: int, y: int|
        #![trigger crate::tools::stands(s, Side::Top, x, y)]
        0 <= x < s.w && 0 <= y < s.h implies {
        let e = edges@[y * s.w + x];
        &&& e.0 == crate::tools::stands(s, Side::Top, x, y)
        &&& e.1 == crate::tools::stands(s, Side::Left, x, y)
        &&& e.2 == crate::tools::stands(s, Side::Right, x, y)
        &&& e.3 == crate::tools::stands(s, Side::Bottom, x, y)
    } by {
        crate::grid::lemma_texel(s.w, s.h, x, y);
        assert(texel(s.w, x, y) == y * s.w + x);
        crate::tools::law_canvases_are_kept_in_order(s, Side::Top, x, y);
        crate::tools::law_canvases_are_kept_in_order(s, Side::Left, x, y);
        crate::tools::law_canvases_are_kept_in_order(s, Side::Right, x, y);
        crate::tools::law_canvases_are_kept_in_order(s, Side::Bottom, x, y);
        assert(all_edges(s)[y * s.w + x] == edges_of(s, y * s.w + x));
    }
    assert forall|x: int, y: int| 0 <= x < s.w && 0 <= y < s.h implies {
        let px = #[trigger] out.at(x, y);
        let v = levels@[y * s.w + x];
        px.r == v && px.g == v && px.b == v && px.a == 255
    } by {
        crate::grid::lemma_texel(s.w, s.h, x, y);
        assert(out.nth(texel(s.w, x, y)) == grey(levels@[texel(s.w, x, y)]));
    }
    (edges, levels)
}

/// A relief is lit on the loaded picture, at the canvas's size, or without one
/// on a neutral surface.
pub proof fn law_a_relief_is_lit_on_the_picture(
    out: Pixels,
    albedo: Option<&Pixels>,
    w: u32,
    h: u32,
    x: int,
    y: int,
)
    requires
        is_albedo(out, albedo, w, h),
        0 <= x < w,
        0 <= y < h,
    ensures
        out.width == w && out.height == h,
        albedo is None ==> out.at(x, y) == (Rgba { r: 204, g: 204, b: 204, a: 255 }),
        albedo is Some && albedo.unwrap().width == w && albedo.unwrap().height == h ==> out.data@
            == albedo.unwrap().data@,
        albedo is Some && (albedo.unwrap().width != w || albedo.unwrap().height != h) ==> out.data@
            == crate::pixels::triangle_resized(
            albedo.unwrap().data@,
            albedo.unwrap().width,
            albedo.unwrap().height,
            w,
            h,
        ),
{
    crate::grid::lemma_texel(w as int, h as int, x, y);
    if albedo is None {
        assert(out.nth(texel(w as int, x, y)) == grey(NEUTRAL));
    }
}

/// A shape puts the first of a texel's four heights on the top canvas, and the
/// others on the left, the right and the bottom one.
pub proof fn law_a_shape_writes_each_side_its_own_height(cells: Seq<Option<[u8; 4]>>, k: int)
    requires
        0 <= k < cells.len(),
        cells.len() <= 0x4_0000,
        cells[k] is Some,
    ensures
        shape_writes(cells).contains((Side::Top, k as usize, Some(cells[k].unwrap()@[0]))),
        shape_writes(cells).contains((Side::Left, k as usize, Some(cells[k].unwrap()@[1]))),
        shape_writes(cells).contains((Side::Right, k as usize, Some(cells[k].unwrap()@[2]))),
        shape_writes(cells).contains((Side::Bottom, k as usize, Some(cells[k].unwrap()@[3]))),
    decreases cells.len(),
{
    let rest = cells.drop_last();
    let ws = shape_writes(rest);
    let all = shape_writes(cells);
    if k < rest.len() {
        assert(rest[k] == cells[k]);
        law_a_shape_writes_each_side_its_own_height(rest, k);
        assert forall|w: Write| ws.contains(w) implies all.contains(w) by {
            let j = choose|j: int| 0 <= j < ws.len() && ws[j] == w;
            assert(all[j] == w);
        }
    } else {
        let n = ws.len() as int;
        assert(all[n] == (Side::Top, k as usize, Some(cells[k].unwrap()@[0])));
        assert(all[n + 1] == (Side::Left, k as usize, Some(cells[k].unwrap()@[1])));
        assert(all[n + 2] == (Side::Right, k as usize, Some(cells[k].unwrap()@[2])));
        assert(all[n + 3] == (Side::Bottom, k as usize, Some(cells[k].unwrap()@[3])));
    }
}

/// Every side is listed where its heights are kept, and every tool once.
pub proof fn law_every_side_and_tool_is_listed(side: Side, tool: Tool, i: int, j: int)
    requires
        0 <= i < j < 7,
    ensures
        Side::ALL@[side.nth()] == side,
        Side::ALL@[0] == Side::Top,
        Side::ALL@[1] == Side::Left,
        Side::ALL@[2] == Side::Right,
        Side::ALL@[3] == Side::Bottom,
        exists|k: int| 0 <= k < 7 && #[trigger] Tool::ALL@[k] == tool,
        Tool::ALL@[i] != Tool::ALL@[j],
{
    let k: int = match tool {
        Tool::Pencil => 0,
        Tool::Eraser => 1,
        Tool::Bucket => 2,
        Tool::Picker => 3,
        Tool::Raise => 4,
        Tool::Lower => 5,
        Tool::Smooth => 6,
    };
    assert(Tool::ALL@[k] == tool);
}

/// The sides are saved under four different names.
pub proof fn law_sides_have_their_own_names(a: Side, b: Side)
    ensures
        a.named() == b.named() <==> a == b,
{
    reveal_strlit("top");
    reveal_strlit("left");
    reveal_strlit("right");
    reveal_strlit("bottom");
    assert("top"@.len() == 3 && "left"@.len() == 4 && "right"@.len() == 5 && "bottom"@.len() == 6);
}

/// Each of the maps that a relief is lit with comes from its own source: the
/// occlusion and the roughness each from the function handed in for it, with
/// the surface, and the colours from the picture. All are of the canvas's size.
pub proof fn law_the_lit_maps_have_their_own_sources<
    T,
    N: Fn(Surface<T>, u8, u8, u8, u8) -> (u8, u8, u8),
    H: Fn(u8, u8, u8, u8) -> u8,
    A: Fn(Surface<T>, &Vec<(u8, u8, u8, u8)>) -> Vec<u8>,
    R: Fn(Surface<T>, &Vec<(u8, u8, u8, u8)>) -> Vec<u8>,
>(
    baked: Baked,
    s: Sheet,
    surface: Surface<T>,
    normal: N,
    height: H,
    ao: A,
    roughness: R,
    albedo: Option<&Pixels>,
)
    requires
        s.wf(),
        is_baked(baked, s, surface, normal, height, ao, roughness, albedo),
    ensures
        is_levels(ao, surface, s, baked.shading.ao),
        is_levels(roughness, surface, s, baked.shading.roughness),
        is_albedo(baked.shading.albedo, albedo, s.w as u32, s.h as u32),
        baked.shading.width == s.w && baked.shading.height == s.h,
        baked.shading.ao.width == s.w && baked.shading.ao.height == s.h,
        baked.shading.roughness.width == s.w && baked.shading.roughness.height == s.h,
        baked.shading.albedo.width == s.w && baked.shading.albedo.height == s.h,
        baked.shading.normal.width == s.w && baked.shading.normal.height == s.h,
{
}

} // verus!
