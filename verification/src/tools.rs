//! What each tool does to the heights, texel by texel.
//!
//! The heights are read straight off the cells here: the canvases follow each
//! other, top, left, right and bottom, each of them row by row, and an
//! unpainted texel stands half way up.

use vstd::prelude::*;

use crate::grid::{connected, texel};
use crate::relief::{brushed, drag_at, drag_steps, dragged, level, level_with, rung, rung_of};
use crate::relief::{smoothed, stamped, under, Side, Tool};
use crate::sheet::{cell, Sheet};
use crate::strokes::law_a_brush_keeps_to_its_footprint;

verus! {

/// What a texel of a canvas holds.
pub open spec fn holds_at(s: Sheet, side: Side, x: int, y: int) -> Option<u8> {
    let canvas = match side {
        Side::Top => 0int,
        Side::Left => 1,
        Side::Right => 2,
        Side::Bottom => 3,
    };
    s.cells[canvas * (s.w * s.h) + (y * s.w + x)]
}

/// How high it stands.
pub open spec fn stands(s: Sheet, side: Side, x: int, y: int) -> int {
    match holds_at(s, side, x, y) {
        Some(v) => v as int,
        None => 128,
    }
}

/// The canvases are read where they are kept, and off the canvas there is
/// nothing.
pub proof fn law_canvases_are_kept_in_order(s: Sheet, side: Side, x: int, y: int)
    ensures
        0 <= x < s.w && 0 <= y < s.h ==> s.get(side, x, y) == holds_at(s, side, x, y),
        !(0 <= x < s.w && 0 <= y < s.h) ==> s.get(side, x, y) is None,
        s.at(side, y * s.w + x) == holds_at(s, side, x, y),
        level(holds_at(s, side, x, y)) == stands(s, side, x, y),
{
    let n = s.w * s.h;
    assert(0 * n == 0 && 1 * n == n);
    assert(texel(s.w, x, y) == y * s.w + x);
    assert(cell(n, side, y * s.w + x) == side.nth() * n + (y * s.w + x));
}

/// A side has been painted when some texel of it has.
pub proof fn law_drawn_is_some_texel_painted(s: Sheet, side: Side)
    requires
        s.wf(),
    ensures
        s.drawn(side) <==> exists|x: int, y: int|
            0 <= x < s.w && 0 <= y < s.h && (#[trigger] holds_at(s, side, x, y)) is Some,
{
    if s.drawn(side) {
        let t = choose|t: int| 0 <= t < s.n() && (#[trigger] s.at(side, t)).is_some();
        crate::grid::lemma_texel_onto(s.w, s.h, t);
        let x = t % s.w;
        let y = t / s.w;
        law_canvases_are_kept_in_order(s, side, x, y);
        assert(y * s.w + x == t);
        assert(0 <= x < s.w && 0 <= y < s.h && holds_at(s, side, x, y) is Some);
    }
    if exists|x: int, y: int|
        0 <= x < s.w && 0 <= y < s.h && (#[trigger] holds_at(s, side, x, y)) is Some {
        let (x, y) = choose|x: int, y: int|
            0 <= x < s.w && 0 <= y < s.h && (#[trigger] holds_at(s, side, x, y)) is Some;
        law_canvases_are_kept_in_order(s, side, x, y);
        crate::grid::lemma_texel(s.w, s.h, x, y);
        let t = y * s.w + x;
        assert(texel(s.w, x, y) == t);
        assert(0 <= t < s.n() && s.at(side, t).is_some());
    }
}

// ----------------------------------------------------------------- the brush

/// Does a brush set down at `at` reach `c`? It is as many texels wide as it
/// says, about the middle, and the odd one out lies before it.
pub open spec fn reaches(brush: u32, at: int, c: int) -> bool {
    brush <= i32::MAX && -(brush as int) <= 2 * (c - at) < brush
}

pub proof fn law_a_brush_is_as_wide_as_it_says(brush: u32, at: int, c: int)
    ensures
        under(brush, at, c) == reaches(brush, at, c),
{
}

/// What every tool leaves alone: the other canvases, the texels that its brush
/// does not reach, and the height that the brush holds.
pub proof fn law_a_stamp_stays_under_the_brush(
    s: Sheet,
    side: Side,
    tool: Tool,
    brush: u32,
    value: u8,
    x: int,
    y: int,
    other: Side,
    cx: int,
    cy: int,
)
    requires
        s.wf(),
        tool != Tool::Picker,
        tool != Tool::Bucket,
        0 <= cx < s.w,
        0 <= cy < s.h,
        other != side || !reaches(brush, x, cx) || !reaches(brush, y, cy),
    ensures
        holds_at(stamped(s, side, tool, brush, value, x, y).0, other, cx, cy) == holds_at(
            s,
            other,
            cx,
            cy,
        ),
        stamped(s, side, tool, brush, value, x, y).1 == value,
{
    law_a_brush_is_as_wide_as_it_says(brush, x, cx);
    law_a_brush_is_as_wide_as_it_says(brush, y, cy);
    law_a_brush_keeps_to_its_footprint(s, side, tool, brush, value, x, y, other, cx, cy);
    lemma_stamp_size(s, side, tool, brush, value, x, y);
    law_canvases_are_kept_in_order(s, other, cx, cy);
    law_canvases_are_kept_in_order(
        stamped(s, side, tool, brush, value, x, y).0,
        other,
        cx,
        cy,
    );
}

proof fn lemma_stamp_size(
    s: Sheet,
    side: Side,
    tool: Tool,
    brush: u32,
    value: u8,
    x: int,
    y: int,
)
    requires
        s.wf(),
    ensures
        stamped(s, side, tool, brush, value, x, y).0.w == s.w,
        stamped(s, side, tool, brush, value, x, y).0.h == s.h,
        stamped(s, side, tool, brush, value, x, y).0.wf(),
{
    let ws = crate::strokes::lemma_stamp_writes(s, side, tool, brush, value, x, y);
    crate::sheet::lemma_write_all_frame(s, ws);
}

/// What a stamp makes of a texel that it reaches.
proof fn lemma_reached(
    s: Sheet,
    side: Side,
    tool: Tool,
    brush: u32,
    value: u8,
    x: int,
    y: int,
    cx: int,
    cy: int,
)
    requires
        s.wf(),
        tool != Tool::Picker,
        tool != Tool::Bucket,
        0 <= cx < s.w,
        0 <= cy < s.h,
        reaches(brush, x, cx),
        reaches(brush, y, cy),
    ensures
        holds_at(stamped(s, side, tool, brush, value, x, y).0, side, cx, cy) == brushed(
            s,
            side,
            tool,
            value,
            cx,
            cy,
        ),
        s.get(side, cx, cy) == holds_at(s, side, cx, cy),
        level(s.get(side, cx, cy)) == stands(s, side, cx, cy),
{
    law_a_brush_is_as_wide_as_it_says(brush, x, cx);
    law_a_brush_is_as_wide_as_it_says(brush, y, cy);
    law_a_brush_keeps_to_its_footprint(s, side, tool, brush, value, x, y, side, cx, cy);
    lemma_stamp_size(s, side, tool, brush, value, x, y);
    law_canvases_are_kept_in_order(s, side, cx, cy);
    law_canvases_are_kept_in_order(stamped(s, side, tool, brush, value, x, y).0, side, cx, cy);
}

/// The pencil sets what it reaches to its height, and the eraser takes it off.
pub proof fn law_the_pencil_sets_and_the_eraser_clears(
    s: Sheet,
    side: Side,
    brush: u32,
    value: u8,
    x: int,
    y: int,
    cx: int,
    cy: int,
)
    requires
        s.wf(),
        0 <= cx < s.w,
        0 <= cy < s.h,
        reaches(brush, x, cx),
        reaches(brush, y, cy),
    ensures
        holds_at(stamped(s, side, Tool::Pencil, brush, value, x, y).0, side, cx, cy) == Some(value),
        holds_at(stamped(s, side, Tool::Eraser, brush, value, x, y).0, side, cx, cy) is None,
{
    lemma_reached(s, side, Tool::Pencil, brush, value, x, y, cx, cy);
    lemma_reached(s, side, Tool::Eraser, brush, value, x, y, cx, cy);
}

/// Raise and lower go by tenths. Where `k` is the tenth nearest to a texel's
/// height, it is left standing at the next tenth up or down, rounded, and at the
/// end of the range it stays there.
pub proof fn law_raise_and_lower_go_by_tenths(
    s: Sheet,
    side: Side,
    brush: u32,
    value: u8,
    x: int,
    y: int,
    cx: int,
    cy: int,
    k: int,
)
    requires
        s.wf(),
        0 <= cx < s.w,
        0 <= cy < s.h,
        reaches(brush, x, cx),
        reaches(brush, y, cy),
        -255 < 20 * stands(s, side, cx, cy) - 510 * k < 255,
    ensures
        0 <= k <= 10,
        ({
            let up = stamped(s, side, Tool::Raise, brush, value, x, y).0;
            let next = if k < 10 {
                k + 1
            } else {
                10
            };
            &&& holds_at(up, side, cx, cy) is Some
            &&& 0 <= 10 * stands(up, side, cx, cy) - 255 * next <= 5
        }),
        ({
            let down = stamped(s, side, Tool::Lower, brush, value, x, y).0;
            let next = if k > 0 {
                k - 1
            } else {
                0
            };
            &&& holds_at(down, side, cx, cy) is Some
            &&& 0 <= 10 * stands(down, side, cx, cy) - 255 * next <= 5
        }),
{
    lemma_reached(s, side, Tool::Raise, brush, value, x, y, cx, cy);
    lemma_reached(s, side, Tool::Lower, brush, value, x, y, cx, cy);
    let v = level(s.get(side, cx, cy));
    assert(rung_of(v) == k);
}

/// The ramp: `k` tenths of the range, rounded, and no further than its ends; a
/// height is nearest to the tenth that is less than half a tenth away.
pub proof fn law_the_ramp_is_tenths(k: int, v: u8)
    ensures
        0 <= k <= 10 ==> 0 <= 10 * rung(k) - 255 * k <= 5,
        k < 0 ==> rung(k) == 0,
        k > 10 ==> rung(k) == 255,
        0 <= rung_of(v) <= 10,
        rung_of(v) == k <==> -255 < 20 * v - 510 * k < 255,
        rung(5) == 128,
{
}

/// Smoothing averages five heights: the texel's own and those of its four
/// neighbours, where the border stands in for what lies past it. The result is
/// the whole number nearest to a fifth of their sum.
pub proof fn law_smoothing_averages_five(
    s: Sheet,
    side: Side,
    brush: u32,
    value: u8,
    x: int,
    y: int,
    cx: int,
    cy: int,
)
    requires
        s.wf(),
        0 <= cx < s.w,
        0 <= cy < s.h,
        reaches(brush, x, cx),
        reaches(brush, y, cy),
    ensures
        ({
            let after = stamped(s, side, Tool::Smooth, brush, value, x, y).0;
            let left = if cx > 0 {
                cx - 1
            } else {
                0
            };
            let right = if cx + 1 < s.w {
                cx + 1
            } else {
                cx
            };
            let above = if cy > 0 {
                cy - 1
            } else {
                0
            };
            let below = if cy + 1 < s.h {
                cy + 1
            } else {
                cy
            };
            let sum = stands(s, side, cx, cy) + stands(s, side, left, cy) + stands(
                s,
                side,
                right,
                cy,
            ) + stands(s, side, cx, above) + stands(s, side, cx, below);
            &&& holds_at(after, side, cx, cy) is Some
            &&& -2 <= 5 * stands(after, side, cx, cy) - sum <= 2
        }),
{
    lemma_reached(s, side, Tool::Smooth, brush, value, x, y, cx, cy);
    let left = if cx > 0 {
        cx - 1
    } else {
        0
    };
    let right = if cx + 1 < s.w {
        cx + 1
    } else {
        cx
    };
    let above = if cy > 0 {
        cy - 1
    } else {
        0
    };
    let below = if cy + 1 < s.h {
        cy + 1
    } else {
        cy
    };
    law_canvases_are_kept_in_order(s, side, left, cy);
    law_canvases_are_kept_in_order(s, side, right, cy);
    law_canvases_are_kept_in_order(s, side, cx, above);
    law_canvases_are_kept_in_order(s, side, cx, below);
}

/// Is `b` the canvas `a` upside down, or left to right?
pub open spec fn mirrored(a: Sheet, b: Sheet, side: Side, upside_down: bool) -> bool {
    &&& a.w == b.w
    &&& a.h == b.h
    &&& forall|x: int, y: int|
        0 <= x < a.w && 0 <= y < a.h ==> #[trigger] holds_at(b, side, x, y) == (if upside_down {
            holds_at(a, side, x, a.h - 1 - y)
        } else {
            holds_at(a, side, a.w - 1 - x, y)
        })
}

/// Is `b` the canvas `a` turned about its diagonal?
pub open spec fn turned_over(a: Sheet, b: Sheet, side: Side) -> bool {
    &&& a.w == b.h
    &&& a.h == b.w
    &&& forall|x: int, y: int|
        0 <= x < b.w && 0 <= y < b.h ==> #[trigger] holds_at(b, side, x, y) == holds_at(
            a,
            side,
            y,
            x,
        )
}

/// Smoothing treats its four neighbours alike: on a canvas that is mirrored or
/// turned, so is what it makes of it.
#[verifier::rlimit(60)]
pub proof fn law_smoothing_treats_its_neighbours_alike(
    a: Sheet,
    b: Sheet,
    side: Side,
    x: int,
    y: int,
)
    requires
        0 <= x < b.w,
        0 <= y < b.h,
    ensures
        mirrored(a, b, side, true) ==> smoothed(b, side, x, y) == smoothed(
            a,
            side,
            x,
            a.h - 1 - y,
        ),
        mirrored(a, b, side, false) ==> smoothed(b, side, x, y) == smoothed(
            a,
            side,
            a.w - 1 - x,
            y,
        ),
        turned_over(a, b, side) ==> smoothed(b, side, x, y) == smoothed(a, side, y, x),
{
    let left = if x > 0 {
        x - 1
    } else {
        0
    };
    let right = if x + 1 < b.w {
        x + 1
    } else {
        x
    };
    let above = if y > 0 {
        y - 1
    } else {
        0
    };
    let below = if y + 1 < b.h {
        y + 1
    } else {
        y
    };
    law_canvases_are_kept_in_order(b, side, x, y);
    law_canvases_are_kept_in_order(b, side, left, y);
    law_canvases_are_kept_in_order(b, side, right, y);
    law_canvases_are_kept_in_order(b, side, x, above);
    law_canvases_are_kept_in_order(b, side, x, below);
    if mirrored(a, b, side, true) {
        let h = a.h;
        law_canvases_are_kept_in_order(a, side, x, h - 1 - y);
        law_canvases_are_kept_in_order(a, side, left, h - 1 - y);
        law_canvases_are_kept_in_order(a, side, right, h - 1 - y);
        law_canvases_are_kept_in_order(a, side, x, h - 1 - above);
        law_canvases_are_kept_in_order(a, side, x, h - 1 - below);
    }
    if mirrored(a, b, side, false) {
        let w = a.w;
        law_canvases_are_kept_in_order(a, side, w - 1 - x, y);
        law_canvases_are_kept_in_order(a, side, w - 1 - left, y);
        law_canvases_are_kept_in_order(a, side, w - 1 - right, y);
        law_canvases_are_kept_in_order(a, side, w - 1 - x, above);
        law_canvases_are_kept_in_order(a, side, w - 1 - x, below);
    }
    if turned_over(a, b, side) {
        law_canvases_are_kept_in_order(a, side, y, x);
        law_canvases_are_kept_in_order(a, side, y, left);
        law_canvases_are_kept_in_order(a, side, y, right);
        law_canvases_are_kept_in_order(a, side, above, x);
        law_canvases_are_kept_in_order(a, side, below, x);
    }
}

// ------------------------------------------------------------------ the fill

/// A fill sets the run of texels that hold what its start holds, texel beside
/// texel, and nothing else: the start; from any texel that it set, those beside
/// it that held the same; no texel outside a set that is closed under this; no
/// texel that held something else; and no other canvas.
pub proof fn law_a_fill_sets_the_run_of_its_start(
    s: Sheet,
    side: Side,
    brush: u32,
    value: u8,
    x: int,
    y: int,
    closed: spec_fn((int, int)) -> bool,
    a: (int, int),
    b: (int, int),
    other: Side,
)
    requires
        s.wf(),
        0 <= x < s.w,
        0 <= y < s.h,
        0 <= a.0 < s.w,
        0 <= a.1 < s.h,
        0 <= b.0 < s.w,
        0 <= b.1 < s.h,
        holds_at(s, side, x, y) != Some(value),
        closed((x, y)),
        forall|c: (int, int), d: (int, int)|
            #![trigger closed(c), closed(d)]
            closed(c) && (c.0 - d.0) * (c.0 - d.0) + (c.1 - d.1) * (c.1 - d.1) == 1 && 0 <= d.0
                < s.w && 0 <= d.1 < s.h && holds_at(s, side, d.0, d.1) == holds_at(s, side, x, y)
                ==> closed(d),
    ensures
        ({
            let after = stamped(s, side, Tool::Bucket, brush, value, x, y).0;
            let start = holds_at(s, side, x, y);
            let set = |c: (int, int)| holds_at(after, side, c.0, c.1) != holds_at(
                s,
                side,
                c.0,
                c.1,
            );
            &&& set((x, y))
            &&& set(a) ==> holds_at(s, side, a.0, a.1) == start && closed(a)
            &&& set(a) ==> holds_at(after, side, a.0, a.1) == Some(value)
            &&& set(a) && (a.0 - b.0) * (a.0 - b.0) + (a.1 - b.1) * (a.1 - b.1) == 1 && holds_at(
                s,
                side,
                b.0,
                b.1,
            ) == start ==> set(b)
            &&& other != side ==> holds_at(after, other, a.0, a.1) == holds_at(s, other, a.0, a.1)
        }),
        stamped(s, side, Tool::Bucket, brush, value, x, y).1 == value,
{
    let after = stamped(s, side, Tool::Bucket, brush, value, x, y).0;
    let open = level_with(s, side, s.get(side, x, y));
    lemma_stamp_size(s, side, Tool::Bucket, brush, value, x, y);
    law_canvases_are_kept_in_order(s, side, x, y);
    lemma_filled(s, side, brush, value, x, y, side, x, y);
    lemma_filled(s, side, brush, value, x, y, side, a.0, a.1);
    lemma_filled(s, side, brush, value, x, y, side, b.0, b.1);
    lemma_filled(s, side, brush, value, x, y, other, a.0, a.1);
    assert(open((x, y)));
    crate::grid::lemma_connected_self(open, (x, y));
    assert(a == (a.0, a.1) && b == (b.0, b.1));
    if connected(open, (x, y), a) {
        crate::grid::law_connected_goes_both_ways(open, (x, y), a);
        assert(open(a));
        law_canvases_are_kept_in_order(s, side, a.0, a.1);
        assert forall|c: (int, int), d: (int, int)|
            #![trigger closed(c), crate::grid::touching(c, d)]
            closed(c) && crate::grid::touching(c, d) && open(d) implies closed(d) by {
            crate::grid::law_touching_is_one_apart(c, d);
            law_canvases_are_kept_in_order(s, side, d.0, d.1);
        }
        crate::grid::lemma_connected_within(open, closed, (x, y), a);
        crate::grid::law_touching_is_one_apart(a, b);
        law_canvases_are_kept_in_order(s, side, b.0, b.1);
        if crate::grid::touching(a, b) && holds_at(s, side, b.0, b.1) == holds_at(s, side, x, y) {
            assert(open(b));
            crate::grid::lemma_connected_step(open, (x, y), a, b);
        }
    }
}

proof fn lemma_filled(
    s: Sheet,
    side: Side,
    brush: u32,
    value: u8,
    x: int,
    y: int,
    other: Side,
    cx: int,
    cy: int,
)
    requires
        s.wf(),
        0 <= x < s.w,
        0 <= y < s.h,
        0 <= cx < s.w,
        0 <= cy < s.h,
    ensures
        holds_at(stamped(s, side, Tool::Bucket, brush, value, x, y).0, other, cx, cy) == (
        if other == side && connected(
            level_with(s, side, s.get(side, x, y)),
            (x, y),
            (cx, cy),
        ) {
            Some(value)
        } else {
            holds_at(s, other, cx, cy)
        }),
{
    lemma_stamp_size(s, side, Tool::Bucket, brush, value, x, y);
    crate::strokes::law_fill_stops_at_a_different_height(
        s,
        side,
        brush,
        value,
        x,
        y,
        other,
        cx,
        cy,
    );
    law_canvases_are_kept_in_order(s, other, cx, cy);
    law_canvases_are_kept_in_order(
        stamped(s, side, Tool::Bucket, brush, value, x, y).0,
        other,
        cx,
        cy,
    );
}

/// A fill that starts off the canvas, or on a texel that has its height
/// already, changes nothing.
pub proof fn law_an_idle_fill_changes_nothing(
    s: Sheet,
    side: Side,
    brush: u32,
    value: u8,
    x: int,
    y: int,
)
    requires
        s.wf(),
        !(0 <= x < s.w && 0 <= y < s.h) || holds_at(s, side, x, y) == Some(value),
    ensures
        stamped(s, side, Tool::Bucket, brush, value, x, y) == (s, value),
{
    law_canvases_are_kept_in_order(s, side, x, y);
    let plan = crate::relief::fill_plan(s, side, value, x, y);
    lemma_no_writes(side, plan, s.n());
    assert(s.write_all(crate::relief::writes(side, plan, s.n())) == s);
}

proof fn lemma_no_writes(side: Side, plan: spec_fn(int) -> Option<Option<u8>>, n: int)
    requires
        forall|t: int| (#[trigger] plan(t)) is None,
    ensures
        crate::relief::writes(side, plan, n).len() == 0,
    decreases n,
{
    if n > 0 {
        assert(plan(n - 1) is None);
        lemma_no_writes(side, plan, n - 1);
    }
}

/// The picker reads the texel it is set down on into the brush, if that is
/// painted, and touches nothing.
pub proof fn law_the_picker_reads_a_painted_texel(
    s: Sheet,
    side: Side,
    brush: u32,
    value: u8,
    x: int,
    y: int,
)
    ensures
        stamped(s, side, Tool::Picker, brush, value, x, y).0 == s,
        0 <= x < s.w && 0 <= y < s.h && holds_at(s, side, x, y) is Some ==> stamped(
            s,
            side,
            Tool::Picker,
            brush,
            value,
            x,
            y,
        ).1 == stands(s, side, x, y),
        0 <= x < s.w && 0 <= y < s.h && holds_at(s, side, x, y) is None ==> stamped(
            s,
            side,
            Tool::Picker,
            brush,
            value,
            x,
            y,
        ).1 == value,
        !(0 <= x < s.w && 0 <= y < s.h) ==> stamped(
            s,
            side,
            Tool::Picker,
            brush,
            value,
            x,
            y,
        ).1 == value,
{
    law_canvases_are_kept_in_order(s, side, x, y);
}

// ------------------------------------------------------------------ the drag

/// A drag takes as many steps as it is texels long on its longer axis, and
/// never fewer than one.
pub proof fn law_a_drag_takes_a_step_a_texel(from: (i32, i32), to: (i32, i32))
    ensures
        drag_steps(from, to) >= 1,
        -drag_steps(from, to) <= to.0 - from.0 <= drag_steps(from, to),
        -drag_steps(from, to) <= to.1 - from.1 <= drag_steps(from, to),
        drag_steps(from, to) == 1 || drag_steps(from, to) == to.0 - from.0 || drag_steps(from, to)
            == from.0 - to.0 || drag_steps(from, to) == to.1 - from.1 || drag_steps(from, to)
            == from.1 - to.1,
{
}

/// Along an axis that a drag moves a whole texel a step, its stamps are one
/// texel apart, one a step; along an axis that stands still, they do.
pub proof fn law_a_straight_drag_stamps_texel_by_texel(
    from: (i32, i32),
    to: (i32, i32),
    k: int,
    x: bool,
)
    requires
        0 <= k <= drag_steps(from, to),
        ({
            let (a, b) = if x {
                (from.0, to.0)
            } else {
                (from.1, to.1)
            };
            &&& -0x40_0000 <= a <= 0x40_0000
            &&& -0x40_0000 <= b <= 0x40_0000
            &&& drag_steps(from, to) <= 0x40_0000
            &&& a == b || b - a == drag_steps(from, to) || a - b == drag_steps(from, to)
        }),
    ensures
        ({
            let (a, b) = if x {
                (from.0, to.0)
            } else {
                (from.1, to.1)
            };
            drag_at(a, b, k, drag_steps(from, to)) == (if a == b {
                a as int
            } else if a < b {
                a + k
            } else {
                a - k
            })
        }),
{
    let (a, b) = if x {
        (from.0, to.0)
    } else {
        (from.1, to.1)
    };
    let steps = drag_steps(from, to);
    if a == b {
        crate::paced::law_standing_still_is_exact(a as int, k as nat, steps as nat);
    } else {
        crate::paced::law_whole_steps_are_exact(a as int, b as int, k as nat, steps as nat);
    }
}

/// A drag is its stamps, one after the other, each with what the one before it
/// left: none, and then one more.
pub proof fn law_a_drag_is_its_stamps(
    s: Sheet,
    side: Side,
    tool: Tool,
    brush: u32,
    value: u8,
    from: (i32, i32),
    to: (i32, i32),
    steps: int,
    k: int,
)
    requires
        k >= 0,
    ensures
        dragged(s, side, tool, brush, value, from, to, steps, 0) == (s, value),
        dragged(s, side, tool, brush, value, from, to, steps, k + 1) == stamped(
            dragged(s, side, tool, brush, value, from, to, steps, k).0,
            side,
            tool,
            brush,
            dragged(s, side, tool, brush, value, from, to, steps, k).1,
            drag_at(from.0, to.0, k, steps),
            drag_at(from.1, to.1, k, steps),
        ),
{
}

} // verus!
