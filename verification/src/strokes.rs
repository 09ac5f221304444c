//! What holds of whole strokes: where a tool reaches, that a drag leaves no
//! gaps, and that whatever was painted comes back off in one step.

use vstd::prelude::*;

use crate::binary32::SIG_HI;
use crate::grid::{connected, on_canvas, texel};
use crate::paced::gapless;
use crate::relief::{brush_plan, brushed, drag_at, drag_steps, dragged, fill_plan, level_with};
use crate::relief::{lemma_plan_done, lemma_writes, shape_writes, stamped, under, writes};
use crate::relief::{Side, Tool};
use crate::sheet::{are_writes, holds, law_a_stroke_undoes_and_redoes_as_one, lemma_cells_apart};
use crate::sheet::{lemma_cell, lemma_write_all_frame, lemma_write_push, Sheet, Write};
use crate::timeline::Act;

verus! {

proof fn lemma_size(s: Sheet)
    requires
        s.wf(),
    ensures
        0 <= s.n() <= 0x4_0000,
{
    let w = s.w;
    let h = s.h;
    assert(0 <= w * h <= 0x4_0000) by (nonlinear_arith)
        requires
            0 <= w <= 512,
            0 <= h <= 512,
    ;
}

// --------------------------------------------------------------- one stamp

/// A brush reaches the texels under it and no others, on the side it is on and
/// no other.
pub proof fn law_a_brush_keeps_to_its_footprint(
    s: Sheet,
    side: Side,
    tool: Tool,
    brush: u32,
    value: u8,
    x: int,
    y: int,
    other: Side,
    cx: int,
    cy: int,
)
    requires
        s.wf(),
        tool != Tool::Picker,
        tool != Tool::Bucket,
        on_canvas(s.w, s.h, cx, cy),
    ensures
        stamped(s, side, tool, brush, value, x, y).0.get(other, cx, cy) == (if other == side
            && under(brush, x, cx) && under(brush, y, cy) {
            brushed(s, side, tool, value, cx, cy)
        } else {
            s.get(other, cx, cy)
        }),
        stamped(s, side, tool, brush, value, x, y).1 == value,
{
    let plan = brush_plan(s, side, tool, brush, value, x, y);
    let t = texel(s.w, cx, cy);
    lemma_size(s);
    crate::grid::lemma_texel(s.w, s.h, cx, cy);
    lemma_plan_done(s, side, plan, s.n());
    lemma_writes(side, plan, s.n(), s.n());
    lemma_write_all_frame(s, writes(side, plan, s.n()));
    let after = s.write_all(writes(side, plan, s.n()));
    if other == side {
        assert(after.at(side, t) == (if plan(t).is_some() {
            plan(t).unwrap()
        } else {
            s.at(side, t)
        }));
    } else {
        assert(after.at(other, t) == s.at(other, t));
    }
}

/// A fill sets the connected run of texels as high as the one it starts on,
/// and stops at a different height.
pub proof fn law_fill_stops_at_a_different_height(
    s: Sheet,
    side: Side,
    brush: u32,
    value: u8,
    x: int,
    y: int,
    other: Side,
    cx: int,
    cy: int,
)
    requires
        s.wf(),
        on_canvas(s.w, s.h, cx, cy),
    ensures
        stamped(s, side, Tool::Bucket, brush, value, x, y).0.get(other, cx, cy) == (if other == side
            && on_canvas(s.w, s.h, x, y) && connected(
            level_with(s, side, s.get(side, x, y)),
            (x, y),
            (cx, cy),
        ) {
            Some(value)
        } else {
            s.get(other, cx, cy)
        }),
{
    let plan = fill_plan(s, side, value, x, y);
    let t = texel(s.w, cx, cy);
    let open = level_with(s, side, s.get(side, x, y));
    lemma_size(s);
    crate::grid::lemma_texel(s.w, s.h, cx, cy);
    lemma_plan_done(s, side, plan, s.n());
    lemma_writes(side, plan, s.n(), s.n());
    lemma_write_all_frame(s, writes(side, plan, s.n()));
    let after = s.write_all(writes(side, plan, s.n()));
    if other == side {
        assert(after.at(side, t) == (if plan(t).is_some() {
            plan(t).unwrap()
        } else {
            s.at(side, t)
        }));
        if on_canvas(s.w, s.h, x, y) && connected(open, (x, y), (cx, cy)) {
            // What can be reached is as high as the start.
            let walk = choose|walk: Seq<(int, int)>| #[trigger]
                crate::grid::is_walk(open, walk) && walk[0] == (x, y) && walk.last() == (cx, cy);
            assert(open(walk[walk.len() - 1]));
            assert(s.get(side, cx, cy) == s.get(side, x, y));
        }
    } else {
        assert(after.at(other, t) == s.at(other, t));
    }
}

/// The picker reads a texel's height back into the brush and leaves every
/// canvas alone.
pub proof fn law_the_picker_only_reads(s: Sheet, side: Side, brush: u32, value: u8, x: int, y: int)
    ensures
        stamped(s, side, Tool::Picker, brush, value, x, y).0 == s,
        stamped(s, side, Tool::Picker, brush, value, x, y).1 == (match s.get(side, x, y) {
            Some(v) => v,
            None => value,
        }),
{
}

// ------------------------------------------------------------------ a drag

proof fn lemma_write_all_add(s: Sheet, a: Seq<Write>, b: Seq<Write>)
    ensures
        s.write_all(a).write_all(b) == s.write_all(a + b),
    decreases b.len(),
{
    if b.len() == 0 {
        assert(a + b =~= a);
    } else {
        lemma_write_all_add(s, a, b.drop_last());
        assert((a + b).drop_last() =~= a + b.drop_last());
        assert((a + b).last() == b.last());
    }
}

/// The writes of one stamp.
pub proof fn lemma_stamp_writes(
    s: Sheet,
    side: Side,
    tool: Tool,
    brush: u32,
    value: u8,
    x: int,
    y: int,
) -> (ws: Seq<Write>)
    requires
        s.wf(),
    ensures
        are_writes(s.n(), ws),
        stamped(s, side, tool, brush, value, x, y).0 == s.write_all(ws),
{
    lemma_size(s);
    match tool {
        Tool::Picker => seq![],
        Tool::Bucket => {
            let plan = fill_plan(s, side, value, x, y);
            lemma_writes(side, plan, s.n(), s.n());
            writes(side, plan, s.n())
        },
        _ => {
            let plan = brush_plan(s, side, tool, brush, value, x, y);
            lemma_writes(side, plan, s.n(), s.n());
            writes(side, plan, s.n())
        },
    }
}

/// The writes of the first `k` stamps of a drag.
proof fn lemma_drag_writes(
    s: Sheet,
    side: Side,
    tool: Tool,
    brush: u32,
    value: u8,
    from: (i32, i32),
    to: (i32, i32),
    steps: int,
    k: int,
) -> (ws: Seq<Write>)
    requires
        s.wf(),
    ensures
        are_writes(s.n(), ws),
        dragged(s, side, tool, brush, value, from, to, steps, k).0 == s.write_all(ws),
    decreases k,
{
    if k <= 0 {
        seq![]
    } else {
        let rest = lemma_drag_writes(s, side, tool, brush, value, from, to, steps, k - 1);
        let before = dragged(s, side, tool, brush, value, from, to, steps, k - 1);
        lemma_write_all_frame(s, rest);
        let last = lemma_stamp_writes(
            before.0,
            side,
            tool,
            brush,
            before.1,
            drag_at(from.0, to.0, k - 1, steps),
            drag_at(from.1, to.1, k - 1, steps),
        );
        lemma_write_all_add(s, rest, last);
        let ws = rest + last;
        assert forall|j: int| 0 <= j < ws.len() implies (#[trigger] ws[j]).1 < s.n() by {
            if j < rest.len() {
                assert(ws[j] == rest[j]);
            } else {
                assert(ws[j] == last[j - rest.len()]);
            }
        }
        ws
    }
}

/// The canvases and the brush's height after it has been led through the first
/// `k` of some points.
pub open spec fn led_through(
    s: Sheet,
    side: Side,
    tool: Tool,
    brush: u32,
    value: u8,
    points: Seq<(i32, i32)>,
    k: int,
) -> (Sheet, u8)
    decreases k,
{
    if k <= 0 {
        (s, value)
    } else {
        let before = led_through(s, side, tool, brush, value, points, k - 1);
        let to = points[k - 1];
        let from = match before.0.last_texel {
            Some(p) => p,
            None => to,
        };
        let steps = drag_steps(from, to);
        let end = dragged(before.0, side, tool, brush, before.1, from, to, steps, steps + 1);
        (Sheet { last_texel: Some(to), ..end.0 }, end.1)
    }
}

/// Writes do not look at where the brush last was.
proof fn lemma_write_all_anywhere(s: Sheet, ws: Seq<Write>, at: Option<(i32, i32)>)
    ensures
        (Sheet { last_texel: at, ..s }).write_all(ws) == (Sheet {
            last_texel: at,
            ..s.write_all(ws)
        }),
    decreases ws.len(),
{
    if ws.len() > 0 {
        lemma_write_all_anywhere(s, ws.drop_last(), at);
    }
}

/// The writes of a brush led through points.
proof fn lemma_led_writes(
    s: Sheet,
    side: Side,
    tool: Tool,
    brush: u32,
    value: u8,
    points: Seq<(i32, i32)>,
    k: int,
) -> (ws: Seq<Write>)
    requires
        s.wf(),
    ensures
        are_writes(s.n(), ws),
        led_through(s, side, tool, brush, value, points, k).0 == (Sheet {
            last_texel: led_through(s, side, tool, brush, value, points, k).0.last_texel,
            ..s.write_all(ws)
        }),
    decreases k,
{
    if k <= 0 {
        seq![]
    } else {
        let rest = lemma_led_writes(s, side, tool, brush, value, points, k - 1);
        let before = led_through(s, side, tool, brush, value, points, k - 1);
        lemma_write_all_frame(s, rest);
        assert(before.0.wf());
        let to = points[k - 1];
        let from = match before.0.last_texel {
            Some(p) => p,
            None => to,
        };
        let steps = drag_steps(from, to);
        let last = lemma_drag_writes(
            before.0,
            side,
            tool,
            brush,
            before.1,
            from,
            to,
            steps,
            steps + 1,
        );
        lemma_write_all_add(s, rest, last);
        lemma_write_all_anywhere(s.write_all(rest), last, before.0.last_texel);
        let ws = rest + last;
        assert forall|j: int| 0 <= j < ws.len() implies (#[trigger] ws[j]).1 < s.n() by {
            if j < rest.len() {
                assert(ws[j] == rest[j]);
            } else {
                assert(ws[j] == last[j - rest.len()]);
            }
        }
        ws
    }
}

/// A stroke of any tool, led through any points, undoes and redoes as one.
pub proof fn law_a_drawn_stroke_undoes_and_redoes_as_one(
    s: Sheet,
    side: Side,
    tool: Tool,
    brush: u32,
    value: u8,
    points: Seq<(i32, i32)>,
)
    requires
        s.wf(),
    ensures
        ({
            let painted = led_through(
                s.begun(),
                side,
                tool,
                brush,
                value,
                points,
                points.len() as int,
            ).0;
            let ended = painted.ended();
            &&& ended.cells == painted.cells
            &&& painted.cells == s.cells ==> ended.undo == s.undo && ended.redo == s.redo
            &&& painted.cells != s.cells ==> {
                &&& ended.undo.len() > 0
                &&& ended.redo.len() == 0
                &&& ended.undone().cells == s.cells
                &&& ended.undone().redone().cells == painted.cells
            }
        }),
{
    let k = points.len() as int;
    assert(s.begun().wf());
    let ws = lemma_led_writes(s.begun(), side, tool, brush, value, points, k);
    let painted = led_through(s.begun(), side, tool, brush, value, points, k).0;
    law_a_stroke_undoes_and_redoes_as_one(s, ws);
    assert(painted.ended() == s.begun().write_all(ws).ended());
}

/// Whatever a tool was led through is one stroke of the history: some writes
/// between begin and end.
pub proof fn law_a_drawn_stroke_is_a_stroke(
    s: Sheet,
    side: Side,
    tool: Tool,
    brush: u32,
    value: u8,
    points: Seq<(i32, i32)>,
)
    requires
        s.wf(),
    ensures
        exists|ws: Seq<Write>|
            are_writes(s.n(), ws) && led_through(
                s.begun(),
                side,
                tool,
                brush,
                value,
                points,
                points.len() as int,
            ).0.ended() == #[trigger] s.act(Act::Stroke(ws)),
{
    let k = points.len() as int;
    assert(s.begun().wf());
    let ws = lemma_led_writes(s.begun(), side, tool, brush, value, points, k);
    let painted = led_through(s.begun(), side, tool, brush, value, points, k).0;
    assert(painted.ended() == s.begun().write_all(ws).ended());
    assert(painted.ended() == s.act(Act::Stroke(ws)));
}

/// A pencil leaves its height wherever it has been: no later stamp of the same
/// drag takes it away.
proof fn lemma_pencil_stays(
    s: Sheet,
    side: Side,
    brush: u32,
    value: u8,
    from: (i32, i32),
    to: (i32, i32),
    steps: int,
    j: int,
    k: int,
    cx: int,
    cy: int,
)
    requires
        s.wf(),
        0 <= j < k,
        on_canvas(s.w, s.h, cx, cy),
        under(brush, drag_at(from.0, to.0, j, steps), cx),
        under(brush, drag_at(from.1, to.1, j, steps), cy),
    ensures
        dragged(s, side, Tool::Pencil, brush, value, from, to, steps, k).0.get(side, cx, cy)
            == Some(value),
        dragged(s, side, Tool::Pencil, brush, value, from, to, steps, k).1 == value,
    decreases k,
{
    let before = dragged(s, side, Tool::Pencil, brush, value, from, to, steps, k - 1);
    let ws = lemma_drag_writes(
        s,
        side,
        Tool::Pencil,
        brush,
        value,
        from,
        to,
        steps,
        k - 1,
    );
    lemma_write_all_frame(s, ws);
    lemma_pencil_value(s, side, brush, value, from, to, steps, k - 1);
    if j < k - 1 {
        lemma_pencil_stays(s, side, brush, value, from, to, steps, j, k - 1, cx, cy);
    }
    law_a_brush_keeps_to_its_footprint(
        before.0,
        side,
        Tool::Pencil,
        brush,
        before.1,
        drag_at(from.0, to.0, k - 1, steps),
        drag_at(from.1, to.1, k - 1, steps),
        side,
        cx,
        cy,
    );
}

proof fn lemma_pencil_value(
    s: Sheet,
    side: Side,
    brush: u32,
    value: u8,
    from: (i32, i32),
    to: (i32, i32),
    steps: int,
    k: int,
)
    ensures
        dragged(s, side, Tool::Pencil, brush, value, from, to, steps, k).1 == value,
    decreases k,
{
    if k > 0 {
        lemma_pencil_value(s, side, brush, value, from, to, steps, k - 1);
    }
}

/// A dragged pencil leaves no gaps: it paints under every stamp, the first is
/// where the drag starts and the last where it ends, and from one to the next
/// is at most one texel either way. That is so on and about a canvas, as far
/// out as rounding lets a drag be steady, and further still where each axis
/// stands still or moves a whole texel a step.
pub proof fn law_a_dragged_stroke_leaves_no_gaps(
    s: Sheet,
    side: Side,
    brush: u32,
    value: u8,
    from: (i32, i32),
    to: (i32, i32),
    j: int,
)
    requires
        s.wf(),
        1 <= brush <= i32::MAX,
        drag_steps(from, to) <= SIG_HI,
        gapless(from.0 as int, to.0 as int, drag_steps(from, to) as nat),
        gapless(from.1 as int, to.1 as int, drag_steps(from, to) as nat),
        0 <= j <= drag_steps(from, to),
    ensures
        ({
            let steps = drag_steps(from, to);
            let x = drag_at(from.0, to.0, j, steps);
            let y = drag_at(from.1, to.1, j, steps);
            &&& j == 0 ==> x == from.0 && y == from.1
            &&& j == steps ==> x == to.0 && y == to.1
            &&& j < steps ==> {
                &&& -1 <= drag_at(from.0, to.0, j + 1, steps) - x <= 1
                &&& -1 <= drag_at(from.1, to.1, j + 1, steps) - y <= 1
            }
            &&& on_canvas(s.w, s.h, x, y) ==> dragged(
                s,
                side,
                Tool::Pencil,
                brush,
                value,
                from,
                to,
                steps,
                steps + 1,
            ).0.get(side, x, y) == Some(value)
        }),
{
    let steps = drag_steps(from, to);
    let x = drag_at(from.0, to.0, j, steps);
    let y = drag_at(from.1, to.1, j, steps);
    let k = if j < steps {
        j
    } else {
        j - 1
    };
    crate::paced::law_gapless_paths(from.0 as int, to.0 as int, k as nat, steps as nat);
    crate::paced::law_gapless_paths(from.1 as int, to.1 as int, k as nat, steps as nat);
    if on_canvas(s.w, s.h, x, y) {
        assert(under(brush, x, x) && under(brush, y, y));
        lemma_pencil_stays(s, side, brush, value, from, to, steps, j, steps + 1, x, y);
    }
}

// ----------------------------------------------------------------- a shape

/// What a shape comes to: every texel that it gives heights has them on all
/// four sides, every other texel is as it was.
proof fn lemma_shape_done(s: Sheet, cells: Seq<Option<[u8; 4]>>)
    requires
        s.wf(),
        cells.len() <= s.n(),
    ensures
        are_writes(s.n(), shape_writes(cells)),
        forall|side: Side, i: int|
            0 <= i < s.n() ==> #[trigger] s.write_all(shape_writes(cells)).at(side, i) == (if i
                < cells.len() && cells[i].is_some() {
                Some(cells[i].unwrap()@[side.nth()])
            } else {
                s.at(side, i)
            }),
    decreases cells.len(),
{
    lemma_size(s);
    if cells.len() > 0 {
        let rest = cells.drop_last();
        lemma_shape_done(s, rest);
        let ws = shape_writes(rest);
        let all = shape_writes(cells);
        let before = s.write_all(ws);
        lemma_write_all_frame(s, ws);
        let after = s.write_all(all);
        let n = s.n();
        let k = (cells.len() - 1) as usize;
        match cells.last() {
            None => {
                assert forall|side: Side, i: int| 0 <= i < n implies #[trigger] after.at(side, i)
                    == (if i < cells.len() && cells[i].is_some() {
                    Some(cells[i].unwrap()@[side.nth()])
                } else {
                    s.at(side, i)
                }) by {
                    assert(before.at(side, i) == (if i < rest.len() && rest[i].is_some() {
                        Some(rest[i].unwrap()@[side.nth()])
                    } else {
                        s.at(side, i)
                    }));
                }
            },
            Some(edges) => {
                let w0 = (Side::Top, k, Some(edges@[0]));
                let w1 = (Side::Left, k, Some(edges@[1]));
                let w2 = (Side::Right, k, Some(edges@[2]));
                let w3 = (Side::Bottom, k, Some(edges@[3]));
                lemma_write_push(s, ws, w0);
                lemma_write_push(s, ws.push(w0), w1);
                lemma_write_push(s, ws.push(w0).push(w1), w2);
                lemma_write_push(s, ws.push(w0).push(w1).push(w2), w3);
                let b1 = before.write(w0);
                let b2 = b1.write(w1);
                let b3 = b2.write(w2);
                assert(after == b3.write(w3));
                lemma_cell(n, Side::Top, k as int);
                lemma_cell(n, Side::Left, k as int);
                lemma_cell(n, Side::Right, k as int);
                lemma_cell(n, Side::Bottom, k as int);
                assert forall|side: Side, i: int| 0 <= i < n implies #[trigger] after.at(side, i)
                    == (if i < cells.len() && cells[i].is_some() {
                    Some(cells[i].unwrap()@[side.nth()])
                } else {
                    s.at(side, i)
                }) by {
                    assert(before.at(side, i) == (if i < rest.len() && rest[i].is_some() {
                        Some(rest[i].unwrap()@[side.nth()])
                    } else {
                        s.at(side, i)
                    }));
                    lemma_cells_apart(n, side, i, Side::Top, k as int);
                    lemma_cells_apart(n, side, i, Side::Left, k as int);
                    lemma_cells_apart(n, side, i, Side::Right, k as int);
                    lemma_cells_apart(n, side, i, Side::Bottom, k as int);
                    if i == k {
                        assert(cells[i] == Some(edges));
                    } else if i < rest.len() {
                        assert(cells[i] == rest[i]);
                    }
                }
            },
        }
    }
}

/// A shape writes all four canvases at once, touches nothing but the texels it
/// was given heights for, and comes back off in one step.
pub proof fn law_a_shape_applies_and_undoes_as_one_step(s: Sheet, cells: Seq<Option<[u8; 4]>>)
    requires
        s.wf(),
        cells.len() == s.n(),
    ensures
        ({
            let ended = s.begun().write_all(shape_writes(cells)).ended();
            &&& forall|side: Side, i: int|
                0 <= i < s.n() ==> #[trigger] ended.at(side, i) == (if cells[i].is_some() {
                    Some(cells[i].unwrap()@[side.nth()])
                } else {
                    s.at(side, i)
                })
            &&& ended.cells != s.cells ==> {
                &&& ended.undone().cells == s.cells
                &&& ended.undone().redone().cells == ended.cells
                &&& holds(s.n(), ended.cells, ended.undo.last())
            }
            &&& ended.cells == s.cells ==> ended.undo == s.undo
        }),
{
    assert(s.begun().wf());
    lemma_shape_done(s.begun(), cells);
    law_a_stroke_undoes_and_redoes_as_one(s, shape_writes(cells));
    let painted = s.begun().write_all(shape_writes(cells));
    let ended = painted.ended();
    assert forall|side: Side, i: int| 0 <= i < s.n() implies #[trigger] ended.at(side, i) == (
    if cells[i].is_some() {
        Some(cells[i].unwrap()@[side.nth()])
    } else {
        s.at(side, i)
    }) by {
        assert(painted.at(side, i) == (if i < cells.len() && cells[i].is_some() {
            Some(cells[i].unwrap()@[side.nth()])
        } else {
            s.begun().at(side, i)
        }));
    }
}

} // verus!
