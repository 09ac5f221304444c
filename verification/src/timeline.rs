//! The history as the user sees it: the canvases before, the canvases now, and
//! the canvases that redo would bring back.

use vstd::prelude::*;

use crate::sheet::{are_writes, awaits, cell, holds, is_edit, lemma_stroke_wf, lemma_write_all_frame};
use crate::sheet::{law_a_stroke_undoes_and_redoes_as_one, law_history_stays_in_step};
use crate::sheet::{law_redo_takes_back_undo, law_undo_takes_back_redo, lemma_cell};
use crate::sheet::{put_again, put_back, redo_fits, undo_fits};
use crate::sheet::{Change, Sheet, Write, UNDO_DEPTH};

verus! {

/// What is on the four canvases.
pub type Cells = Seq<Option<u8>>;

/// Something done to the canvases.
pub enum Act {
    /// A whole stroke, from begin to end, as what it writes.
    Stroke(Seq<Write>),
    Undo,
    Redo,
}

/// What writes leave on the canvases.
pub open spec fn painted(n: int, cells: Cells, writes: Seq<Write>) -> Cells
    decreases writes.len(),
{
    if writes.len() == 0 {
        cells
    } else {
        let (side, texel, value) = writes.last();
        painted(n, cells, writes.drop_last()).update(cell(n, side, texel as int), value)
    }
}

/// A history of canvases, oldest first in the past and nearest last in the
/// future.
#[verifier::ext_equal]
pub struct Timeline {
    pub past: Seq<Cells>,
    pub now: Cells,
    pub future: Seq<Cells>,
}

/// The canvases before a stroke join the past; the oldest are lost once there
/// are too many.
pub open spec fn remembered(past: Seq<Cells>, now: Cells) -> Seq<Cells> {
    let longer = past.push(now);
    if longer.len() > UNDO_DEPTH {
        longer.remove(0)
    } else {
        longer
    }
}

impl Timeline {
    pub open spec fn act(self, n: int, act: Act) -> Timeline {
        match act {
            Act::Stroke(writes) => {
                let next = painted(n, self.now, writes);
                // A stroke that puts everything back is not history.
                if next == self.now {
                    self
                } else {
                    Timeline {
                        past: remembered(self.past, self.now),
                        now: next,
                        future: seq![],
                    }
                }
            },
            Act::Undo => if self.past.len() == 0 {
                self
            } else {
                Timeline {
                    past: self.past.drop_last(),
                    now: self.past.last(),
                    future: self.future.push(self.now),
                }
            },
            Act::Redo => if self.future.len() == 0 {
                self
            } else {
                Timeline {
                    past: self.past.push(self.now),
                    now: self.future.last(),
                    future: self.future.drop_last(),
                }
            },
        }
    }

    pub open spec fn act_all(self, n: int, acts: Seq<Act>) -> Timeline
        decreases acts.len(),
    {
        if acts.len() == 0 {
            self
        } else {
            self.act_all(n, acts.drop_last()).act(n, acts.last())
        }
    }
}

impl Sheet {
    pub open spec fn act(self, act: Act) -> Sheet {
        match act {
            Act::Stroke(writes) => self.begun().write_all(writes).ended(),
            Act::Undo => self.undone(),
            Act::Redo => self.redone(),
        }
    }

    pub open spec fn act_all(self, acts: Seq<Act>) -> Sheet
        decreases acts.len(),
    {
        if acts.len() == 0 {
            self
        } else {
            self.act_all(acts.drop_last()).act(acts.last())
        }
    }
}

/// Does an act name texels of the canvases?
pub open spec fn is_act(n: int, act: Act) -> bool {
    match act {
        Act::Stroke(writes) => are_writes(n, writes),
        _ => true,
    }
}

pub open spec fn are_acts(n: int, acts: Seq<Act>) -> bool {
    forall|i: int| 0 <= i < acts.len() ==> is_act(n, #[trigger] acts[i])
}

/// Does undoing the strokes one after the other give the past, newest first?
pub open spec fn recalls(n: int, cells: Cells, undo: Seq<Seq<Change>>, past: Seq<Cells>) -> bool
    decreases undo.len(),
{
    &&& undo.len() == past.len()
    &&& undo.len() > 0 ==> {
        &&& holds(n, cells, undo.last())
        &&& put_back(n, cells, undo.last()) == past.last()
        &&& recalls(n, past.last(), undo.drop_last(), past.drop_last())
    }
}

/// Does redoing them give the future, nearest first?
pub open spec fn foresees(n: int, cells: Cells, redo: Seq<Seq<Change>>, future: Seq<Cells>) -> bool
    decreases redo.len(),
{
    &&& redo.len() == future.len()
    &&& redo.len() > 0 ==> {
        &&& awaits(n, cells, redo.last())
        &&& put_again(n, cells, redo.last()) == future.last()
        &&& foresees(n, future.last(), redo.drop_last(), future.drop_last())
    }
}

/// Is this the history that the canvases keep?
pub open spec fn shows(sheet: Sheet, t: Timeline) -> bool {
    &&& sheet.cells == t.now
    &&& recalls(sheet.n(), sheet.cells, sheet.undo, t.past)
    &&& foresees(sheet.n(), sheet.cells, sheet.redo, t.future)
}

proof fn lemma_recalls_fits(n: int, cells: Cells, undo: Seq<Seq<Change>>, past: Seq<Cells>)
    requires
        recalls(n, cells, undo, past),
    ensures
        undo_fits(n, cells, undo),
    decreases undo.len(),
{
    if undo.len() > 0 {
        lemma_recalls_fits(n, past.last(), undo.drop_last(), past.drop_last());
    }
}

proof fn lemma_foresees_fits(n: int, cells: Cells, redo: Seq<Seq<Change>>, future: Seq<Cells>)
    requires
        foresees(n, cells, redo, future),
    ensures
        redo_fits(n, cells, redo),
    decreases redo.len(),
{
    if redo.len() > 0 {
        lemma_foresees_fits(n, future.last(), redo.drop_last(), future.drop_last());
    }
}

/// The oldest stroke can be forgotten along with the canvases before it.
proof fn lemma_forget(n: int, cells: Cells, undo: Seq<Seq<Change>>, past: Seq<Cells>)
    requires
        undo.len() > 0,
        recalls(n, cells, undo, past),
    ensures
        recalls(n, cells, undo.remove(0), past.remove(0)),
    decreases undo.len(),
{
    if undo.len() > 1 {
        lemma_forget(n, past.last(), undo.drop_last(), past.drop_last());
        assert(undo.remove(0).last() == undo.last());
        assert(past.remove(0).last() == past.last());
        assert(undo.remove(0).drop_last() =~= undo.drop_last().remove(0));
        assert(past.remove(0).drop_last() =~= past.drop_last().remove(0));
    }
}

/// The canvases after some writes are what the writes leave on them.
pub proof fn lemma_painted(sheet: Sheet, writes: Seq<Write>)
    requires
        sheet.wf(),
        are_writes(sheet.n(), writes),
    ensures
        sheet.write_all(writes).cells == painted(sheet.n(), sheet.cells, writes),
    decreases writes.len(),
{
    if writes.len() > 0 {
        let rest = writes.drop_last();
        assert forall|k: int| 0 <= k < rest.len() implies (#[trigger] rest[k]).1 < sheet.n() by {
            assert(rest[k] == writes[k]);
        }
        lemma_painted(sheet, rest);
        lemma_write_all_frame(sheet, rest);
        let mid = sheet.write_all(rest);
        let (side, texel, value) = writes.last();
        let c = cell(sheet.n(), side, texel as int);
        assert(writes[writes.len() - 1] == writes.last());
        lemma_cell(sheet.n(), side, texel as int);
        if mid.cells[c] == value {
            assert(mid.cells.update(c, value) =~= mid.cells);
        }
    }
}

/// The history is a timeline: a stroke, an undo or a redo does to the canvases
/// and to what is kept of them just what it does to the timeline.
pub proof fn law_the_history_is_a_timeline(sheet: Sheet, t: Timeline, act: Act)
    requires
        sheet.wf(),
        shows(sheet, t),
        is_act(sheet.n(), act),
    ensures
        sheet.act(act).wf(),
        sheet.act(act).w == sheet.w,
        sheet.act(act).h == sheet.h,
        sheet.act(act).selection == sheet.selection,
        shows(sheet.act(act), t.act(sheet.n(), act)),
{
    let n = sheet.n();
    lemma_recalls_fits(n, sheet.cells, sheet.undo, t.past);
    lemma_foresees_fits(n, sheet.cells, sheet.redo, t.future);
    assert(sheet.in_step());
    law_history_stays_in_step(sheet);
    match act {
        Act::Stroke(writes) => {
            let begun = sheet.begun();
            let done = begun.write_all(writes);
            let ended = done.ended();
            lemma_stroke_wf(sheet, writes);
            assert(begun.wf());
            lemma_write_all_frame(begun, writes);
            lemma_painted(begun, writes);
            law_a_stroke_undoes_and_redoes_as_one(sheet, writes);
            if done.cells != sheet.cells {
                let edit = ended.undo.last();
                let longer = sheet.undo.push(edit);
                let kept = t.past.push(sheet.cells);
                assert(longer.drop_last() =~= sheet.undo);
                assert(kept.drop_last() =~= t.past);
                assert(put_back(n, ended.cells, edit) == sheet.cells);
                assert(recalls(n, done.cells, longer, kept));
                lemma_forget(n, done.cells, longer, kept);
            }
        },
        Act::Undo => {
            if sheet.undo.len() > 0 {
                law_redo_takes_back_undo(sheet);
                let undone = sheet.undone();
                let edit = sheet.undo.last();
                assert(undone.redo.last() == edit);
                assert(undone.redo.drop_last() =~= sheet.redo);
                assert(t.future.push(t.now).drop_last() =~= t.future);
                assert(put_again(n, undone.cells, edit) == sheet.cells);
            }
        },
        Act::Redo => {
            if sheet.redo.len() > 0 {
                law_undo_takes_back_redo(sheet);
                let redone = sheet.redone();
                let edit = sheet.redo.last();
                assert(redone.undo.last() == edit);
                assert(redone.undo.drop_last() =~= sheet.undo);
                assert(t.past.push(t.now).drop_last() =~= t.past);
                assert(put_back(n, redone.cells, edit) == sheet.cells);
            }
        },
    }
}

/// And so of any run of strokes, undos and redos, from canvases without a
/// history.
pub proof fn law_a_session_is_a_timeline(sheet: Sheet, acts: Seq<Act>)
    requires
        sheet.wf(),
        sheet.undo.len() == 0,
        sheet.redo.len() == 0,
        are_acts(sheet.n(), acts),
    ensures
        sheet.act_all(acts).wf(),
        sheet.act_all(acts).w == sheet.w,
        sheet.act_all(acts).h == sheet.h,
        sheet.act_all(acts).selection == sheet.selection,
        shows(
            sheet.act_all(acts),
            (Timeline { past: seq![], now: sheet.cells, future: seq![] }).act_all(sheet.n(), acts),
        ),
    decreases acts.len(),
{
    let start = Timeline { past: seq![], now: sheet.cells, future: seq![] };
    if acts.len() > 0 {
        let rest = acts.drop_last();
        assert forall|i: int| 0 <= i < rest.len() implies is_act(
            sheet.n(),
            #[trigger] rest[i],
        ) by {
            assert(rest[i] == acts[i]);
        }
        law_a_session_is_a_timeline(sheet, rest);
        assert(is_act(sheet.n(), acts[acts.len() - 1]));
        law_the_history_is_a_timeline(
            sheet.act_all(rest),
            start.act_all(sheet.n(), rest),
            acts.last(),
        );
    }
}

/// However often one undoes, as far as the past goes, the canvases are those
/// of that many strokes ago.
pub proof fn law_undo_goes_back_through_the_past(sheet: Sheet, t: Timeline, j: nat)
    requires
        sheet.wf(),
        shows(sheet, t),
        j <= t.past.len(),
    ensures
        sheet.undo.len() == t.past.len(),
        sheet.undone_times(j).wf(),
        sheet.undone_times(j).undo.len() == t.past.len() - j,
        j > 0 ==> sheet.undone_times(j).cells == t.past[t.past.len() - j],
        sheet.undone_times(j).redone_times(j).cells == t.now,
{
    lemma_recalls_fits(sheet.n(), sheet.cells, sheet.undo, t.past);
    lemma_foresees_fits(sheet.n(), sheet.cells, sheet.redo, t.future);
    crate::sheet::law_redo_retraces_undo(sheet, j);
    lemma_back(sheet, t, j);
}

/// What the timeline has come to after `j` undos.
spec fn back(t: Timeline, j: nat) -> Timeline
    decreases j,
{
    if j == 0 {
        t
    } else {
        back(t, (j - 1) as nat).act(0, Act::Undo)
    }
}

proof fn lemma_back(sheet: Sheet, t: Timeline, j: nat)
    requires
        sheet.wf(),
        shows(sheet, t),
        j <= t.past.len(),
    ensures
        sheet.undone_times(j).wf(),
        shows(sheet.undone_times(j), back(t, j)),
        back(t, j).past == t.past.take(t.past.len() - j),
        j > 0 ==> back(t, j).now == t.past[t.past.len() - j],
    decreases j,
{
    if j == 0 {
        assert(t.past.take(t.past.len() as int) =~= t.past);
    } else {
        let i = (j - 1) as nat;
        lemma_back(sheet, t, i);
        law_the_history_is_a_timeline(sheet.undone_times(i), back(t, i), Act::Undo);
        assert(back(t, i).act(sheet.undone_times(i).n(), Act::Undo) == back(t, j));
        assert(t.past.take(t.past.len() - i).drop_last() =~= t.past.take(t.past.len() - j));
    }
}

/// The strokes that some writes make.
pub open spec fn strokes(list: Seq<Seq<Write>>) -> Seq<Act> {
    Seq::new(list.len(), |i: int| Act::Stroke(list[i]))
}

/// After a run of strokes that each changed something, from canvases without a
/// history, as many can be undone as there were, or as many as are kept.
/// They come off newest first, each giving back the canvases before it, and the
/// oldest are lost.
pub proof fn law_strokes_come_off_newest_first(sheet: Sheet, list: Seq<Seq<Write>>, j: nat)
    requires
        sheet.wf(),
        sheet.undo.len() == 0,
        sheet.redo.len() == 0,
        forall|i: int| 0 <= i < list.len() ==> are_writes(sheet.n(), #[trigger] list[i]),
        forall|i: int|
            0 <= i < list.len() ==> sheet.act_all(#[trigger] strokes(list.take(i))).cells
                != sheet.act_all(strokes(list.take(i + 1))).cells,
        j <= list.len(),
        j <= UNDO_DEPTH,
    ensures
        sheet.act_all(strokes(list)).undo.len() == (if list.len() < UNDO_DEPTH {
            list.len()
        } else {
            UNDO_DEPTH as nat
        }),
        sheet.act_all(strokes(list)).redo.len() == 0,
        sheet.act_all(strokes(list)).undone_times(j).cells == sheet.act_all(
            strokes(list.take(list.len() - j)),
        ).cells,
{
    let start = Timeline { past: seq![], now: sheet.cells, future: seq![] };
    let n = sheet.n();
    lemma_past_of_strokes(sheet, list);
    let acts = strokes(list);
    let t = start.act_all(n, acts);
    assert(are_acts(n, acts)) by {
        assert forall|i: int| 0 <= i < acts.len() implies is_act(n, #[trigger] acts[i]) by {
            assert(are_writes(n, list[i]));
        }
    }
    law_a_session_is_a_timeline(sheet, acts);
    law_undo_goes_back_through_the_past(sheet.act_all(acts), t, j);
    if j == 0 {
        assert(list.take(list.len() as int) =~= list);
    } else {
        let k = list.len() - j;
        assert(t.past[t.past.len() - j] == sheet.act_all(strokes(list.take(k))).cells);
    }
}

/// The past after a run of strokes: the canvases before each of the last ones.
proof fn lemma_past_of_strokes(sheet: Sheet, list: Seq<Seq<Write>>)
    requires
        sheet.wf(),
        sheet.undo.len() == 0,
        sheet.redo.len() == 0,
        forall|i: int| 0 <= i < list.len() ==> are_writes(sheet.n(), #[trigger] list[i]),
        forall|i: int|
            0 <= i < list.len() ==> sheet.act_all(#[trigger] strokes(list.take(i))).cells
                != sheet.act_all(strokes(list.take(i + 1))).cells,
    ensures
        ({
            let t = (Timeline { past: seq![], now: sheet.cells, future: seq![] }).act_all(
                sheet.n(),
                strokes(list),
            );
            &&& t.past.len() == (if list.len() < UNDO_DEPTH {
                list.len()
            } else {
                UNDO_DEPTH as nat
            })
            &&& t.future.len() == 0
            &&& forall|i: int|
                0 <= i < t.past.len() ==> #[trigger] t.past[i] == sheet.act_all(
                    strokes(list.take(list.len() - t.past.len() + i)),
                ).cells
        }),
    decreases list.len(),
{
    let start = Timeline { past: seq![], now: sheet.cells, future: seq![] };
    let n = sheet.n();
    if list.len() > 0 {
        let rest = list.drop_last();
        let last = list.last();
        let m = list.len() - 1;
        assert forall|i: int| 0 <= i < rest.len() implies are_writes(n, #[trigger] rest[i]) by {
            assert(rest[i] == list[i]);
        }
        assert forall|i: int| 0 <= i < rest.len() implies sheet.act_all(
            #[trigger] strokes(rest.take(i)),
        ).cells != sheet.act_all(strokes(rest.take(i + 1))).cells by {
            assert(rest.take(i) =~= list.take(i));
            assert(rest.take(i + 1) =~= list.take(i + 1));
            assert(sheet.act_all(strokes(list.take(i))).cells != sheet.act_all(
                strokes(list.take(i + 1)),
            ).cells);
        }
        lemma_past_of_strokes(sheet, rest);
        let t = start.act_all(n, strokes(rest));
        let acts = strokes(rest);
        assert(are_acts(n, acts)) by {
            assert forall|i: int| 0 <= i < acts.len() implies is_act(n, #[trigger] acts[i]) by {
                assert(are_writes(n, rest[i]));
            }
        }
        law_a_session_is_a_timeline(sheet, acts);
        assert(strokes(list).drop_last() =~= acts);
        assert(strokes(list).last() == Act::Stroke(last));
        assert(list.take(m) =~= rest);
        assert(list.take(m + 1) =~= list);
        let before = sheet.act_all(acts);
        assert(are_writes(n, list[m]));
        law_the_history_is_a_timeline(before, t, Act::Stroke(last));
        let next = t.act(n, Act::Stroke(last));
        assert(next == start.act_all(n, strokes(list)));
        assert(sheet.act_all(strokes(list)) == before.act(Act::Stroke(last)));
        assert(sheet.act_all(strokes(list.take(m))).cells != sheet.act_all(
            strokes(list.take(m + 1)),
        ).cells);
        assert(next.now != t.now);
        assert forall|i: int| 0 <= i < next.past.len() implies #[trigger] next.past[i]
            == sheet.act_all(strokes(list.take(list.len() - next.past.len() + i))).cells by {
            let at = list.len() - next.past.len() + i;
            if i == next.past.len() - 1 {
                assert(next.past[i] == t.now);
                assert(at == m);
            } else {
                let o = if t.past.len() == UNDO_DEPTH {
                    i + 1
                } else {
                    i
                };
                assert(next.past[i] == t.past[o]);
                assert(rest.take(rest.len() - t.past.len() + o) =~= list.take(at));
            }
        }
    }
}

/// The side that undo and redo show is one that the stroke changed.
pub proof fn law_undo_shows_a_side_that_changed(sheet: Sheet, t: Timeline)
    requires
        sheet.wf(),
        shows(sheet, t),
    ensures
        sheet.undo.len() > 0 ==> exists|i: int|
            0 <= i < sheet.n() && #[trigger] sheet.undone().at(sheet.undo.last()[0].side, i)
                != sheet.at(sheet.undo.last()[0].side, i),
        sheet.redo.len() > 0 ==> exists|i: int|
            0 <= i < sheet.n() && #[trigger] sheet.redone().at(sheet.redo.last()[0].side, i)
                != sheet.at(sheet.redo.last()[0].side, i),
{
    let n = sheet.n();
    lemma_recalls_fits(n, sheet.cells, sheet.undo, t.past);
    lemma_foresees_fits(n, sheet.cells, sheet.redo, t.future);
    if sheet.undo.len() > 0 {
        let edit = sheet.undo.last();
        assert(is_edit(n, sheet.undo[sheet.undo.len() - 1]));
        law_redo_takes_back_undo(sheet);
        let e = edit[0];
        assert(sheet.undone().redo.last() == edit);
        assert(e.before == sheet.undone().cells[crate::sheet::place(n, e)]);
        assert(e.after == sheet.cells[crate::sheet::place(n, e)]);
        assert(sheet.undone().at(e.side, e.texel as int) != sheet.at(e.side, e.texel as int));
    }
    if sheet.redo.len() > 0 {
        let edit = sheet.redo.last();
        assert(is_edit(n, sheet.redo[sheet.redo.len() - 1]));
        law_undo_takes_back_redo(sheet);
        let e = edit[0];
        assert(sheet.redone().undo.last() == edit);
        assert(e.after == sheet.redone().cells[crate::sheet::place(n, e)]);
        assert(e.before == sheet.cells[crate::sheet::place(n, e)]);
        assert(sheet.redone().at(e.side, e.texel as int) != sheet.at(e.side, e.texel as int));
    }
}

} // verus!
