//! The four canvases of a relief, and the history of what was done to them.
//!
//! [`Sheet`] is the mathematical picture of them: every operation is a function
//! from one sheet to the next. [`Board`] is what runs.

use vstd::prelude::*;

use crate::relief::Side;

verus! {

/// Longest side of a relief canvas. Painting texel by texel stops being the
/// point long before this, and every stroke rebakes the whole canvas.
pub const MAX_SIDE: u32 = 512;

/// Deepest the undo stack goes.
pub const UNDO_DEPTH: usize = 64;

/// What one stroke did to one texel of one canvas.
#[derive(Clone, Copy, Debug)]
pub struct Change {
    pub side: Side,
    pub texel: usize,
    pub before: Option<u8>,
    pub after: Option<u8>,
}

/// One stroke, as the texels it changed: enough to undo it and to put it back.
/// A brush stroke stays on one canvas, but a shape writes all four at once and
/// has to come back off in a single press of Undo.
pub struct Edit {
    pub changes: Vec<Change>,
}

impl Edit {
    /// The canvas to show when this edit is undone. Undoing something you
    /// cannot see is worse than not undoing it.
    pub fn side(&self) -> (side: Option<Side>)
        ensures
            side == lead(self.changes@),
    {
        if self.changes.len() == 0 {
            None
        } else {
            Some(self.changes[0].side)
        }
    }
}

/// The side of the first change.
pub open spec fn lead(changes: Seq<Change>) -> Option<Side> {
    if changes.len() == 0 {
        None
    } else {
        Some(changes[0].side)
    }
}

/// Where a texel of a canvas lies among the cells of all four, `n` to each.
pub open spec fn cell(n: int, side: Side, texel: int) -> int {
    side.nth() * n + texel
}

/// The cell that a change names.
pub open spec fn place(n: int, change: Change) -> int {
    cell(n, change.side, change.texel as int)
}

/// Is there a change of this cell?
pub open spec fn recorded(n: int, changes: Seq<Change>, c: int) -> bool {
    exists|k: int| 0 <= k < changes.len() && place(n, #[trigger] changes[k]) == c
}

/// Do the changes name texels of the canvases, and none of them twice?
pub open spec fn is_record(n: int, changes: Seq<Change>) -> bool {
    &&& forall|k: int| 0 <= k < changes.len() ==> (#[trigger] changes[k]).texel < n
    &&& forall|j: int, k: int|
        0 <= j < k < changes.len() ==> place(n, #[trigger] changes[j]) != place(
            n,
            #[trigger] changes[k],
        )
}

/// A finished edit: there is something to it, and nothing idle in it.
pub open spec fn is_edit(n: int, changes: Seq<Change>) -> bool {
    &&& changes.len() > 0
    &&& is_record(n, changes)
    &&& forall|k: int|
        0 <= k < changes.len() ==> (#[trigger] changes[k]).before != changes[k].after
}

pub open spec fn all_edits(n: int, list: Seq<Seq<Change>>) -> bool {
    forall|i: int| 0 <= i < list.len() ==> is_edit(n, #[trigger] list[i])
}

/// The cells with every change taken back.
pub open spec fn put_back(n: int, cells: Seq<Option<u8>>, changes: Seq<Change>) -> Seq<Option<u8>>
    decreases changes.len(),
{
    if changes.len() == 0 {
        cells
    } else {
        put_back(n, cells, changes.drop_last()).update(
            place(n, changes.last()),
            changes.last().before,
        )
    }
}

/// The cells with every change made again.
pub open spec fn put_again(n: int, cells: Seq<Option<u8>>, changes: Seq<Change>) -> Seq<Option<u8>>
    decreases changes.len(),
{
    if changes.len() == 0 {
        cells
    } else {
        put_again(n, cells, changes.drop_last()).update(
            place(n, changes.last()),
            changes.last().after,
        )
    }
}

/// The changes with where every texel actually ended up, without those that
/// ended where they began.
pub open spec fn settled(n: int, cells: Seq<Option<u8>>, changes: Seq<Change>) -> Seq<Change>
    decreases changes.len(),
{
    if changes.len() == 0 {
        seq![]
    } else {
        let rest = settled(n, cells, changes.drop_last());
        let last = changes.last();
        let after = cells[place(n, last)];
        if last.before == after {
            rest
        } else {
            rest.push(Change { after, ..last })
        }
    }
}

/// One texel of one canvas set to a height, or to nothing.
pub type Write = (Side, usize, Option<u8>);

/// Four canvases, their selection and their history.
#[verifier::ext_equal]
pub struct Sheet {
    pub w: int,
    pub h: int,
    /// Top, Left, Right, Bottom, one after the other. `None` is an unpainted
    /// texel, which bakes as flat and draws as transparent.
    pub cells: Seq<Option<u8>>,
    pub selection: Seq<bool>,
    pub undo: Seq<Seq<Change>>,
    pub redo: Seq<Seq<Change>>,
    /// The stroke in progress: the height each texel had when it began.
    pub stroke: Option<Seq<Change>>,
    /// Where the brush last was in it.
    pub last_texel: Option<(i32, i32)>,
    pub revision: u64,
    /// Is everything downstream stale?
    pub dirty: bool,
}

pub open spec fn next_revision(revision: u64) -> u64 {
    if revision == u64::MAX {
        0
    } else {
        (revision + 1) as u64
    }
}

impl Sheet {
    /// Texels to a canvas.
    pub open spec fn n(self) -> int {
        self.w * self.h
    }

    pub open spec fn wf(self) -> bool {
        &&& 1 <= self.w <= MAX_SIDE
        &&& 1 <= self.h <= MAX_SIDE
        &&& self.cells.len() == 4 * self.n()
        &&& self.selection.len() == self.n()
        &&& self.undo.len() + self.redo.len() <= UNDO_DEPTH
        &&& all_edits(self.n(), self.undo)
        &&& all_edits(self.n(), self.redo)
        &&& self.stroke.is_some() ==> is_record(self.n(), self.stroke.unwrap())
    }

    /// The height of a texel of one canvas, which is to exist.
    pub open spec fn at(self, side: Side, texel: int) -> Option<u8> {
        self.cells[cell(self.n(), side, texel)]
    }

    /// The height of one texel on one side, or `None` if it is unpainted or
    /// off the canvas.
    pub open spec fn get(self, side: Side, x: int, y: int) -> Option<u8> {
        if crate::grid::on_canvas(self.w, self.h, x, y) {
            self.at(side, crate::grid::texel(self.w, x, y))
        } else {
            None
        }
    }

    /// Has this side been painted?
    pub open spec fn drawn(self, side: Side) -> bool {
        exists|t: int| 0 <= t < self.n() && (#[trigger] self.at(side, t)).is_some()
    }

    pub open spec fn marked(self) -> Sheet {
        Sheet { dirty: true, revision: next_revision(self.revision), ..self }
    }

    /// One texel set: recorded the first time that a stroke changes it.
    pub open spec fn write(self, write: Write) -> Sheet {
        let (side, texel, value) = write;
        let c = cell(self.n(), side, texel as int);
        let before = self.cells[c];
        if before == value {
            self
        } else {
            Sheet {
                cells: self.cells.update(c, value),
                stroke: match self.stroke {
                    Some(s) => if recorded(self.n(), s, c) {
                        Some(s)
                    } else {
                        Some(s.push(Change { side, texel, before, after: value }))
                    },
                    None => None,
                },
                ..self.marked()
            }
        }
    }

    pub open spec fn write_all(self, writes: Seq<Write>) -> Sheet
        decreases writes.len(),
    {
        if writes.len() == 0 {
            self
        } else {
            self.write_all(writes.drop_last()).write(writes.last())
        }
    }

    pub open spec fn begun(self) -> Sheet {
        Sheet { stroke: Some(seq![]), last_texel: None, ..self }
    }

    /// A stroke that changed something becomes history, and anything undone
    /// past it is gone.
    pub open spec fn ended(self) -> Sheet {
        let over = Sheet { stroke: None, last_texel: None, ..self };
        match self.stroke {
            None => over,
            Some(s) => {
                let edit = settled(self.n(), self.cells, s);
                let longer = self.undo.push(edit);
                if edit.len() == 0 {
                    over
                } else {
                    Sheet {
                        undo: if longer.len() > UNDO_DEPTH {
                            longer.remove(0)
                        } else {
                            longer
                        },
                        redo: seq![],
                        ..over
                    }
                }
            },
        }
    }

    pub open spec fn undone(self) -> Sheet {
        if self.undo.len() == 0 {
            self
        } else {
            Sheet {
                cells: put_back(self.n(), self.cells, self.undo.last()),
                undo: self.undo.drop_last(),
                redo: self.redo.push(self.undo.last()),
                ..self.marked()
            }
        }
    }

    pub open spec fn redone(self) -> Sheet {
        if self.redo.len() == 0 {
            self
        } else {
            Sheet {
                cells: put_again(self.n(), self.cells, self.redo.last()),
                redo: self.redo.drop_last(),
                undo: self.undo.push(self.redo.last()),
                ..self.marked()
            }
        }
    }

    /// Every canvas at another size, keeping whatever overlaps the new
    /// rectangle. Selection and history name texels that have moved, so they
    /// go.
    pub open spec fn resized(self, w: int, h: int) -> Sheet {
        if w == self.w && h == self.h {
            self
        } else {
            Sheet {
                w,
                h,
                cells: Seq::new(
                    (4 * (w * h)) as nat,
                    |c: int| self.kept(c / (w * h), c % (w * h) % w, c % (w * h) / w),
                ),
                selection: Seq::new((w * h) as nat, |i: int| false),
                undo: seq![],
                redo: seq![],
                stroke: None,
                ..self.marked()
            }
        }
    }

    /// What a texel of the `k`th canvas holds after a change of size.
    pub open spec fn kept(self, k: int, x: int, y: int) -> Option<u8> {
        if x < self.w && y < self.h {
            self.cells[k * self.n() + crate::grid::texel(self.w, x, y)]
        } else {
            None
        }
    }

    pub open spec fn selecting(self, selection: Seq<bool>) -> Sheet {
        Sheet { selection, ..self.marked() }
    }
}

// ------------------------------------------------------------------ running

spec fn edits(list: Seq<Edit>) -> Seq<Seq<Change>> {
    Seq::new(list.len(), |i: int| list[i].changes@)
}

/// The four canvases of a relief as they are kept.
pub struct Board {
    width: u32,
    height: u32,
    cells: Vec<Option<u8>>,
    selection: Vec<bool>,
    undo: Vec<Edit>,
    redo: Vec<Edit>,
    stroke: Option<Edit>,
    /// Texels already recorded in the stroke in progress, one flag per side
    /// per texel, so a brush that passes over the same place twice still
    /// undoes to where it started.
    touched: Vec<bool>,
    last_texel: Option<(i32, i32)>,
    revision: u64,
    dirty: bool,
}

impl View for Board {
    type V = Sheet;

    closed spec fn view(&self) -> Sheet {
        Sheet {
            w: self.width as int,
            h: self.height as int,
            cells: self.cells@,
            selection: self.selection@,
            undo: edits(self.undo@),
            redo: edits(self.redo@),
            stroke: match self.stroke {
                Some(edit) => Some(edit.changes@),
                None => None,
            },
            last_texel: self.last_texel,
            revision: self.revision,
            dirty: self.dirty,
        }
    }
}

impl Board {
    /// The sheet is in order, and the flags agree with the stroke.
    pub closed spec fn wf(&self) -> bool {
        &&& self@.wf()
        &&& self.touched@.len() == self.cells@.len()
        &&& self@.stroke.is_some() ==> forall|c: int|
            0 <= c < self.touched@.len() ==> #[trigger] self.touched@[c] == recorded(
                self@.n(),
                self@.stroke.unwrap(),
                c,
            )
    }

    pub proof fn lemma_wf(&self)
        requires
            self.wf(),
        ensures
            self@.wf(),
            0 <= self@.n() <= 0x4_0000,
    {
        lemma_small(self@.w, self@.h);
    }

    /// A bare canvas.
    pub fn new(width: u32, height: u32) -> (board: Board)
        requires
            1 <= width <= MAX_SIDE,
            1 <= height <= MAX_SIDE,
        ensures
            board.wf(),
            board@ == (Sheet {
                w: width as int,
                h: height as int,
                cells: Seq::new((4 * (width * height)) as nat, |i: int| None),
                selection: Seq::new((width * height) as nat, |i: int| false),
                undo: seq![],
                redo: seq![],
                stroke: None,
                last_texel: None,
                revision: 0,
                dirty: true,
            }),
    {
        proof {
            lemma_small(width as int, height as int);
        }
        let n: usize = width as usize * height as usize;
        let board = Board {
            width,
            height,
            cells: vec![None; n * 4],
            selection: vec![false; n],
            undo: Vec::new(),
            redo: Vec::new(),
            stroke: None,
            touched: vec![false; n * 4],
            last_texel: None,
            revision: 0,
            dirty: true,
        };
        assert(board@ =~= Sheet {
            w: width as int,
            h: height as int,
            cells: Seq::new((4 * (width * height)) as nat, |i: int| None),
            selection: Seq::new((width * height) as nat, |i: int| false),
            undo: seq![],
            redo: seq![],
            stroke: None,
            last_texel: None,
            revision: 0,
            dirty: true,
        });
        board
    }

    pub fn width(&self) -> (w: u32)
        ensures
            w == self@.w,
    {
        self.width
    }

    pub fn height(&self) -> (h: u32)
        ensures
            h == self@.h,
    {
        self.height
    }

    pub fn selection(&self) -> (s: &[bool])
        ensures
            s@ == self@.selection,
    {
        self.selection.as_slice()
    }

    pub fn revision(&self) -> (r: u64)
        ensures
            r == self@.revision,
    {
        self.revision
    }

    pub fn dirty(&self) -> (r: bool)
        ensures
            r == self@.dirty,
    {
        self.dirty
    }

    pub fn last_texel(&self) -> (r: Option<(i32, i32)>)
        ensures
            r == self@.last_texel,
    {
        self.last_texel
    }

    pub fn stroking(&self) -> (r: bool)
        ensures
            r == self@.stroke.is_some(),
    {
        self.stroke.is_some()
    }

    pub fn can_undo(&self) -> (r: bool)
        ensures
            r == (self@.undo.len() > 0),
    {
        self.undo.len() > 0
    }

    pub fn can_redo(&self) -> (r: bool)
        ensures
            r == (self@.redo.len() > 0),
    {
        self.redo.len() > 0
    }

    /// Texels to a canvas.
    pub fn len(&self) -> (n: usize)
        requires
            self.wf(),
        ensures
            n == self@.n(),
            n <= 0x4_0000,
    {
        proof {
            lemma_small(self.width as int, self.height as int);
        }
        self.width as usize * self.height as usize
    }

    /// The height of a texel of one canvas.
    pub fn at(&self, side: Side, texel: usize) -> (v: Option<u8>)
        requires
            self.wf(),
            texel < self@.n(),
        ensures
            v == self@.at(side, texel as int),
    {
        let n: usize = self.len();
        proof {
            lemma_cell(n as int, side, texel as int);
        }
        self.cells[side.index() * n + texel]
    }

    /// Where a texel lies in a canvas, if it is on it.
    pub fn index(&self, x: i32, y: i32) -> (i: Option<usize>)
        requires
            self.wf(),
        ensures
            i.is_some() == crate::grid::on_canvas(self@.w, self@.h, x as int, y as int),
            i.is_some() ==> i.unwrap() == crate::grid::texel(self@.w, x as int, y as int)
                && i.unwrap() < self@.n(),
    {
        if x < 0 || y < 0 || x >= self.width as i32 || y >= self.height as i32 {
            return None;
        }
        proof {
            lemma_small(self.width as int, self.height as int);
            crate::grid::lemma_texel(self.width as int, self.height as int, x as int, y as int);
            assert(0 <= y * self.width) by (nonlinear_arith)
                requires
                    y >= 0,
            ;
        }
        Some(y as usize * self.width as usize + x as usize)
    }

    /// Everything downstream is stale.
    pub fn mark(&mut self)
        requires
            old(self).wf(),
        ensures
            final(self).wf(),
            final(self)@ == old(self)@.marked(),
    {
        self.dirty = true;
        self.revision = self.revision.wrapping_add(1);
        assert(self@ =~= old(self)@.marked());
    }

    /// Everything downstream has been brought up to date.
    pub fn settle(&mut self)
        requires
            old(self).wf(),
        ensures
            final(self).wf(),
            final(self)@ == (Sheet { dirty: false, ..old(self)@ }),
    {
        self.dirty = false;
        assert(self@ =~= Sheet { dirty: false, ..old(self)@ });
    }

    pub fn set_last_texel(&mut self, at: Option<(i32, i32)>)
        requires
            old(self).wf(),
        ensures
            final(self).wf(),
            final(self)@ == (Sheet { last_texel: at, ..old(self)@ }),
    {
        self.last_texel = at;
        assert(self@ =~= Sheet { last_texel: at, ..old(self)@ });
    }

    pub fn set_selection(&mut self, selection: Vec<bool>)
        requires
            old(self).wf(),
            selection@.len() == old(self)@.n(),
        ensures
            final(self).wf(),
            final(self)@ == old(self)@.selecting(selection@),
    {
        self.selection = selection;
        self.mark();
        assert(self@ =~= old(self)@.selecting(selection@));
    }

    /// Set one texel of one canvas.
    pub fn write(&mut self, side: Side, texel: usize, value: Option<u8>)
        requires
            old(self).wf(),
            texel < old(self)@.n(),
        ensures
            final(self).wf(),
            final(self)@ == old(self)@.write((side, texel, value)),
    {
        let ghost start = self@;
        let n: usize = self.len();
        proof {
            lemma_cell(n as int, side, texel as int);
        }
        let c: usize = side.index() * n + texel;
        let before: Option<u8> = self.cells[c];
        if before == value {
            return;
        }
        self.cells[c] = value;
        match self.stroke.take() {
            Some(mut edit) => {
                let ghost s = edit.changes@;
                if !self.touched[c] {
                    // Only the height the texel started at matters here; where
                    // it ended up is read back once, when the stroke finishes.
                    let change = Change { side, texel, before, after: value };
                    self.touched[c] = true;
                    edit.changes.push(change);
                    proof {
                        assert(place(n as int, change) == c);
                        lemma_recorded_push(n as int, s, change);
                    }
                }
                self.stroke = Some(edit);
            },
            None => {},
        }
        self.dirty = true;
        self.revision = self.revision.wrapping_add(1);
        assert(self@ =~= start.write((side, texel, value)));
    }

    /// Set texels one after the other.
    pub fn write_all(&mut self, writes: &Vec<Write>)
        requires
            old(self).wf(),
            forall|k: int| 0 <= k < writes@.len() ==> (#[trigger] writes@[k]).1 < old(self)@.n(),
        ensures
            final(self).wf(),
            final(self)@ == old(self)@.write_all(writes@),
    {
        let ghost start = self@;
        let mut i: usize = 0;
        while i < writes.len()
            invariant
                i <= writes@.len(),
                self.wf(),
                self@.n() == start.n(),
                forall|k: int| 0 <= k < writes@.len() ==> (#[trigger] writes@[k]).1 < start.n(),
                self@ == start.write_all(writes@.take(i as int)),
            decreases writes@.len() - i,
        {
            let (side, texel, value): Write = writes[i];
            self.write(side, texel, value);
            i += 1;
            proof {
                assert(writes@.take(i as int).drop_last() =~= writes@.take(i - 1));
                assert(writes@.take(i as int).last() == writes@[i - 1]);
            }
        }
        assert(writes@.take(i as int) =~= writes@);
    }

    /// Resize every canvas, keeping whatever overlaps the new rectangle.
    pub fn resize(&mut self, w: u32, h: u32)
        requires
            old(self).wf(),
            1 <= w <= MAX_SIDE,
            1 <= h <= MAX_SIDE,
        ensures
            final(self).wf(),
            final(self)@ == old(self)@.resized(w as int, h as int),
    {
        let ghost start = self@;
        if w == self.width && h == self.height {
            return;
        }
        let old_n: usize = self.len();
        proof {
            lemma_small(w as int, h as int);
            assert(w * h >= 1) by (nonlinear_arith)
                requires
                    w >= 1,
                    h >= 1,
            ;
        }
        let n: usize = w as usize * h as usize;
        let mut next: Vec<Option<u8>> = Vec::new();
        let mut c: usize = 0;
        while c < n * 4
            invariant
                c <= n * 4,
                n == w * h,
                1 <= n <= 0x4_0000,
                w >= 1,
                self@ == start,
                self.wf(),
                old_n == start.n(),
                old_n <= 0x4_0000,
                next@.len() == c,
                forall|i: int|
                    0 <= i < c ==> #[trigger] next@[i] == start.kept(
                        i / (w * h),
                        i % (w * h) % w as int,
                        i % (w * h) / w as int,
                    ),
            decreases n * 4 - c,
        {
            let k: usize = c / n;
            let t: usize = c % n;
            let x: usize = t % w as usize;
            let y: usize = t / w as usize;
            assert(k < 4) by (nonlinear_arith)
                requires
                    k == c as int / n as int,
                    c < n * 4,
                    n >= 1,
            ;
            let v: Option<u8> = if x < self.width as usize && y < self.height as usize {
                proof {
                    crate::grid::lemma_texel(start.w, start.h, x as int, y as int);
                    assert(0 <= y * self.width) by (nonlinear_arith)
                        requires
                            y >= 0,
                    ;
                    assert(0 <= k * old_n <= 3 * old_n) by (nonlinear_arith)
                        requires
                            0 <= k <= 3,
                            old_n >= 0,
                    ;
                }
                self.cells[k * old_n + (y * self.width as usize + x)]
            } else {
                None
            };
            next.push(v);
            c += 1;
        }
        self.cells = next;
        self.width = w;
        self.height = h;
        self.touched = vec![false; n * 4];
        self.selection = vec![false; n];
        self.undo = Vec::new();
        self.redo = Vec::new();
        self.stroke = None;
        self.dirty = true;
        self.revision = self.revision.wrapping_add(1);
        assert(self@.cells =~= start.resized(w as int, h as int).cells);
        assert(self@ =~= start.resized(w as int, h as int));
    }

    /// Begin a stroke. One already in progress is forgotten.
    pub fn begin_stroke(&mut self)
        requires
            old(self).wf(),
        ensures
            final(self).wf(),
            final(self)@ == old(self)@.begun(),
    {
        let n: usize = self.cells.len();
        self.stroke = Some(Edit { changes: Vec::new() });
        self.touched = vec![false; n];
        self.last_texel = None;
        assert(self@ =~= old(self)@.begun());
    }

    /// End the stroke in progress.
    pub fn end_stroke(&mut self)
        requires
            old(self).wf(),
        ensures
            final(self).wf(),
            final(self)@ == old(self)@.ended(),
    {
        let ghost start = self@;
        let n: usize = self.len();
        self.last_texel = None;
        match self.stroke.take() {
            None => {
                assert(self@ =~= start.ended());
            },
            Some(edit) => {
                let ghost s = edit.changes@;
                let mut kept: Vec<Change> = Vec::new();
                let mut i: usize = 0;
                while i < edit.changes.len()
                    invariant
                        i <= edit.changes@.len(),
                        edit.changes@ == s,
                        n == start.n(),
                        n <= 0x4_0000,
                        start.wf(),
                        start.stroke == Some(s),
                        self.cells@ == start.cells,
                        kept@ == settled(n as int, start.cells, s.take(i as int)),
                    decreases edit.changes@.len() - i,
                {
                    let change: Change = edit.changes[i];
                    proof {
                        lemma_cell(n as int, change.side, change.texel as int);
                        assert(s.take(i + 1).drop_last() =~= s.take(i as int));
                        assert(s.take(i + 1).last() == change);
                    }
                    let after: Option<u8> = self.cells[change.side.index() * n + change.texel];
                    if change.before != after {
                        kept.push(
                            Change {
                                side: change.side,
                                texel: change.texel,
                                before: change.before,
                                after,
                            },
                        );
                    }
                    i += 1;
                }
                proof {
                    assert(s.take(i as int) =~= s);
                    lemma_settled(n as int, start.cells, s);
                }
                if kept.len() == 0 {
                    assert(self@ =~= start.ended());
                    return;
                }
                self.undo.push(Edit { changes: kept });
                let ghost longer = start.undo.push(kept@);
                assert(edits(self.undo@) =~= longer);
                assert(all_edits(n as int, longer)) by {
                    assert(is_edit(n as int, kept@));
                }
                if self.undo.len() > UNDO_DEPTH {
                    let _ = self.undo.remove(0);
                    assert(edits(self.undo@) =~= longer.remove(0));
                    assert(all_edits(n as int, longer.remove(0)));
                }
                self.redo.clear();
                assert(self@ =~= start.ended());
                assert(all_edits(n as int, self@.undo));
            },
        }
    }

    /// Undo the last stroke, and say which side it was on.
    pub fn undo(&mut self) -> (side: Option<Side>)
        requires
            old(self).wf(),
        ensures
            final(self).wf(),
            final(self)@ == old(self)@.undone(),
            side == (if old(self)@.undo.len() == 0 {
                None
            } else {
                lead(old(self)@.undo.last())
            }),
    {
        let ghost start = self@;
        let n: usize = self.len();
        match self.undo.pop() {
            None => None,
            Some(edit) => {
                let ghost s = edit.changes@;
                assert(edits(self.undo@) =~= start.undo.drop_last());
                assert(start.undo.last() == s);
                let mut i: usize = 0;
                while i < edit.changes.len()
                    invariant
                        i <= edit.changes@.len(),
                        edit.changes@ == s,
                        n == start.n(),
                        n <= 0x4_0000,
                        is_edit(n as int, s),
                        self.cells@.len() == 4 * n,
                        self.cells@ == put_back(n as int, start.cells, s.take(i as int)),
                        self@ == (Sheet {
                            cells: self.cells@,
                            undo: start.undo.drop_last(),
                            ..start
                        }),
                        self.touched@ == old(self).touched@,
                    decreases edit.changes@.len() - i,
                {
                    let change: Change = edit.changes[i];
                    proof {
                        lemma_cell(n as int, change.side, change.texel as int);
                        assert(s.take(i + 1).drop_last() =~= s.take(i as int));
                        assert(s.take(i + 1).last() == change);
                    }
                    self.cells[change.side.index() * n + change.texel] = change.before;
                    i += 1;
                    assert(self@ =~= Sheet {
                        cells: self.cells@,
                        undo: start.undo.drop_last(),
                        ..start
                    });
                }
                assert(s.take(i as int) =~= s);
                let side = edit.side();
                self.redo.push(edit);
                assert(edits(self.redo@) =~= start.redo.push(s));
                self.dirty = true;
                self.revision = self.revision.wrapping_add(1);
                assert(self@ =~= start.undone());
                side
            },
        }
    }

    /// Put the last stroke undone back, and say which side it was on.
    pub fn redo(&mut self) -> (side: Option<Side>)
        requires
            old(self).wf(),
        ensures
            final(self).wf(),
            final(self)@ == old(self)@.redone(),
            side == (if old(self)@.redo.len() == 0 {
                None
            } else {
                lead(old(self)@.redo.last())
            }),
    {
        let ghost start = self@;
        let n: usize = self.len();
        match self.redo.pop() {
            None => None,
            Some(edit) => {
                let ghost s = edit.changes@;
                assert(edits(self.redo@) =~= start.redo.drop_last());
                assert(start.redo.last() == s);
                let mut i: usize = 0;
                while i < edit.changes.len()
                    invariant
                        i <= edit.changes@.len(),
                        edit.changes@ == s,
                        n == start.n(),
                        n <= 0x4_0000,
                        is_edit(n as int, s),
                        self.cells@.len() == 4 * n,
                        self.cells@ == put_again(n as int, start.cells, s.take(i as int)),
                        self@ == (Sheet {
                            cells: self.cells@,
                            redo: start.redo.drop_last(),
                            ..start
                        }),
                        self.touched@ == old(self).touched@,
                    decreases edit.changes@.len() - i,
                {
                    let change: Change = edit.changes[i];
                    proof {
                        lemma_cell(n as int, change.side, change.texel as int);
                        assert(s.take(i + 1).drop_last() =~= s.take(i as int));
                        assert(s.take(i + 1).last() == change);
                    }
                    self.cells[change.side.index() * n + change.texel] = change.after;
                    i += 1;
                    assert(self@ =~= Sheet {
                        cells: self.cells@,
                        redo: start.redo.drop_last(),
                        ..start
                    });
                }
                assert(s.take(i as int) =~= s);
                let side = edit.side();
                self.undo.push(edit);
                assert(edits(self.undo@) =~= start.undo.push(s));
                self.dirty = true;
                self.revision = self.revision.wrapping_add(1);
                assert(self@ =~= start.redone());
                side
            },
        }
    }
}

proof fn lemma_small(w: int, h: int)
    requires
        0 <= w <= 512,
        0 <= h <= 512,
    ensures
        0 <= w * h <= 0x4_0000,
{
    assert(0 <= w * h <= 0x4_0000) by (nonlinear_arith)
        requires
            0 <= w <= 512,
            0 <= h <= 512,
    ;
}

pub proof fn lemma_cell(n: int, side: Side, texel: int)
    requires
        0 <= texel < n,
    ensures
        0 <= side.nth() * n <= 3 * n,
        0 <= cell(n, side, texel) < 4 * n,
        cell(n, side, texel) / n == side.nth(),
        cell(n, side, texel) % n == texel,
{
    let k = side.nth();
    assert(0 <= k * n <= 3 * n) by (nonlinear_arith)
        requires
            0 <= k <= 3,
            n > 0,
    ;
    vstd::arithmetic::div_mod::lemma_fundamental_div_mod_converse(k * n + texel, n, k, texel);
}

/// Two cells are the same only where side and texel are.
pub proof fn lemma_cells_apart(n: int, a: Side, i: int, b: Side, j: int)
    requires
        0 <= i < n,
        0 <= j < n,
    ensures
        cell(n, a, i) == cell(n, b, j) <==> a == b && i == j,
{
    lemma_cell(n, a, i);
    lemma_cell(n, b, j);
}

proof fn lemma_recorded_push(n: int, s: Seq<Change>, change: Change)
    ensures
        forall|c: int| #[trigger]
            recorded(n, s.push(change), c) == (recorded(n, s, c) || c == place(n, change)),
{
    let t = s.push(change);
    assert forall|c: int| #[trigger] recorded(n, t, c) == (recorded(n, s, c) || c == place(
        n,
        change,
    )) by {
        if recorded(n, s, c) {
            let k = choose|k: int| 0 <= k < s.len() && place(n, #[trigger] s[k]) == c;
            assert(t[k] == s[k]);
        }
        if c == place(n, change) {
            assert(t[s.len() as int] == change);
        }
        if recorded(n, t, c) && c != place(n, change) {
            let k = choose|k: int| 0 <= k < t.len() && place(n, #[trigger] t[k]) == c;
            assert(s[k] == t[k]);
        }
    }
}

/// Is there a change of this cell from this height?
spec fn began(n: int, changes: Seq<Change>, c: int, v: Option<u8>) -> bool {
    exists|k: int|
        0 <= k < changes.len() && place(n, #[trigger] changes[k]) == c && changes[k].before == v
}

proof fn lemma_began_push(n: int, s: Seq<Change>, change: Change)
    ensures
        forall|c: int, v: Option<u8>| #[trigger]
            began(n, s.push(change), c, v) == (began(n, s, c, v) || (c == place(n, change) && v
                == change.before)),
{
    let t = s.push(change);
    assert forall|c: int, v: Option<u8>| #[trigger]
        began(n, t, c, v) == (began(n, s, c, v) || (c == place(n, change) && v
            == change.before)) by {
        if began(n, s, c, v) {
            let k = choose|k: int|
                0 <= k < s.len() && place(n, #[trigger] s[k]) == c && s[k].before == v;
            assert(t[k] == s[k]);
        }
        if c == place(n, change) && v == change.before {
            assert(t[s.len() as int] == change);
        }
        if began(n, t, c, v) && !(c == place(n, change) && v == change.before) {
            let k = choose|k: int|
                0 <= k < t.len() && place(n, #[trigger] t[k]) == c && t[k].before == v;
            assert(s[k] == t[k]);
        }
    }
}

/// Are these the changes that `cells` show to have been real?
spec fn is_settled(n: int, cells: Seq<Option<u8>>, changes: Seq<Change>) -> bool {
    forall|k: int|
        0 <= k < changes.len() ==> (#[trigger] changes[k]).before != changes[k].after
            && changes[k].after == cells[place(n, changes[k])]
}

/// A change of a new cell keeps a record in order.
proof fn lemma_record_push(n: int, s: Seq<Change>, change: Change)
    requires
        is_record(n, s),
        change.texel < n,
        !recorded(n, s, place(n, change)),
    ensures
        is_record(n, s.push(change)),
{
    let t = s.push(change);
    assert forall|k: int| 0 <= k < t.len() implies (#[trigger] t[k]).texel < n by {
        if k < s.len() {
            assert(t[k] == s[k]);
        }
    }
    assert forall|j: int, k: int| 0 <= j < k < t.len() implies place(n, #[trigger] t[j]) != place(
        n,
        #[trigger] t[k],
    ) by {
        assert(t[j] == s[j]);
        if k < s.len() {
            assert(t[k] == s[k]);
        }
    }
}

/// A record without its last change is one, and does not name its cell.
proof fn lemma_record_drop(n: int, s: Seq<Change>)
    requires
        is_record(n, s),
        s.len() > 0,
    ensures
        is_record(n, s.drop_last()),
        !recorded(n, s.drop_last(), place(n, s.last())),
        s.last().texel < n,
{
    let t = s.drop_last();
    assert(s[s.len() - 1] == s.last());
    assert forall|k: int| 0 <= k < t.len() implies (#[trigger] t[k]).texel < n by {
        assert(t[k] == s[k]);
    }
    assert forall|j: int, k: int| 0 <= j < k < t.len() implies place(n, #[trigger] t[j]) != place(
        n,
        #[trigger] t[k],
    ) by {
        assert(t[j] == s[j]);
        assert(t[k] == s[k]);
    }
    if recorded(n, t, place(n, s.last())) {
        let k = choose|k: int|
            0 <= k < t.len() && place(n, #[trigger] t[k]) == place(n, s.last());
        assert(t[k] == s[k]);
        assert(place(n, s[k]) != place(n, s[s.len() - 1]));
    }
}

/// What a stroke settles to: every texel that ended elsewhere than it began,
/// once, with both its heights.
proof fn lemma_settled(n: int, cells: Seq<Option<u8>>, s: Seq<Change>)
    requires
        is_record(n, s),
    ensures
        is_record(n, settled(n, cells, s)),
        is_settled(n, cells, settled(n, cells, s)),
        forall|c: int, v: Option<u8>| #[trigger]
            began(n, settled(n, cells, s), c, v) == (began(n, s, c, v) && v != cells[c]),
        forall|c: int| #[trigger]
            recorded(n, settled(n, cells, s), c) ==> recorded(n, s, c),
    decreases s.len(),
{
    if s.len() > 0 {
        let t = s.drop_last();
        let last = s.last();
        assert(t.push(last) =~= s);
        lemma_record_drop(n, s);
        lemma_settled(n, cells, t);
        lemma_began_push(n, t, last);
        lemma_recorded_push(n, t, last);
        let rest = settled(n, cells, t);
        let after = cells[place(n, last)];
        if last.before != after {
            let change = Change { after, ..last };
            lemma_record_push(n, rest, change);
            lemma_began_push(n, rest, change);
            lemma_recorded_push(n, rest, change);
            assert(is_settled(n, cells, rest.push(change)));
        }
    }
}

// ------------------------------------------------------------------ the laws

proof fn lemma_put_back(n: int, cells: Seq<Option<u8>>, s: Seq<Change>)
    requires
        is_record(n, s),
        cells.len() == 4 * n,
    ensures
        put_back(n, cells, s).len() == cells.len(),
        forall|c: int|
            0 <= c < cells.len() && !recorded(n, s, c) ==> #[trigger] put_back(n, cells, s)[c]
                == cells[c],
        forall|k: int|
            #![trigger s[k]]
            0 <= k < s.len() ==> put_back(n, cells, s)[place(n, s[k])] == s[k].before,
    decreases s.len(),
{
    if s.len() > 0 {
        let t = s.drop_last();
        assert(t.push(s.last()) =~= s);
        lemma_record_drop(n, s);
        lemma_put_back(n, cells, t);
        lemma_recorded_push(n, t, s.last());
        lemma_cell(n, s.last().side, s.last().texel as int);
        assert forall|k: int|
            #![trigger s[k]]
            0 <= k < s.len() implies put_back(n, cells, s)[place(n, s[k])] == s[k].before by {
            if k < t.len() {
                assert(t[k] == s[k]);
                assert(place(n, s[k]) != place(n, s[s.len() - 1]));
            }
        }
    }
}

proof fn lemma_put_again(n: int, cells: Seq<Option<u8>>, s: Seq<Change>)
    requires
        is_record(n, s),
        cells.len() == 4 * n,
    ensures
        put_again(n, cells, s).len() == cells.len(),
        forall|c: int|
            0 <= c < cells.len() && !recorded(n, s, c) ==> #[trigger] put_again(n, cells, s)[c]
                == cells[c],
        forall|k: int|
            #![trigger s[k]]
            0 <= k < s.len() ==> put_again(n, cells, s)[place(n, s[k])] == s[k].after,
    decreases s.len(),
{
    if s.len() > 0 {
        let t = s.drop_last();
        assert(t.push(s.last()) =~= s);
        lemma_record_drop(n, s);
        lemma_put_again(n, cells, t);
        lemma_recorded_push(n, t, s.last());
        lemma_cell(n, s.last().side, s.last().texel as int);
        assert forall|k: int|
            #![trigger s[k]]
            0 <= k < s.len() implies put_again(n, cells, s)[place(n, s[k])] == s[k].after by {
            if k < t.len() {
                assert(t[k] == s[k]);
                assert(place(n, s[k]) != place(n, s[s.len() - 1]));
            }
        }
    }
}

/// Do the cells hold what this edit left in them?
pub open spec fn holds(n: int, cells: Seq<Option<u8>>, edit: Seq<Change>) -> bool {
    forall|k: int| 0 <= k < edit.len() ==> (#[trigger] edit[k]).after == cells[place(n, edit[k])]
}

/// Do the cells hold what this edit found in them?
pub open spec fn awaits(n: int, cells: Seq<Option<u8>>, edit: Seq<Change>) -> bool {
    forall|k: int| 0 <= k < edit.len() ==> (#[trigger] edit[k]).before == cells[place(n, edit[k])]
}

/// Do the writes name texels of the canvases?
pub open spec fn are_writes(n: int, writes: Seq<Write>) -> bool {
    forall|k: int| 0 <= k < writes.len() ==> (#[trigger] writes[k]).1 < n
}

/// While a stroke is on, what it recorded and what is on the canvases together
/// still tell the heights that it began with.
spec fn remembers(sheet: Sheet, start: Seq<Option<u8>>) -> bool {
    &&& sheet.stroke.is_some()
    &&& start.len() == sheet.cells.len()
    &&& forall|c: int|
        0 <= c < start.len() && !recorded(sheet.n(), sheet.stroke.unwrap(), c)
            ==> #[trigger] sheet.cells[c] == start[c]
    &&& awaits(sheet.n(), start, sheet.stroke.unwrap())
}

pub proof fn lemma_write_push(sheet: Sheet, writes: Seq<Write>, write: Write)
    ensures
        sheet.write_all(writes.push(write)) == sheet.write_all(writes).write(write),
{
    assert(writes.push(write).drop_last() =~= writes);
}

/// What every write leaves alone.
pub proof fn lemma_write_all_frame(sheet: Sheet, writes: Seq<Write>)
    requires
        sheet.wf(),
        are_writes(sheet.n(), writes),
    ensures
        sheet.write_all(writes).wf(),
        sheet.write_all(writes).w == sheet.w,
        sheet.write_all(writes).h == sheet.h,
        sheet.write_all(writes).selection == sheet.selection,
        sheet.write_all(writes).undo == sheet.undo,
        sheet.write_all(writes).redo == sheet.redo,
        sheet.write_all(writes).last_texel == sheet.last_texel,
        sheet.write_all(writes).stroke.is_some() == sheet.stroke.is_some(),
    decreases writes.len(),
{
    if writes.len() > 0 {
        let rest = writes.drop_last();
        assert forall|k: int| 0 <= k < rest.len() implies (#[trigger] rest[k]).1 < sheet.n() by {
            assert(rest[k] == writes[k]);
        }
        lemma_write_all_frame(sheet, rest);
        let mid = sheet.write_all(rest);
        let (side, texel, value) = writes.last();
        assert(writes[writes.len() - 1] == writes.last());
        let n = sheet.n();
        let c = cell(n, side, texel as int);
        lemma_cell(n, side, texel as int);
        if mid.stroke.is_some() && !recorded(n, mid.stroke.unwrap(), c) {
            let change = Change { side, texel, before: mid.cells[c], after: value };
            lemma_record_push(n, mid.stroke.unwrap(), change);
        }
    }
}

proof fn lemma_remembers(sheet: Sheet, start: Seq<Option<u8>>, writes: Seq<Write>)
    requires
        sheet.wf(),
        remembers(sheet, start),
        are_writes(sheet.n(), writes),
    ensures
        remembers(sheet.write_all(writes), start),
    decreases writes.len(),
{
    if writes.len() > 0 {
        let rest = writes.drop_last();
        assert forall|k: int| 0 <= k < rest.len() implies (#[trigger] rest[k]).1 < sheet.n() by {
            assert(rest[k] == writes[k]);
        }
        lemma_write_all_frame(sheet, rest);
        lemma_remembers(sheet, start, rest);
        let mid = sheet.write_all(rest);
        let (side, texel, value) = writes.last();
        assert(writes[writes.len() - 1] == writes.last());
        let n = sheet.n();
        let c = cell(n, side, texel as int);
        lemma_cell(n, side, texel as int);
        let s = mid.stroke.unwrap();
        if !recorded(n, s, c) {
            let change = Change { side, texel, before: mid.cells[c], after: value };
            lemma_recorded_push(n, s, change);
            assert(mid.cells[c] == start[c]);
        }
    }
}

/// A stroke leaves the canvases and the history in order.
pub proof fn lemma_stroke_wf(sheet: Sheet, writes: Seq<Write>)
    requires
        sheet.wf(),
        are_writes(sheet.n(), writes),
    ensures
        sheet.begun().write_all(writes).ended().wf(),
{
    let n = sheet.n();
    assert(sheet.begun().wf());
    lemma_write_all_frame(sheet.begun(), writes);
    let painted = sheet.begun().write_all(writes);
    let edit = settled(n, painted.cells, painted.stroke.unwrap());
    lemma_settled(n, painted.cells, painted.stroke.unwrap());
    if edit.len() > 0 {
        let longer = sheet.undo.push(edit);
        assert(is_edit(n, edit));
        assert(all_edits(n, longer));
        assert(all_edits(n, longer.remove(0)));
    }
}

/// A stroke undoes and redoes as one. Whatever was written between begin and
/// end, and however often a texel was crossed: where the stroke changed
/// anything, one undo gives back the canvases it began with and one redo those
/// it ended with. Where everything ended as it began, nothing was recorded.
pub proof fn law_a_stroke_undoes_and_redoes_as_one(sheet: Sheet, writes: Seq<Write>)
    requires
        sheet.wf(),
        are_writes(sheet.n(), writes),
    ensures
        ({
            let painted = sheet.begun().write_all(writes);
            let ended = painted.ended();
            &&& ended.cells == painted.cells
            &&& painted.cells == sheet.cells ==> ended.undo == sheet.undo && ended.redo
                == sheet.redo
            &&& painted.cells != sheet.cells ==> {
                &&& ended.undo.len() > 0
                &&& ended.redo.len() == 0
                &&& ended.undone().cells == sheet.cells
                &&& ended.undone().redone().cells == painted.cells
                &&& settled(sheet.n(), painted.cells, painted.stroke.unwrap()).len() > 0
                &&& ended.undo.last() == settled(
                    sheet.n(),
                    painted.cells,
                    painted.stroke.unwrap(),
                )
                &&& holds(sheet.n(), ended.cells, ended.undo.last())
            }
        }),
{
    let n = sheet.n();
    let begun = sheet.begun();
    let painted = begun.write_all(writes);
    let ended = painted.ended();
    assert(begun.wf());
    assert(remembers(begun, sheet.cells));
    lemma_write_all_frame(begun, writes);
    lemma_remembers(begun, sheet.cells, writes);
    let s = painted.stroke.unwrap();
    let edit = settled(n, painted.cells, s);
    lemma_settled(n, painted.cells, s);
    lemma_put_back(n, painted.cells, edit);
    let back = put_back(n, painted.cells, edit);
    // Every cell comes back: the recorded ones that moved from the edit, the
    // others because they never moved.
    assert forall|c: int| 0 <= c < back.len() implies #[trigger] back[c] == sheet.cells[c] by {
        if recorded(n, edit, c) {
            let k = choose|k: int| 0 <= k < edit.len() && place(n, #[trigger] edit[k]) == c;
            assert(began(n, edit, c, edit[k].before));
            assert(began(n, s, c, edit[k].before));
            let j = choose|j: int|
                0 <= j < s.len() && place(n, #[trigger] s[j]) == c && s[j].before
                    == edit[k].before;
            assert(s[j].before == sheet.cells[c]);
        } else {
            assert(back[c] == painted.cells[c]);
            if recorded(n, s, c) {
                let j = choose|j: int| 0 <= j < s.len() && place(n, #[trigger] s[j]) == c;
                assert(s[j].before == sheet.cells[c]);
                assert(began(n, s, c, s[j].before));
                if s[j].before != painted.cells[c] {
                    assert(began(n, edit, c, s[j].before));
                    let k = choose|k: int|
                        0 <= k < edit.len() && place(n, #[trigger] edit[k]) == c && edit[k].before
                            == s[j].before;
                    assert(recorded(n, edit, c));
                }
            }
        }
    }
    assert(back =~= sheet.cells);
    if edit.len() == 0 {
        assert(painted.cells == sheet.cells);
    } else {
        let e = edit[0];
        lemma_cell(n, e.side, e.texel as int);
        assert(back[place(n, e)] == e.before);
        assert(painted.cells[place(n, e)] == e.after);
        assert(painted.cells != sheet.cells);
        assert(ended.undo.last() == edit);
        let undone = ended.undone();
        assert(undone.redo.last() == edit);
        lemma_put_again(n, back, edit);
        let again = put_again(n, back, edit);
        assert forall|c: int| 0 <= c < again.len() implies #[trigger] again[c]
            == painted.cells[c] by {
            if recorded(n, edit, c) {
                let k = choose|k: int| 0 <= k < edit.len() && place(n, #[trigger] edit[k]) == c;
                assert(again[place(n, edit[k])] == edit[k].after);
            } else {
                assert(back[c] == painted.cells[c]);
            }
        }
        assert(again =~= painted.cells);
    }
}

/// Undo, then redo: the canvases and the history are as they were, whenever
/// the canvases hold what the edit on top left in them.
pub proof fn law_redo_takes_back_undo(sheet: Sheet)
    requires
        sheet.wf(),
        sheet.undo.len() > 0,
        holds(sheet.n(), sheet.cells, sheet.undo.last()),
    ensures
        sheet.undone().redone().cells == sheet.cells,
        sheet.undone().redone().undo == sheet.undo,
        sheet.undone().redone().redo == sheet.redo,
        awaits(sheet.n(), sheet.undone().cells, sheet.undone().redo.last()),
{
    let n = sheet.n();
    let edit = sheet.undo.last();
    assert(sheet.undo[sheet.undo.len() - 1] == edit);
    assert(is_edit(n, edit));
    lemma_put_back(n, sheet.cells, edit);
    let back = put_back(n, sheet.cells, edit);
    lemma_put_again(n, back, edit);
    assert(sheet.undone().redo.last() == edit);
    assert(sheet.undone().redo.drop_last() =~= sheet.redo);
    assert(sheet.undone().undo.push(edit) =~= sheet.undo);
    let again = put_again(n, back, edit);
    assert forall|c: int| 0 <= c < again.len() implies #[trigger] again[c] == sheet.cells[c] by {
        if recorded(n, edit, c) {
            let k = choose|k: int| 0 <= k < edit.len() && place(n, #[trigger] edit[k]) == c;
            assert(again[place(n, edit[k])] == edit[k].after);
        } else {
            assert(back[c] == sheet.cells[c]);
        }
    }
    assert(again =~= sheet.cells);
}

/// Redo, then undo: the same the other way round.
pub proof fn law_undo_takes_back_redo(sheet: Sheet)
    requires
        sheet.wf(),
        sheet.redo.len() > 0,
        awaits(sheet.n(), sheet.cells, sheet.redo.last()),
    ensures
        sheet.redone().undone().cells == sheet.cells,
        sheet.redone().undone().undo == sheet.undo,
        sheet.redone().undone().redo == sheet.redo,
        holds(sheet.n(), sheet.redone().cells, sheet.redone().undo.last()),
{
    let n = sheet.n();
    let edit = sheet.redo.last();
    assert(sheet.redo[sheet.redo.len() - 1] == edit);
    assert(is_edit(n, edit));
    lemma_put_again(n, sheet.cells, edit);
    let again = put_again(n, sheet.cells, edit);
    lemma_put_back(n, again, edit);
    assert(sheet.redone().undo.last() == edit);
    assert(sheet.redone().undo.drop_last() =~= sheet.undo);
    assert(sheet.redone().redo.push(edit) =~= sheet.redo);
    let back = put_back(n, again, edit);
    assert forall|c: int| 0 <= c < back.len() implies #[trigger] back[c] == sheet.cells[c] by {
        if recorded(n, edit, c) {
            let k = choose|k: int| 0 <= k < edit.len() && place(n, #[trigger] edit[k]) == c;
            assert(back[place(n, edit[k])] == edit[k].before);
        } else {
            assert(again[c] == sheet.cells[c]);
        }
    }
    assert(back =~= sheet.cells);
}

/// Is the history in step with the canvases: does every stroke on the undo
/// stack fit on what undoing the later ones gives, and every stroke on the
/// redo stack on what redoing the earlier ones gives?
pub open spec fn undo_fits(n: int, cells: Seq<Option<u8>>, undo: Seq<Seq<Change>>) -> bool
    decreases undo.len(),
{
    undo.len() > 0 ==> holds(n, cells, undo.last()) && undo_fits(
        n,
        put_back(n, cells, undo.last()),
        undo.drop_last(),
    )
}

pub open spec fn redo_fits(n: int, cells: Seq<Option<u8>>, redo: Seq<Seq<Change>>) -> bool
    decreases redo.len(),
{
    redo.len() > 0 ==> awaits(n, cells, redo.last()) && redo_fits(
        n,
        put_again(n, cells, redo.last()),
        redo.drop_last(),
    )
}

impl Sheet {
    /// The history is in step with the canvases.
    pub open spec fn in_step(self) -> bool {
        undo_fits(self.n(), self.cells, self.undo) && redo_fits(self.n(), self.cells, self.redo)
    }

    pub open spec fn undone_times(self, k: nat) -> Sheet
        decreases k,
    {
        if k == 0 {
            self
        } else {
            self.undone_times((k - 1) as nat).undone()
        }
    }

    pub open spec fn redone_times(self, k: nat) -> Sheet
        decreases k,
    {
        if k == 0 {
            self
        } else {
            self.redone().redone_times((k - 1) as nat)
        }
    }
}

proof fn lemma_drop_first(n: int, cells: Seq<Option<u8>>, undo: Seq<Seq<Change>>)
    requires
        undo.len() > 0,
        undo_fits(n, cells, undo),
    ensures
        undo_fits(n, cells, undo.remove(0)),
    decreases undo.len(),
{
    if undo.len() > 1 {
        lemma_drop_first(n, put_back(n, cells, undo.last()), undo.drop_last());
        assert(undo.remove(0).last() == undo.last());
        assert(undo.remove(0).drop_last() =~= undo.drop_last().remove(0));
    }
}

/// The history stays in step with the canvases through undo and redo.
pub proof fn law_history_stays_in_step(sheet: Sheet)
    requires
        sheet.wf(),
        sheet.in_step(),
    ensures
        sheet.undone().wf(),
        sheet.undone().in_step(),
        sheet.redone().wf(),
        sheet.redone().in_step(),
{
    let n = sheet.n();
    if sheet.undo.len() > 0 {
        law_redo_takes_back_undo(sheet);
        let edit = sheet.undo.last();
        assert(sheet.undo[sheet.undo.len() - 1] == edit);
        lemma_put_back(n, sheet.cells, edit);
        assert(sheet.undone().redo.drop_last() =~= sheet.redo);
        assert(put_again(n, sheet.undone().cells, sheet.undone().redo.last()) == sheet.cells);
    }
    if sheet.redo.len() > 0 {
        law_undo_takes_back_redo(sheet);
        let edit = sheet.redo.last();
        assert(sheet.redo[sheet.redo.len() - 1] == edit);
        lemma_put_again(n, sheet.cells, edit);
        assert(sheet.redone().undo.drop_last() =~= sheet.undo);
        assert(put_back(n, sheet.redone().cells, sheet.redone().undo.last()) == sheet.cells);
    }
}

/// And through a whole stroke.
pub proof fn law_a_stroke_keeps_history_in_step(sheet: Sheet, writes: Seq<Write>)
    requires
        sheet.wf(),
        sheet.in_step(),
        are_writes(sheet.n(), writes),
    ensures
        sheet.begun().write_all(writes).ended().wf(),
        sheet.begun().write_all(writes).ended().in_step(),
{
    lemma_stroke_wf(sheet, writes);
    let n = sheet.n();
    let painted = sheet.begun().write_all(writes);
    let ended = painted.ended();
    law_a_stroke_undoes_and_redoes_as_one(sheet, writes);
    assert(sheet.begun().wf());
    lemma_write_all_frame(sheet.begun(), writes);
    if painted.cells != sheet.cells {
        let edit = settled(n, painted.cells, painted.stroke.unwrap());
        let longer = sheet.undo.push(edit);
        assert(ended.undo.last() == edit);
        assert(put_back(n, painted.cells, edit) == sheet.cells);
        assert(longer.drop_last() =~= sheet.undo);
        assert(undo_fits(n, painted.cells, longer));
        lemma_drop_first(n, painted.cells, longer);
    }
}

/// However far one goes back, as many steps forward return to the same
/// canvases.
pub proof fn law_redo_retraces_undo(sheet: Sheet, k: nat)
    requires
        sheet.wf(),
        sheet.in_step(),
        k <= sheet.undo.len(),
    ensures
        sheet.undone_times(k).wf(),
        sheet.undone_times(k).in_step(),
        sheet.undone_times(k).undo.len() == sheet.undo.len() - k,
        sheet.undone_times(k).redone_times(k).cells == sheet.cells,
        sheet.undone_times(k).redone_times(k).undo == sheet.undo,
        sheet.undone_times(k).redone_times(k).redo == sheet.redo,
    decreases k,
{
    if k > 0 {
        let j = (k - 1) as nat;
        let mid = sheet.undone_times(j);
        law_redo_retraces_undo(sheet, j);
        law_history_stays_in_step(mid);
        law_redo_takes_back_undo(mid);
        let back = mid.undone().redone();
        lemma_redo_alike(back, mid, j);
    }
}

/// Redo looks only at the canvases and the history.
proof fn lemma_redo_alike(a: Sheet, b: Sheet, k: nat)
    requires
        a.w == b.w,
        a.h == b.h,
        a.cells == b.cells,
        a.undo == b.undo,
        a.redo == b.redo,
    ensures
        a.redone_times(k).cells == b.redone_times(k).cells,
        a.redone_times(k).undo == b.redone_times(k).undo,
        a.redone_times(k).redo == b.redone_times(k).redo,
    decreases k,
{
    if k > 0 {
        lemma_redo_alike(a.redone(), b.redone(), (k - 1) as nat);
    }
}

/// Every texel that fits on both the old canvas and the new keeps its height
/// through a change of size, a texel that is new is bare, and neither
/// selection nor history outlives it.
pub proof fn law_resize_keeps_what_still_fits(
    sheet: Sheet,
    w: int,
    h: int,
    side: Side,
    x: int,
    y: int,
)
    requires
        sheet.wf(),
        1 <= w <= MAX_SIDE,
        1 <= h <= MAX_SIDE,
        crate::grid::on_canvas(w, h, x, y),
    ensures
        sheet.resized(w, h).get(side, x, y) == sheet.get(side, x, y),
        w != sheet.w || h != sheet.h ==> {
            &&& crate::grid::count(sheet.resized(w, h).selection) == 0
            &&& sheet.resized(w, h).undo.len() == 0
            &&& sheet.resized(w, h).redo.len() == 0
        },
{
    if w != sheet.w || h != sheet.h {
        let next = sheet.resized(w, h);
        crate::grid::lemma_texel(w, h, x, y);
        lemma_cell(w * h, side, crate::grid::texel(w, x, y));
        crate::grid::lemma_count_none(next.selection);
        assert(next.get(side, x, y) == sheet.kept(side.nth(), x, y));
    }
}

/// The revision that follows another.
pub open spec fn follows(before: u64, after: u64) -> bool {
    after == before + 1 || (before == u64::MAX && after == 0)
}

/// Every change shows: whatever moves a texel, the selection or the size leaves
/// everything downstream stale and under a new revision, and a write that moves
/// nothing leaves everything as it was.
pub proof fn law_every_change_shows(s: Sheet, write: Write, w: int, h: int, selection: Seq<bool>)
    requires
        s.wf(),
        write.1 < s.n(),
    ensures
        s.at(write.0, write.1 as int) == write.2 ==> s.write(write) == s,
        s.at(write.0, write.1 as int) != write.2 ==> {
            let after = s.write(write);
            &&& after.at(write.0, write.1 as int) == write.2
            &&& after.dirty
            &&& follows(s.revision, after.revision)
        },
        forall|side: Side, i: int|
            0 <= i < s.n() && !(side == write.0 && i == write.1) ==> #[trigger] s.write(write).at(
                side,
                i,
            ) == s.at(side, i),
        s.undo.len() > 0 ==> s.undone().dirty && follows(s.revision, s.undone().revision),
        s.redo.len() > 0 ==> s.redone().dirty && follows(s.revision, s.redone().revision),
        s.undo.len() == 0 ==> s.undone() == s,
        s.redo.len() == 0 ==> s.redone() == s,
        w != s.w || h != s.h ==> s.resized(w, h).dirty && follows(
            s.revision,
            s.resized(w, h).revision,
        ),
        s.resized(s.w, s.h) == s,
        s.selecting(selection).selection == selection,
        s.selecting(selection).cells == s.cells,
        s.selecting(selection).dirty && follows(s.revision, s.selecting(selection).revision),
        s.marked().dirty && follows(s.revision, s.marked().revision),
        s.marked().cells == s.cells && s.marked().selection == s.selection,
{
    let c = cell(s.n(), write.0, write.1 as int);
    lemma_cell(s.n(), write.0, write.1 as int);
    assert forall|side: Side, i: int|
        0 <= i < s.n() && !(side == write.0 && i == write.1) implies #[trigger] s.write(write).at(
        side,
        i,
    ) == s.at(side, i) by {
        lemma_cells_apart(s.n(), side, i, write.0, write.1 as int);
    }
}

/// A stroke records each texel that it moves, once, with what it held before;
/// without a stroke nothing is recorded.
pub proof fn law_a_stroke_records_what_it_moves(s: Sheet, write: Write)
    requires
        s.wf(),
        write.1 < s.n(),
        s.at(write.0, write.1 as int) != write.2,
    ensures
        s.stroke is None ==> s.write(write).stroke is None,
        s.stroke is Some ==> s.write(write).stroke is Some && recorded(
            s.n(),
            s.write(write).stroke.unwrap(),
            cell(s.n(), write.0, write.1 as int),
        ),
        s.stroke is Some && !recorded(
            s.n(),
            s.stroke.unwrap(),
            cell(s.n(), write.0, write.1 as int),
        ) ==> {
            let last = s.write(write).stroke.unwrap().last();
            &&& last.side == write.0
            &&& last.texel == write.1
            &&& last.before == s.at(write.0, write.1 as int)
        },
{
    if s.stroke is Some {
        let t = s.stroke.unwrap();
        let c = cell(s.n(), write.0, write.1 as int);
        let change = Change {
            side: write.0,
            texel: write.1,
            before: s.cells[c],
            after: write.2,
        };
        lemma_recorded_push(s.n(), t, change);
    }
}

/// Beginning and ending a stroke move nothing on the canvases.
pub proof fn law_a_stroke_begins_and_ends_in_place(s: Sheet)
    ensures
        s.begun().cells == s.cells,
        s.begun().selection == s.selection,
        s.begun().w == s.w && s.begun().h == s.h,
        s.begun().undo == s.undo && s.begun().redo == s.redo,
        s.begun().revision == s.revision && s.begun().dirty == s.dirty,
        s.begun().stroke is Some && s.begun().stroke.unwrap().len() == 0,
        s.begun().last_texel is None,
        s.ended().cells == s.cells,
        s.ended().selection == s.selection,
        s.ended().w == s.w && s.ended().h == s.h,
        s.ended().revision == s.revision && s.ended().dirty == s.dirty,
        s.ended().stroke is None,
        s.ended().last_texel is None,
        s.stroke is None ==> s.ended().undo == s.undo && s.ended().redo == s.redo,
{
}

/// No canvas is longer than 512 texels a side, and no more than 64 strokes are
/// kept.
pub proof fn law_canvases_are_bounded(s: Sheet)
    requires
        s.wf(),
    ensures
        1 <= s.w <= 512,
        1 <= s.h <= 512,
        s.cells.len() == 4 * (s.w * s.h),
        s.selection.len() == s.w * s.h,
        s.undo.len() + s.redo.len() <= 64,
        UNDO_DEPTH == 64,
        MAX_SIDE == 512,
{
}

} // verus!
