//! Texels on a canvas: their order in memory, which of them touch, and which
//! regions hang together.

use vstd::prelude::*;

verus! {

/// Is `(x, y)` a texel of a canvas `w` wide and `h` high?
pub open spec fn on_canvas(w: int, h: int, x: int, y: int) -> bool {
    0 <= x < w && 0 <= y < h
}

/// Where a texel lies in memory: row by row, from the top.
pub open spec fn texel(w: int, x: int, y: int) -> int {
    y * w + x
}

/// Do two texels share an edge?
pub open spec fn touching(a: (int, int), b: (int, int)) -> bool {
    ||| a.1 == b.1 && (a.0 - b.0 == 1 || b.0 - a.0 == 1)
    ||| a.0 == b.0 && (a.1 - b.1 == 1 || b.1 - a.1 == 1)
}

/// A walk over open texels, each sharing an edge with the one before it.
pub open spec fn is_walk(open: spec_fn((int, int)) -> bool, walk: Seq<(int, int)>) -> bool {
    &&& walk.len() > 0
    &&& forall|i: int| 0 <= i < walk.len() ==> open(#[trigger] walk[i])
    &&& forall|i: int| 0 < i < walk.len() ==> touching(walk[i - 1], #[trigger] walk[i])
}

/// Can `b` be reached from `a` without leaving the open texels?
pub open spec fn connected(
    open: spec_fn((int, int)) -> bool,
    a: (int, int),
    b: (int, int),
) -> bool {
    exists|walk: Seq<(int, int)>| #[trigger]
        is_walk(open, walk) && walk[0] == a && walk.last() == b
}

/// How many entries are set.
pub open spec fn count(marks: Seq<bool>) -> nat
    decreases marks.len(),
{
    if marks.len() == 0 {
        0
    } else {
        count(marks.drop_last()) + (if marks.last() {
            1nat
        } else {
            0nat
        })
    }
}

pub proof fn lemma_texel(w: int, h: int, x: int, y: int)
    requires
        on_canvas(w, h, x, y),
    ensures
        0 <= texel(w, x, y) < w * h,
        texel(w, x, y) / w == y,
        texel(w, x, y) % w == x,
{
    assert(0 <= y * w + x < w * h) by (nonlinear_arith)
        requires
            0 <= x < w,
            0 <= y < h,
    ;
    vstd::arithmetic::div_mod::lemma_fundamental_div_mod_converse(y * w + x, w, y, x);
}

pub proof fn lemma_texel_onto(w: int, h: int, i: int)
    requires
        0 <= i < w * h,
        w > 0,
        h >= 0,
    ensures
        on_canvas(w, h, i % w, i / w),
        texel(w, i % w, i / w) == i,
{
    vstd::arithmetic::div_mod::lemma_fundamental_div_mod(i, w);
    assert(0 <= i / w < h) by (nonlinear_arith)
        requires
            0 <= i < w * h,
            w > 0,
            i == w * (i / w) + i % w,
            0 <= i % w < w,
    ;
    assert(w * (i / w) == (i / w) * w) by (nonlinear_arith);
}

pub proof fn lemma_count_bound(marks: Seq<bool>)
    ensures
        count(marks) <= marks.len(),
    decreases marks.len(),
{
    if marks.len() > 0 {
        lemma_count_bound(marks.drop_last());
    }
}

pub proof fn lemma_count_set(marks: Seq<bool>, i: int)
    requires
        0 <= i < marks.len(),
        !marks[i],
    ensures
        count(marks.update(i, true)) == count(marks) + 1,
    decreases marks.len(),
{
    let next = marks.update(i, true);
    if i == marks.len() - 1 {
        assert(next.drop_last() =~= marks.drop_last());
    } else {
        assert(next.drop_last() =~= marks.drop_last().update(i, true));
        lemma_count_set(marks.drop_last(), i);
    }
}

pub proof fn lemma_count_none(marks: Seq<bool>)
    ensures
        count(marks) == 0 <==> forall|i: int| 0 <= i < marks.len() ==> !(#[trigger] marks[i]),
    decreases marks.len(),
{
    if marks.len() > 0 {
        let rest = marks.drop_last();
        lemma_count_none(rest);
        if count(marks) == 0 {
            assert forall|i: int| 0 <= i < marks.len() implies !(#[trigger] marks[i]) by {
                if i < rest.len() {
                    assert(!rest[i]);
                }
            }
        } else if forall|i: int| 0 <= i < marks.len() ==> !(#[trigger] marks[i]) {
            assert forall|i: int| 0 <= i < rest.len() implies !(#[trigger] rest[i]) by {
                assert(!marks[i]);
            }
            assert(!marks[marks.len() - 1]);
        }
    }
}

/// One more step: what touches a reachable texel and is open is reachable.
pub proof fn lemma_connected_step(
    open: spec_fn((int, int)) -> bool,
    a: (int, int),
    b: (int, int),
    c: (int, int),
)
    requires
        connected(open, a, b),
        touching(b, c),
        open(c),
    ensures
        connected(open, a, c),
{
    let walk = choose|walk: Seq<(int, int)>| #[trigger]
        is_walk(open, walk) && walk[0] == a && walk.last() == b;
    let longer = walk.push(c);
    assert forall|i: int| 0 <= i < longer.len() implies open(#[trigger] longer[i]) by {
        if i < walk.len() {
            assert(longer[i] == walk[i]);
        }
    }
    assert forall|i: int| 0 < i < longer.len() implies touching(
        longer[i - 1],
        #[trigger] longer[i],
    ) by {
        if i < walk.len() {
            assert(touching(walk[i - 1], walk[i]));
        }
    }
    assert(is_walk(open, longer));
    assert(longer[0] == a && longer.last() == c);
}

pub proof fn lemma_connected_self(open: spec_fn((int, int)) -> bool, a: (int, int))
    requires
        open(a),
    ensures
        connected(open, a, a),
{
    let walk = seq![a];
    assert(is_walk(open, walk));
    assert(walk[0] == a && walk.last() == a);
}

/// A set that holds the start and every open texel touching it holds all that
/// can be reached.
pub proof fn lemma_connected_within(
    open: spec_fn((int, int)) -> bool,
    inside: spec_fn((int, int)) -> bool,
    a: (int, int),
    b: (int, int),
)
    requires
        connected(open, a, b),
        inside(a),
        forall|c: (int, int), d: (int, int)|
            #![trigger inside(c), touching(c, d)]
            inside(c) && touching(c, d) && open(d) ==> inside(d),
    ensures
        inside(b),
        open(b),
{
    let walk = choose|walk: Seq<(int, int)>| #[trigger]
        is_walk(open, walk) && walk[0] == a && walk.last() == b;
    lemma_walk_within(open, inside, walk, walk.len() - 1);
}

proof fn lemma_walk_within(
    open: spec_fn((int, int)) -> bool,
    inside: spec_fn((int, int)) -> bool,
    walk: Seq<(int, int)>,
    i: int,
)
    requires
        is_walk(open, walk),
        inside(walk[0]),
        0 <= i < walk.len(),
        forall|c: (int, int), d: (int, int)|
            #![trigger inside(c), touching(c, d)]
            inside(c) && touching(c, d) && open(d) ==> inside(d),
    ensures
        inside(walk[i]),
    decreases i,
{
    if i > 0 {
        lemma_walk_within(open, inside, walk, i - 1);
        assert(touching(walk[i - 1], walk[i]));
        assert(open(walk[i]));
    }
}

// ------------------------------------------------------------------ the laws

/// Texels share an edge exactly when their centres are one apart.
pub proof fn law_touching_is_one_apart(a: (int, int), b: (int, int))
    ensures
        touching(a, b) <==> (a.0 - b.0) * (a.0 - b.0) + (a.1 - b.1) * (a.1 - b.1) == 1,
{
    let dx = a.0 - b.0;
    let dy = a.1 - b.1;
    assert(dx * dx >= 0 && dy * dy >= 0) by (nonlinear_arith);
    assert(dx == 1 || dx == -1 ==> dx * dx == 1) by (nonlinear_arith);
    assert(dy == 1 || dy == -1 ==> dy * dy == 1) by (nonlinear_arith);
    assert(dx == 0 ==> dx * dx == 0) by (nonlinear_arith);
    assert(dy == 0 ==> dy * dy == 0) by (nonlinear_arith);
    if dx >= 2 || dx <= -2 {
        assert(dx * dx >= 4) by (nonlinear_arith)
            requires
                dx >= 2 || dx <= -2,
        ;
    }
    if dy >= 2 || dy <= -2 {
        assert(dy * dy >= 4) by (nonlinear_arith)
            requires
                dy >= 2 || dy <= -2,
        ;
    }
}

/// Where one texel can be reached from another, the way back is open too.
pub proof fn law_connected_goes_both_ways(
    open: spec_fn((int, int)) -> bool,
    a: (int, int),
    b: (int, int),
)
    requires
        connected(open, a, b),
    ensures
        open(a),
        open(b),
        connected(open, b, a),
{
    let walk = choose|walk: Seq<(int, int)>| #[trigger]
        is_walk(open, walk) && walk[0] == a && walk.last() == b;
    let back = walk.reverse();
    assert forall|i: int| 0 <= i < back.len() implies open(#[trigger] back[i]) by {
        assert(open(walk[walk.len() - 1 - i]));
    }
    assert forall|i: int| 0 < i < back.len() implies touching(back[i - 1], #[trigger] back[i]) by {
        assert(touching(walk[walk.len() - 1 - i], walk[walk.len() - i]));
    }
    assert(is_walk(open, back));
    assert(back[0] == b && back.last() == a);
    assert(open(walk[0]) && open(back[0]));
}

/// The order in memory is row by row: the next texel is the one to the right,
/// and the one below is a row further.
pub proof fn law_rows_follow_each_other(w: int, x: int, y: int)
    ensures
        texel(w, 0, 0) == 0,
        texel(w, x + 1, y) == texel(w, x, y) + 1,
        texel(w, x, y + 1) == texel(w, x, y) + w,
{
    assert((y + 1) * w == y * w + w) by (nonlinear_arith);
}

/// Every place in memory is a texel of the canvas, and no two texels share one.
pub proof fn law_texels_fill_the_canvas(w: int, h: int, x: int, y: int, u: int, v: int)
    requires
        0 <= x < w,
        0 <= y < h,
        0 <= u < w,
        0 <= v < h,
    ensures
        on_canvas(w, h, x, y),
        0 <= texel(w, x, y) < w * h,
        texel(w, x, y) == texel(w, u, v) <==> x == u && y == v,
        !on_canvas(w, h, -1 - x, y),
        !on_canvas(w, h, w + x, y),
        !on_canvas(w, h, x, -1 - y),
        !on_canvas(w, h, x, h + y),
{
    lemma_texel(w, h, x, y);
    lemma_texel(w, h, u, v);
}

} // verus!
