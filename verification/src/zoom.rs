//! The zoom ladder: powers of two, from a sixty-fourth to sixty-four times, so
//! texels never come out uneven.

use vstd::prelude::*;

verus! {

/// The lowest rung, as a power of two.
pub const LOWEST: i32 = -6;

/// The highest rung, as a power of two.
pub const HIGHEST: i32 = 6;

/// Can `test` be asked of every rung?
pub open spec fn asks_rungs<F: Fn(i32) -> bool>(test: F) -> bool {
    forall|rung: i32| LOWEST <= rung <= HIGHEST ==> #[trigger] test.requires((rung,))
}

/// The highest rung that `reached` holds of, or the lowest rung where it holds
/// of none.
pub fn snap<F: Fn(i32) -> bool>(reached: F) -> (rung: i32)
    requires
        asks_rungs(reached),
    ensures
        LOWEST <= rung <= HIGHEST,
        forall|k: i32| rung < k <= HIGHEST ==> #[trigger] reached.ensures((k,), false),
        reached.ensures((rung,), true) || (rung == LOWEST && reached.ensures((rung,), false)),
{
    let mut rung: i32 = HIGHEST;
    while rung > LOWEST
        invariant
            LOWEST <= rung <= HIGHEST,
            asks_rungs(reached),
            forall|k: i32| rung < k <= HIGHEST ==> #[trigger] reached.ensures((k,), false),
        decreases rung - LOWEST,
    {
        if reached(rung) {
            return rung;
        }
        rung -= 1;
    }
    let _ = reached(rung);
    rung
}

/// The next rung up: the lowest that `above` holds of, or the highest rung
/// where it holds of none.
pub fn step_up<F: Fn(i32) -> bool>(above: F) -> (rung: i32)
    requires
        asks_rungs(above),
    ensures
        LOWEST <= rung <= HIGHEST,
        forall|k: i32| LOWEST <= k < rung ==> #[trigger] above.ensures((k,), false),
        above.ensures((rung,), true) || (rung == HIGHEST && above.ensures((rung,), false)),
{
    let mut rung: i32 = LOWEST;
    while rung < HIGHEST
        invariant
            LOWEST <= rung <= HIGHEST,
            asks_rungs(above),
            forall|k: i32| LOWEST <= k < rung ==> #[trigger] above.ensures((k,), false),
        decreases HIGHEST - rung,
    {
        if above(rung) {
            return rung;
        }
        rung += 1;
    }
    let _ = above(rung);
    rung
}

} // verus!
