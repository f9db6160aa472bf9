//! Score and level bookkeeping: the arithmetic behind the score display.

use crate::map_completion::CompletedMap;
use vstd::prelude::*;

verus! {

/// The running score of the round.
#[derive(Clone, Copy, Debug, PartialEq, Eq, Structural)]
pub struct Score(pub u32);

/// The current level; it drives the generated board's size and houses.
#[derive(Clone, Copy, Debug, PartialEq, Eq, Structural)]
pub struct Level(pub u32);

/// Applies one score event: negative deltas saturate at zero, positive
/// ones at the counter's ceiling.
pub fn update_score(score: &mut Score, delta: i32)
    ensures
        final(score).0 as int == if delta >= 0 {
            if old(score).0 + delta <= u32::MAX {
                old(score).0 + delta
            } else {
                u32::MAX as int
            }
        } else {
            if old(score).0 + delta >= 0 {
                old(score).0 + delta
            } else {
                0
            }
        },
{
    if delta >= 0 {
        let d = delta as u32;
        if score.0 <= u32::MAX - d {
            score.0 = score.0 + d;
        } else {
            score.0 = u32::MAX;
        }
    } else {
        let d = (-(delta as i64)) as u64;
        if score.0 as u64 >= d {
            score.0 = (score.0 as u64 - d) as u32;
        } else {
            score.0 = 0;
        }
    }
}

/// The points a completed board awards: ten per connected route.
pub fn route_score_delta(completed: &CompletedMap) -> (d: i32)
    requires
        completed.routes@.len() <= 0x0ccc_cccc,
    ensures
        d as int == completed.routes@.len() * 10,
{
    (completed.routes.len() * 10) as i32
}

/// The penalty a completed board subtracts: one point per dead end.
pub fn dead_end_penalty(completed: &CompletedMap) -> (d: i32)
    requires
        completed.dead_ends@.len() <= 0x7fff_ffff,
    ensures
        d as int == -(completed.dead_ends@.len() as int),
{
    -(completed.dead_ends.len() as i32)
}

/// Advances the level after a completed board.
pub fn update_level(lvl: &mut Level)
    requires
        old(lvl).0 < u32::MAX,
    ensures
        final(lvl).0 == old(lvl).0 + 1,
{
    lvl.0 = lvl.0 + 1;
}

} // verus!
