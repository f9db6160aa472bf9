//! Round control: one object owns the board, the level and the score, and
//! exposes the reset and regeneration steps that the completion and skip
//! flows trigger — instead of a registry of callbacks scattered over the
//! game.

use crate::board_gen::generate_board;
use crate::board_gen::radius_for_level;
use crate::map::WorldMap;
use crate::map_completion::CompletedMap;
use crate::score::dead_end_penalty;
use crate::score::route_score_delta;
use crate::score::update_level;
use crate::score::update_score;
use crate::score::Level;
use crate::score::Score;
use vstd::prelude::*;

verus! {

/// The mutable state of one play session: the current board, the level
/// that shaped it, and the running score.
pub struct RoundController {
    pub level: Level,
    pub score: Score,
    pub map: WorldMap,
}

/// A board fresh from the generator: well-formed, sized for the level,
/// with at least one house and no route edges yet.
pub open spec fn fresh_board(m: WorldMap, level: u32) -> bool {
    &&& m.wf()
    &&& m.map_radius == radius_for_level(level)
    &&& m.houses@.len() >= 1
    &&& m.edge_connection_nodes@.len() == 0
    &&& forall|x: int, y: int| !m.graph.has_edge(x, y)
}

impl RoundController {
    /// Starts a session at the first level with an empty score.
    pub fn new() -> (r: Self)
        ensures
            r.level.0 == 0,
            r.score.0 == 0,
            fresh_board(r.map, 0),
    {
        RoundController { level: Level(0), score: Score(0), map: generate_board(0) }
    }

    /// Throws the board away and regenerates one for the current level;
    /// level and score are untouched.
    pub fn reset(&mut self)
        ensures
            final(self).level == old(self).level,
            final(self).score == old(self).score,
            fresh_board(final(self).map, final(self).level.0),
    {
        self.map = generate_board(self.level.0);
    }

    /// Books a completed board: awards ten points per route, subtracts one
    /// per dead end, advances the level and regenerates the board for it.
    pub fn complete_round(&mut self, completed: &CompletedMap)
        requires
            old(self).level.0 < u32::MAX,
            completed.routes@.len() <= 0x0ccc_cccc,
            completed.dead_ends@.len() <= 0x7fff_ffff,
        ensures
            final(self).level.0 == old(self).level.0 + 1,
            final(self).score.0 as int == {
                let awarded = if old(self).score.0 + completed.routes@.len() * 10 <= u32::MAX {
                    old(self).score.0 + completed.routes@.len() * 10
                } else {
                    u32::MAX as int
                };
                if awarded - completed.dead_ends@.len() >= 0 {
                    awarded - completed.dead_ends@.len()
                } else {
                    0
                }
            },
            fresh_board(final(self).map, final(self).level.0),
    {
        update_score(&mut self.score, route_score_delta(completed));
        update_score(&mut self.score, dead_end_penalty(completed));
        update_level(&mut self.level);
        self.map = generate_board(self.level.0);
    }
}

} // verus!
