//! Route pieces: the blueprint catalog, the weighted generator, the
//! rotation handler and the drag validator's placement decisions.

use crate::hex::dir_x;
use crate::hex::dir_y;
use crate::hex::neighbor_offset;
use crate::hex::rotate_ccw_spec;
use crate::hex::rotate_cw_spec;
use crate::hex::Hex;
use crate::map::hex_add_spec;
use crate::map::TileState;
use crate::map::WorldMap;
use crate::map_completion::CompletedMap;
use crate::rng::pick_index;
use crate::rng::pick_ratio;
use crate::rng::pick_weighted;
use crate::rng::weight_sum;
use vstd::prelude::*;

verus! {

/// One cell of an in-play piece: the id of its visual entity, the facing
/// bookkeeping value, and the rotated connection array — `None` marks a
/// filler cell that carries no route.
#[derive(Clone, Copy, Debug)]
pub struct PieceHexData {
    pub entity: u64,
    pub side_index: u8,
    pub connections: Option<[bool; 6]>,
}

/// The stub flag on side `s` of a piece cell; a filler cell has none.
pub open spec fn piece_conn(d: PieceHexData, s: int) -> bool {
    match d.connections {
        Some(conn) => conn@[s],
        None => false,
    }
}

/// `i` reduced to a side index: the representative of `i` modulo six in
/// `0 .. 6`.
pub open spec fn side_mod(i: int) -> int
    decreases
            (if i < 0 {
                6 - i
            } else {
                i
            }),
{
    if i < 0 {
        side_mod(i + 6)
    } else if i >= 6 {
        side_mod(i - 6)
    } else {
        i
    }
}

proof fn lemma_side_mod_period(i: int, k: nat)
    ensures
        side_mod(i + 6 * k) == side_mod(i),
    decreases k,
{
    if k > 0 {
        lemma_side_mod_period(i + 6, (k - 1) as nat);
        assert(side_mod(i + 6) == side_mod(i)) by {
            reveal_with_fuel(side_mod, 2);
        }
    }
}

/// Normalizes a stepped side index, so that rotating left from side 0
/// lands on side 5 and rotating right from side 5 lands on side 0.
pub fn get_side_index(index: i8) -> (r: usize)
    ensures
        r < 6,
        r as int == side_mod(index as int),
{
    let mut v: i32 = index as i32 + 768;
    proof {
        lemma_side_mod_period(index as int, 128);
    }
    while v >= 6
        invariant
            0 <= v <= 1000,
            side_mod(v as int) == side_mod(index as int),
        decreases v,
    {
        v = v - 6;
    }
    v as usize
}

/// The side opposite `side`: three steps around the hex.
pub fn get_opposite_side_index(side: usize) -> (r: usize)
    requires
        side < 6,
    ensures
        r < 6,
        r as int == side_mod(side as int + 3),
        r == if side < 3 {
            side + 3
        } else {
            side - 3
        },
{
    proof {
        reveal_with_fuel(side_mod, 3);
    }
    get_side_index((side + 3) as i8)
}

/// The connection array turned one step clockwise: the flag of side `s`
/// moves to side `s + 1`.
fn rotate_sides_right(a: &[bool; 6]) -> (r: [bool; 6])
    ensures
        forall|s: int| 0 <= s < 5 ==> r@[s + 1] == a@[s],
        r@[0] == a@[5],
{
    [a[5], a[0], a[1], a[2], a[3], a[4]]
}

/// The connection array turned one step counter-clockwise: the flag of
/// side `s + 1` moves to side `s`.
fn rotate_sides_left(a: &[bool; 6]) -> (r: [bool; 6])
    ensures
        forall|s: int| 0 <= s < 5 ==> r@[s] == a@[s + 1],
        r@[5] == a@[0],
{
    [a[1], a[2], a[3], a[4], a[5], a[0]]
}

/// The connection array turned `k` steps counter-clockwise: side `s` takes
/// the flag of side `(s + k) % 6`.
fn rotate_sides_left_by(a: &[bool; 6], k: usize) -> (r: [bool; 6])
    requires
        k < 6,
    ensures
        forall|s: int| 0 <= s < 6 ==> #[trigger] r@[s] == a@[side_mod(s + k)],
{
    let mut r: [bool; 6] = *a;
    let mut done: usize = 0;
    while done < k
        invariant
            done <= k,
            k < 6,
            forall|s: int| 0 <= s < 6 ==> #[trigger] r@[s] == a@[side_mod(s + done)],
        decreases k - done,
    {
        let r2 = rotate_sides_left(&r);
        proof {
            assert forall|s: int| 0 <= s < 6 implies #[trigger] r2@[s] == a@[side_mod(
                s + done + 1,
            )] by {
                if s < 5 {
                    assert(r2@[s] == r@[s + 1]);
                    assert(r@[s + 1] == a@[side_mod(s + 1 + done)]);
                } else {
                    assert(r2@[5] == r@[0]);
                    assert(r@[0] == a@[side_mod(done as int)]);
                    assert(side_mod(5 + done + 1) == side_mod(done as int));
                }
            }
        }
        r = r2;
        done = done + 1;
    }
    r
}

/// Template for a route cell: six side flags, clockwise from the top-right
/// edge of a pointy-top hex, with a sprite index and a selection weight.
#[derive(Clone, Copy, Debug)]
pub struct RouteHexBlueprint {
    pub connected_sides: [bool; 6],
    pub atlas_index: usize,
    pub weight: u32,
}

/// The static blueprint catalog and the two weight tables the generator
/// samples from.
pub struct HexBlueprints {
    pub hexes: Vec<RouteHexBlueprint>,
    pub weights: Vec<u32>,
    pub size_weights: Vec<u32>,
}

impl HexBlueprints {
    /// What the generator relies on: the tables are parallel, small enough
    /// to sample, and every blueprint carries at least one open stub (the
    /// all-false template is reserved for the filler concept and never
    /// listed).
    pub open spec fn wf(self) -> bool {
        &&& self.hexes@.len() == 10
        &&& self.weights@.len() == 10
        &&& forall|i: int|
            0 <= i < 10 ==> (#[trigger] self.weights@[i]) == self.hexes@[i].weight
        &&& forall|i: int|
            0 <= i < 10 ==> exists|s: int|
                0 <= s < 6 && (#[trigger] self.hexes@[i]).connected_sides@[s]
        &&& (exists|j: int| 0 <= j < 10 && (#[trigger] self.weights@[j]) > 0)
        &&& weight_sum(self.weights@, 10) <= u32::MAX
        &&& self.size_weights@.len() == 2
        &&& self.size_weights@[0] > 0
        &&& weight_sum(self.size_weights@, 2) <= u32::MAX
    }
}

impl Default for HexBlueprints {
    /// The shipped catalog: ten templates, clockwise flags from the
    /// top-right edge, heavier weights on the simple two-stub shapes, and
    /// a two-entry size table favouring single cells.
    fn default() -> (b: Self)
        ensures
            b.wf(),
            b.hexes@.len() == 10,
            b.hexes@[0].connected_sides@ == seq![false, true, true, false, false, false],
            b.hexes@[1].connected_sides@ == seq![false, true, false, true, false, false],
            b.hexes@[2].connected_sides@ == seq![false, true, false, false, true, false],
            b.hexes@[3].connected_sides@ == seq![false, true, true, true, false, false],
            b.hexes@[4].connected_sides@ == seq![false, true, false, true, true, false],
            b.hexes@[5].connected_sides@ == seq![false, true, true, false, true, false],
            b.hexes@[6].connected_sides@ == seq![false, true, false, true, false, true],
            b.hexes@[7].connected_sides@ == seq![false, true, true, true, true, false],
            b.hexes@[8].connected_sides@ == seq![false, true, true, false, true, true],
            b.hexes@[9].connected_sides@ == seq![true, true, true, true, true, true],
            b.weights@ == seq![3u32, 8, 10, 2, 4, 4, 3, 1, 1, 0],
            b.size_weights@ == seq![3u32, 4],
            forall|i: int| 0 <= i < 10 ==> (#[trigger] b.hexes@[i]).atlas_index == i,
    {
        let mut hexes: Vec<RouteHexBlueprint> = Vec::new();
        hexes.push(
            RouteHexBlueprint {
                connected_sides: [false, true, true, false, false, false],
                atlas_index: 0,
                weight: 3,
            },
        );
        hexes.push(
            RouteHexBlueprint {
                connected_sides: [false, true, false, true, false, false],
                atlas_index: 1,
                weight: 8,
            },
        );
        hexes.push(
            RouteHexBlueprint {
                connected_sides: [false, true, false, false, true, false],
                atlas_index: 2,
                weight: 10,
            },
        );
        hexes.push(
            RouteHexBlueprint {
                connected_sides: [false, true, true, true, false, false],
                atlas_index: 3,
                weight: 2,
            },
        );
        hexes.push(
            RouteHexBlueprint {
                connected_sides: [false, true, false, true, true, false],
                atlas_index: 4,
                weight: 4,
            },
        );
        hexes.push(
            RouteHexBlueprint {
                connected_sides: [false, true, true, false, true, false],
                atlas_index: 5,
                weight: 4,
            },
        );
        hexes.push(
            RouteHexBlueprint {
                connected_sides: [false, true, false, true, false, true],
                atlas_index: 6,
                weight: 3,
            },
        );
        hexes.push(
            RouteHexBlueprint {
                connected_sides: [false, true, true, true, true, false],
                atlas_index: 7,
                weight: 1,
            },
        );
        hexes.push(
            RouteHexBlueprint {
                connected_sides: [false, true, true, false, true, true],
                atlas_index: 8,
                weight: 1,
            },
        );
        hexes.push(
            RouteHexBlueprint {
                connected_sides: [true, true, true, true, true, true],
                atlas_index: 9,
                weight: 0,
            },
        );
        let mut weights: Vec<u32> = Vec::new();
        weights.push(3);
        weights.push(8);
        weights.push(10);
        weights.push(2);
        weights.push(4);
        weights.push(4);
        weights.push(3);
        weights.push(1);
        weights.push(1);
        weights.push(0);
        let mut size_weights: Vec<u32> = Vec::new();
        size_weights.push(3);
        size_weights.push(4);
        let b = HexBlueprints { hexes, weights, size_weights };
        proof {
            assert forall|i: int| 0 <= i < 10 implies exists|s: int|
                0 <= s < 6 && (#[trigger] b.hexes@[i]).connected_sides@[s] by {
                assert(b.hexes@[i].connected_sides@[1]);
            }
            reveal_with_fuel(weight_sum, 11);
            assert(weight_sum(b.weights@, 10) == 36);
            assert(weight_sum(b.size_weights@, 2) == 7);
            assert(b.weights@[0] > 0);
            assert(b.size_weights@[0] > 0);
            assert(b.hexes@.len() == 10 && b.weights@.len() == 10 && b.size_weights@.len() == 2);
            assert forall|i: int|
                0 <= i < 10 implies (#[trigger] b.weights@[i]) == b.hexes@[i].weight by {}
            assert(b.wf());
        }
        b
    }
}

/// An in-play piece: up to a few cells keyed by their offset from the
/// piece anchor, and the legal drop target currently under the pointer,
/// if any.
pub struct Piece {
    pub hexes: Vec<(Hex, PieceHexData)>,
    pub target_hex: Option<Hex>,
}

impl Piece {
    /// Offsets are distinct, there is at least one cell, facing values are
    /// side indices, and every route cell keeps at least one open stub.
    pub open spec fn wf(self) -> bool {
        &&& self.hexes@.len() >= 1
        &&& forall|a: int, b: int|
            0 <= a < b < self.hexes@.len() ==> (#[trigger] self.hexes@[a]).0 != (
            #[trigger] self.hexes@[b]).0
        &&& forall|c: int| 0 <= c < self.hexes@.len() ==> (#[trigger] self.hexes@[c]).1.side_index < 6
        &&& forall|c: int|
            0 <= c < self.hexes@.len() && (#[trigger] self.hexes@[c]).1.connections is Some
                ==> exists|s: int| 0 <= s < 6 && piece_conn(self.hexes@[c].1, s)
    }
}

proof fn lemma_side_mod_small(i: int)
    requires
        -6 <= i < 12,
    ensures
        side_mod(i) == if i < 0 {
            i + 6
        } else if i < 6 {
            i
        } else {
            i - 6
        },
{
    reveal_with_fuel(side_mod, 3);
}

impl Piece {
    /// Rotates the piece one 60-degree step about the hovered cell's
    /// offset: every cell offset pivots, every facing value steps, every
    /// connection array turns the same way, and any in-progress placement
    /// target is cleared — a rotated piece must be re-validated before it
    /// can commit.
    pub fn rotate_piece(&mut self, center: Hex, clockwise: bool)
        requires
            old(self).wf(),
            exists|i: int|
                0 <= i < old(self).hexes@.len() && (#[trigger] old(self).hexes@[i]).0 == center,
            forall|i: int|
                0 <= i < old(self).hexes@.len() ==> {
                    &&& -0x1000_0000 <= (#[trigger] old(self).hexes@[i]).0.x <= 0x1000_0000
                    &&& -0x1000_0000 <= old(self).hexes@[i].0.y <= 0x1000_0000
                },
        ensures
            final(self).wf(),
            final(self).target_hex is None,
            final(self).hexes@.len() == old(self).hexes@.len(),
            forall|i: int|
                0 <= i < old(self).hexes@.len() ==> {
                    &&& (#[trigger] final(self).hexes@[i]).0 == (if clockwise {
                        rotate_cw_spec(old(self).hexes@[i].0, center)
                    } else {
                        rotate_ccw_spec(old(self).hexes@[i].0, center)
                    })
                    &&& final(self).hexes@[i].1.entity == old(self).hexes@[i].1.entity
                    &&& final(self).hexes@[i].1.side_index as int == side_mod(
                        old(self).hexes@[i].1.side_index as int + (if clockwise {
                            -1
                        } else {
                            1
                        }),
                    )
                    &&& (final(self).hexes@[i].1.connections is Some <==> old(
                        self,
                    ).hexes@[i].1.connections is Some)
                    &&& (old(self).hexes@[i].1.connections is Some ==> forall|s: int|
                        0 <= s < 6 ==> #[trigger] final(self).hexes@[i].1.connections->0@[s] == old(
                            self,
                        ).hexes@[i].1.connections->0@[side_mod(
                            s + (if clockwise {
                                -1
                            } else {
                                1
                            }),
                        )])
                },
    {
        let ghost old_cells = self.hexes@;
        let mut new_hexes: Vec<(Hex, PieceHexData)> = Vec::new();
        let mut i: usize = 0;
        while i < self.hexes.len()
            invariant
                i <= old_cells.len(),
                self.hexes@ == old_cells,
                old(self).hexes@ == old_cells,
                old(self).wf(),
                exists|k: int| 0 <= k < old_cells.len() && (#[trigger] old_cells[k]).0 == center,
                forall|k: int|
                    0 <= k < old_cells.len() ==> {
                        &&& -0x1000_0000 <= (#[trigger] old_cells[k]).0.x <= 0x1000_0000
                        &&& -0x1000_0000 <= old_cells[k].0.y <= 0x1000_0000
                    },
                new_hexes@.len() == i,
                forall|k: int|
                    0 <= k < i ==> {
                        &&& (#[trigger] new_hexes@[k]).0 == (if clockwise {
                            rotate_cw_spec(old_cells[k].0, center)
                        } else {
                            rotate_ccw_spec(old_cells[k].0, center)
                        })
                        &&& new_hexes@[k].0.x == (if clockwise {
                            center.x - (old_cells[k].0.y - center.y)
                        } else {
                            center.x + (old_cells[k].0.x - center.x) + (old_cells[k].0.y
                                - center.y)
                        })
                        &&& new_hexes@[k].0.y == (if clockwise {
                            center.y + (old_cells[k].0.x - center.x) + (old_cells[k].0.y
                                - center.y)
                        } else {
                            center.y - (old_cells[k].0.x - center.x)
                        })
                        &&& new_hexes@[k].1.entity == old_cells[k].1.entity
                        &&& new_hexes@[k].1.side_index < 6
                        &&& new_hexes@[k].1.side_index as int == side_mod(
                            old_cells[k].1.side_index as int + (if clockwise {
                                -1
                            } else {
                                1
                            }),
                        )
                        &&& (new_hexes@[k].1.connections is Some <==> old_cells[k].1.connections
                            is Some)
                        &&& (old_cells[k].1.connections is Some ==> forall|s: int|
                            0 <= s < 6 ==> #[trigger] new_hexes@[k].1.connections->0@[s]
                                == old_cells[k].1.connections->0@[side_mod(
                                s + (if clockwise {
                                    -1
                                } else {
                                    1
                                }),
                            )])
                    },
            decreases old_cells.len() - i,
        {
            let off = self.hexes[i].0;
            let mut data = self.hexes[i].1;
            proof {
                let k = choose|k: int| 0 <= k < old_cells.len() && old_cells[k].0 == center;
                assert(-0x1000_0000 <= old_cells[k].0.x <= 0x1000_0000);
            }
            let rotated = if clockwise {
                off.cw_around(center)
            } else {
                off.ccw_around(center)
            };
            let new_side = if clockwise {
                get_side_index(data.side_index as i8 - 1)
            } else {
                get_side_index(data.side_index as i8 + 1)
            };
            data.side_index = new_side as u8;
            data.connections = match data.connections {
                Some(conn) => Some(
                    if clockwise {
                        rotate_sides_right(&conn)
                    } else {
                        rotate_sides_left(&conn)
                    },
                ),
                None => None,
            };
            proof {
                if old_cells[i as int].1.connections is Some {
                    let oc = old_cells[i as int].1.connections->0;
                    let nc = data.connections->0;
                    assert forall|s: int| 0 <= s < 6 implies #[trigger] nc@[s] == oc@[side_mod(
                        s + (if clockwise {
                            -1
                        } else {
                            1
                        }),
                    )] by {
                        lemma_side_mod_small(
                            s + (if clockwise {
                                -1
                            } else {
                                1
                            }),
                        );
                    }
                }
            }
            new_hexes.push((rotated, data));
            i = i + 1;
        }
        self.hexes = new_hexes;
        self.target_hex = None;
        proof {
            assert forall|a: int, b: int|
                0 <= a < b < self.hexes@.len() implies (#[trigger] self.hexes@[a]).0 != (
            #[trigger] self.hexes@[b]).0 by {
                assert(old_cells[a].0 != old_cells[b].0);
            }
            assert forall|c: int|
                0 <= c < self.hexes@.len() && (#[trigger] self.hexes@[c]).1.connections is Some
                    implies exists|s: int| 0 <= s < 6 && piece_conn(self.hexes@[c].1, s) by {
                let s0 = choose|s: int| 0 <= s < 6 && piece_conn(old_cells[c].1, s);
                let sp = side_mod(
                    s0 + (if clockwise {
                        1
                    } else {
                        -1
                    }),
                );
                lemma_side_mod_small(
                    s0 + (if clockwise {
                        1
                    } else {
                        -1
                    }),
                );
                lemma_side_mod_small(
                    sp + (if clockwise {
                        -1
                    } else {
                        1
                    }),
                );
                assert(self.hexes@[c].1.connections->0@[sp] == old_cells[c].1.connections->0@[s0]);
                assert(piece_conn(self.hexes@[c].1, sp));
            }
        }
    }
}

/// Every cell of the piece, anchored at `anchor`, lands on an existing,
/// unoccupied cell of the grid — the placement legality the validator
/// checks on every drag step.
pub open spec fn can_place(m: WorldMap, cells: Seq<(Hex, PieceHexData)>, anchor: Hex) -> bool {
    forall|c: int|
        0 <= c < cells.len() ==> {
            &&& i32::MIN <= anchor.x + (#[trigger] cells[c]).0.x <= i32::MAX
            &&& i32::MIN <= anchor.y + cells[c].0.y <= i32::MAX
            &&& m.has_tile(hex_add_spec(anchor, cells[c].0))
            &&& m.tile(hex_add_spec(anchor, cells[c].0)).placed_hex_e is None
        }
}

/// What one drag step did to the piece's placement target.
#[derive(PartialEq, Eq, Structural, Clone, Copy, Debug)]
pub enum DragOutcome {
    /// The pointer stayed over the already-recorded target.
    Unchanged,
    /// The piece snapped onto a new legal target.
    Snapped,
    /// The target was illegal; the piece follows the raw pointer.
    Freed,
}

impl Piece {
    /// One drag step over the candidate anchor under the pointer: keeps an
    /// unchanged target, snaps onto a legal new one, and otherwise clears
    /// the target so the piece follows the pointer freely.
    pub fn update_target(&mut self, map: &WorldMap, target: Hex) -> (r: DragOutcome)
        requires
            map.wf(),
            old(self).wf(),
        ensures
            final(self).hexes == old(self).hexes,
            final(self).wf(),
            old(self).target_hex == Some(target) ==> r == DragOutcome::Unchanged
                && final(self).target_hex == old(self).target_hex,
            old(self).target_hex != Some(target) && can_place(*map, old(self).hexes@, target)
                ==> r == DragOutcome::Snapped && final(self).target_hex == Some(target),
            old(self).target_hex != Some(target) && !can_place(*map, old(self).hexes@, target)
                ==> r == DragOutcome::Freed && final(self).target_hex is None,
    {
        let same = match self.target_hex {
            Some(t) => t == target,
            None => false,
        };
        if same {
            return DragOutcome::Unchanged;
        }
        let mut legal = true;
        let ghost cells = self.hexes@;
        let mut c: usize = 0;
        while c < self.hexes.len()
            invariant
                c <= cells.len(),
                self.hexes@ == cells,
                map.wf(),
                legal ==> forall|c2: int|
                    0 <= c2 < c ==> {
                        &&& i32::MIN <= target.x + (#[trigger] cells[c2]).0.x <= i32::MAX
                        &&& i32::MIN <= target.y + cells[c2].0.y <= i32::MAX
                        &&& map.has_tile(hex_add_spec(target, cells[c2].0))
                        &&& map.tile(hex_add_spec(target, cells[c2].0)).placed_hex_e is None
                    },
                !legal ==> !can_place(*map, cells, target),
            decreases cells.len() - c,
        {
            let off = self.hexes[c].0;
            let sx: i64 = target.x as i64 + off.x as i64;
            let sy: i64 = target.y as i64 + off.y as i64;
            if sx < i32::MIN as i64 || sx > i32::MAX as i64 || sy < i32::MIN as i64 || sy
                > i32::MAX as i64 {
                legal = false;
            } else {
                let abs = target.add(off);
                proof {
                    assert(abs == hex_add_spec(target, off));
                }
                match map.tile_occupant(abs) {
                    TileState::Missing => {
                        legal = false;
                    },
                    TileState::Occupied => {
                        legal = false;
                    },
                    TileState::Free => {
                    },
                }
            }
            c = c + 1;
        }
        if legal {
            self.target_hex = Some(target);
            DragOutcome::Snapped
        } else {
            self.target_hex = None;
            DragOutcome::Freed
        }
    }
}

impl WorldMap {
    /// Commits a snapped piece: applies its placement — all cells at once —
    /// and immediately answers the completion query on the grown graph.
    pub fn commit_piece(&mut self, piece: &Piece) -> (r: Option<CompletedMap>)
        requires
            old(self).wf(),
            piece.wf(),
            piece.target_hex is Some,
            can_place(*old(self), piece.hexes@, piece.target_hex->0),
            old(self).graph.node_count() + 6 * piece.hexes@.len() <= 0xffff_ffff,
        ensures
            final(self).wf(),
            final(self).houses == old(self).houses,
            final(self).map_radius == old(self).map_radius,
            final(self).hexes@.len() == old(self).hexes@.len(),
            forall|i: int|
                0 <= i < old(self).hexes@.len() ==> (#[trigger] final(self).hexes@[i]).0 == old(
                    self,
                ).hexes@[i].0 && final(self).hexes@[i].1.node_index == old(
                    self,
                ).hexes@[i].1.node_index,
            forall|c: int|
                0 <= c < piece.hexes@.len() ==> final(self).tile(
                    hex_add_spec(piece.target_hex->0, (#[trigger] piece.hexes@[c]).0),
                ).placed_hex_e == Some(piece.hexes@[c].1.entity),
            match r {
                Some(cm) => {
                    &&& final(self).houses@.len() >= 1
                    &&& forall|j: int|
                        0 <= j < final(self).houses@.len() ==> final(self).house_reachable(j)
                    &&& cm.routes@.len() == final(self).houses@.len() - 1
                    &&& forall|j: int|
                        0 <= j < cm.routes@.len() ==> final(self).route_to_house(
                            (#[trigger] cm.routes@[j])@,
                            j + 1,
                        )
                    &&& cm.dead_ends@.no_duplicates()
                    &&& forall|k: int|
                        0 <= k < cm.dead_ends@.len() ==> final(self).has_edge_conn(
                            #[trigger] cm.dead_ends@[k],
                        )
                    &&& forall|i: int|
                        0 <= i < final(self).edge_connection_nodes@.len() ==> (
                        cm.dead_ends@.contains(
                            (#[trigger] final(self).edge_connection_nodes@[i]).0,
                        ) <==> final(self).graph.degree(
                            final(self).edge_connection_nodes@[i].1 as int,
                        ) == 1)
                },
                None => final(self).houses@.len() == 0 || (exists|j: int|
                    0 <= j < final(self).houses@.len() && !final(self).house_reachable(j)),
            },
    {
        let anchor = match piece.target_hex {
            Some(h) => h,
            None => {
                proof {
                    assert(false);
                }
                Hex::zero()
            },
        };
        self.place_piece(anchor, &piece.hexes);
        self.get_completed_routes()
    }
}

/// `conn` is catalog entry `bi` turned `rot` sides, and that entry is
/// selectable (positive weight).
pub open spec fn rotated_entry(b: HexBlueprints, conn: [bool; 6], bi: int, rot: int) -> bool {
    &&& 0 <= bi < b.hexes@.len()
    &&& b.weights@[bi] > 0
    &&& 0 <= rot < 6
    &&& forall|s: int|
        0 <= s < 6 ==> #[trigger] conn@[s] == b.hexes@[bi].connected_sides@[side_mod(s + rot)]
}

/// The connection array is a rotated copy of a selectable catalog entry:
/// one with positive weight, turned by a whole number of sides.
pub open spec fn from_catalog(b: HexBlueprints, conn: [bool; 6]) -> bool {
    exists|bi: int, rot: int| #[trigger] rotated_entry(b, conn, bi, rot)
}

/// Generates one piece: a weighted size draw, a weighted blueprint with a
/// uniform rotation for the first cell, and an optional second cell whose
/// attachment side must agree with the first cell's stubs — when no side
/// agrees, the piece silently degrades to a single cell.  Every route cell
/// keeps at least one open stub.
pub fn generate_piece(blueprints: &HexBlueprints) -> (p: Piece)
    requires
        blueprints.wf(),
    ensures
        p.wf(),
        p.target_hex is None,
        1 <= p.hexes@.len() <= 2,
        p.hexes@[0].0 == (Hex { x: 0, y: 0 }),
        p.hexes@[0].1.connections is Some,
        forall|c: int|
            0 <= c < p.hexes@.len() && (#[trigger] p.hexes@[c]).1.connections is Some
                ==> from_catalog(*blueprints, p.hexes@[c].1.connections->0),
        p.hexes@.len() == 2 ==> exists|s: int|
            {
                &&& 0 <= s < 6
                &&& (#[trigger] p.hexes@[1]).0.x == dir_x(s)
                &&& p.hexes@[1].0.y == dir_y(s)
                &&& (p.hexes@[1].1.connections is Some ==> piece_conn(
                    p.hexes@[1].1,
                    side_mod(s + 3),
                ) == piece_conn(p.hexes@[0].1, s))
            },
{
    let size = pick_weighted(&blueprints.size_weights) + 1;
    let mut cells: Vec<(Hex, PieceHexData)> = Vec::new();

    let bp0 = pick_weighted(&blueprints.weights);
    let rot0 = pick_index(6);
    let conn0 = rotate_sides_left_by(&blueprints.hexes[bp0].connected_sides, rot0);
    proof {
        lemma_rotated_keeps_stub(blueprints.hexes@[bp0 as int].connected_sides@, conn0@, rot0 as int);
    }
    cells.push(
        (
            Hex { x: 0, y: 0 },
            PieceHexData { entity: 0, side_index: rot0 as u8, connections: Some(conn0) },
        ),
    );
    proof {
        let s0 = choose|s: int| 0 <= s < 6 && conn0@[s];
        assert(piece_conn(cells@[0].1, s0));
        assert(from_catalog(*blueprints, conn0)) by {
            assert(rotated_entry(*blueprints, conn0, bp0 as int, rot0 as int));
        }
    }

    if size >= 2 {
        let bp1 = pick_weighted(&blueprints.weights);
        let rot1 = pick_index(6);
        let conn1 = rotate_sides_left_by(&blueprints.hexes[bp1].connected_sides, rot1);
        let mut second: Option<[bool; 6]> = Some(conn1);
        let mut connected = false;
        if pick_ratio(65, 100) {
            second = None;
        } else {
            connected = pick_ratio(3, 4);
        }
        let mut candidates: Vec<usize> = Vec::new();
        let mut s: usize = 0;
        while s < 6
            invariant
                s <= 6,
                forall|k: int|
                    0 <= k < candidates@.len() ==> {
                        &&& (#[trigger] candidates@[k]) < 6
                        &&& conn0@[candidates@[k] as int] == connected
                        &&& (second is Some ==> second->0@[side_mod(candidates@[k] + 3)]
                            == connected)
                    },
            decreases 6 - s,
        {
            let ok0 = conn0[s] == connected;
            let ok1 = match second {
                Some(c2) => {
                    let opp = get_opposite_side_index(s);
                    c2[opp] == connected
                },
                None => true,
            };
            if ok0 && ok1 {
                candidates.push(s);
            }
            s = s + 1;
        }
        if candidates.len() > 0 {
            let side = candidates[pick_index(candidates.len())];
            let off = neighbor_offset(side);
            proof {
                if second is Some {
                    lemma_rotated_keeps_stub(
                        blueprints.hexes@[bp1 as int].connected_sides@,
                        conn1@,
                        rot1 as int,
                    );
                }
                assert(off.x != 0 || off.y != 0);
            }
            let ghost cells0 = cells@;
            cells.push(
                (off, PieceHexData { entity: 0, side_index: rot1 as u8, connections: second }),
            );
            proof {
                assert(cells@[0] == cells0[0]);
                if second is Some {
                    let s1 = choose|s: int| 0 <= s < 6 && conn1@[s];
                    assert(piece_conn(cells@[1].1, s1));
                    assert(from_catalog(*blueprints, second->0)) by {
                        assert(rotated_entry(*blueprints, conn1, bp1 as int, rot1 as int));
                    }
                }
                // the chosen attachment side agrees with the stub flags
                assert(piece_conn(cells@[0].1, side as int) == connected);
                assert(cells@[1].1.connections is Some ==> piece_conn(
                    cells@[1].1,
                    side_mod(side as int + 3),
                ) == connected);
            }
        }
    }
    Piece { hexes: cells, target_hex: None }
}

/// A rotated copy of a connection array keeps every stub, just on another
/// side.
proof fn lemma_rotated_keeps_stub(orig: Seq<bool>, rotated: Seq<bool>, rot: int)
    requires
        orig.len() == 6,
        rotated.len() == 6,
        0 <= rot < 6,
        exists|s: int| 0 <= s < 6 && orig[s],
        forall|s: int| 0 <= s < 6 ==> #[trigger] rotated[s] == orig[side_mod(s + rot)],
    ensures
        exists|s: int| 0 <= s < 6 && rotated[s],
{
    let s0 = choose|s: int| 0 <= s < 6 && orig[s];
    let sp = if s0 >= rot {
        s0 - rot
    } else {
        s0 - rot + 6
    };
    lemma_side_mod_small(sp + rot);
    assert(rotated[sp] == orig[s0]);
}

/// Generates a batch of pieces, as the board does whenever the tray runs
/// low.
pub fn generate_batch(blueprints: &HexBlueprints, count: usize) -> (v: Vec<Piece>)
    requires
        blueprints.wf(),
    ensures
        v@.len() == count,
        forall|i: int|
            0 <= i < count ==> {
                &&& (#[trigger] v@[i]).wf()
                &&& v@[i].target_hex is None
                &&& 1 <= v@[i].hexes@.len() <= 2
                &&& v@[i].hexes@[0].0 == (Hex { x: 0, y: 0 })
                &&& v@[i].hexes@[0].1.connections is Some
            },
{
    let mut v: Vec<Piece> = Vec::new();
    let mut i: usize = 0;
    while i < count
        invariant
            i <= count,
            blueprints.wf(),
            v@.len() == i,
            forall|k: int|
                0 <= k < i ==> {
                    &&& (#[trigger] v@[k]).wf()
                    &&& v@[k].target_hex is None
                    &&& 1 <= v@[k].hexes@.len() <= 2
                    &&& v@[k].hexes@[0].0 == (Hex { x: 0, y: 0 })
                    &&& v@[k].hexes@[0].1.connections is Some
                },
        decreases count - i,
    {
        let p = generate_piece(blueprints);
        v.push(p);
        i = i + 1;
    }
    v
}

} // verus!
