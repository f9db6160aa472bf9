//! Procedural board layout: the level decides the grid radius, houses are
//! scattered into corner wedges of randomly chosen directions, and island
//! blocks decorate the middle — all feeding the verified grid core.

use crate::hex::hexagon;
use crate::hex::in_hexagon;
use crate::hex::Hex;
use crate::map::assoc_find;
use crate::map::contains_hex;
use crate::map::coord_bounded;
use crate::map::spawn_grid;
use crate::map::WorldMap;
use crate::rng::pick_distinct;
use crate::rng::pick_index;
use crate::rng::pick_ratio;
use vstd::prelude::*;

verus! {

/// The grid radius the given level plays on.
pub open spec fn radius_for_level(level: u32) -> u32 {
    if level <= 1 {
        2u32
    } else if level <= 4 {
        3u32
    } else if level <= 7 {
        4u32
    } else {
        5u32
    }
}

pub fn map_radius_for_level(level: u32) -> (r: u32)
    ensures
        r == radius_for_level(level),
{
    if level <= 1 {
        2
    } else if level <= 4 {
        3
    } else if level <= 7 {
        4
    } else {
        5
    }
}

/// The directions whose corner wedges receive a house this round: lower
/// levels use fixed opposite or alternating groups, higher levels draw
/// several directions at random (repeats across draws are possible and
/// simply collapse).
fn direction_group(level: u32) -> (dirs: Vec<usize>)
    ensures
        1 <= dirs@.len() <= 10,
        forall|i: int| 0 <= i < dirs@.len() ==> (#[trigger] dirs@[i]) < 6,
{
    let mut dirs: Vec<usize> = Vec::new();
    if level <= 1 {
        let pair = pick_index(3);
        dirs.push(pair);
        dirs.push(pair + 3);
    } else if level <= 3 {
        let start = pick_index(2);
        dirs.push(start);
        dirs.push(start + 2);
        dirs.push(start + 4);
    } else if level <= 5 {
        let picked = pick_distinct(6, 4);
        let mut i: usize = 0;
        while i < picked.len()
            invariant
                dirs@.len() == i,
                i <= picked@.len(),
                forall|k: int| 0 <= k < picked@.len() ==> (#[trigger] picked@[k]) < 6,
                forall|k: int| 0 <= k < dirs@.len() ==> (#[trigger] dirs@[k]) < 6,
            decreases picked@.len() - i,
        {
            dirs.push(picked[i]);
            i = i + 1;
        }
    } else {
        let first = pick_distinct(6, if level <= 7 { 4 } else { 5 });
        let second = pick_distinct(6, if level <= 7 { 2 } else { 5 });
        let mut i: usize = 0;
        while i < first.len()
            invariant
                dirs@.len() == i,
                i <= first@.len(),
                first@.len() <= 5,
                forall|k: int| 0 <= k < first@.len() ==> (#[trigger] first@[k]) < 6,
                forall|k: int| 0 <= k < dirs@.len() ==> (#[trigger] dirs@[k]) < 6,
            decreases first@.len() - i,
        {
            dirs.push(first[i]);
            i = i + 1;
        }
        let ghost n0 = dirs@.len();
        let mut i: usize = 0;
        while i < second.len()
            invariant
                dirs@.len() == n0 + i,
                i <= second@.len(),
                n0 <= 5,
                second@.len() <= 5,
                forall|k: int| 0 <= k < second@.len() ==> (#[trigger] second@[k]) < 6,
                forall|k: int| 0 <= k < dirs@.len() ==> (#[trigger] dirs@[k]) < 6,
            decreases second@.len() - i,
        {
            dirs.push(second[i]);
            i = i + 1;
        }
    }
    dirs
}

/// Scaled direction step: `k` hexes along side `dir`.
fn dir_times(dir: usize, k: i32) -> (h: Hex)
    requires
        dir < 6,
        0 <= k <= 16,
    ensures
        -16 <= h.x <= 16,
        -16 <= h.y <= 16,
        dir == 0 ==> h.x == k && h.y as int == -(k as int),
        dir == 1 ==> h.x == k && h.y == 0,
        dir == 2 ==> h.x == 0 && h.y == k,
        dir == 3 ==> h.x as int == -(k as int) && h.y == k,
        dir == 4 ==> h.x as int == -(k as int) && h.y == 0,
        dir == 5 ==> h.x == 0 && h.y as int == -(k as int),
{
    if dir == 0 {
        Hex { x: k, y: -k }
    } else if dir == 1 {
        Hex { x: k, y: 0 }
    } else if dir == 2 {
        Hex { x: 0, y: k }
    } else if dir == 3 {
        Hex { x: -k, y: k }
    } else if dir == 4 {
        Hex { x: -k, y: 0 }
    } else {
        Hex { x: 0, y: -k }
    }
}

/// The candidate hexes of the corner wedge of `dir`, ring by ring from
/// `rmax` down to `rmin`: each ring's half edge centred on the ring's
/// corner toward `dir`.  Every candidate stays within the hexagon of
/// radius `rmax`.
fn corner_wedge_candidates(dir: usize, rmin: u32, rmax: u32) -> (v: Vec<Hex>)
    requires
        dir < 6,
        rmin <= rmax,
        rmax <= 16,
    ensures
        v@.len() >= 1,
        forall|i: int|
            0 <= i < v@.len() ==> in_hexagon(#[trigger] v@[i], rmax as int) && coord_bounded(
                v@[i],
            ),
{
    let left = (dir + 4) % 6;
    let right = (dir + 2) % 6;
    let mut v: Vec<Hex> = Vec::new();
    let mut r: u32 = rmax;
    loop
        invariant
            dir < 6,
            left == (dir + 4) % 6,
            right == (dir + 2) % 6,
            rmin <= rmax <= 16,
            r <= rmax,
            v@.len() >= rmax - r,
            forall|i: int|
                0 <= i < v@.len() ==> in_hexagon(#[trigger] v@[i], rmax as int) && coord_bounded(
                    v@[i],
                ),
        ensures
            v@.len() >= 1,
            forall|i: int|
                0 <= i < v@.len() ==> in_hexagon(#[trigger] v@[i], rmax as int) && coord_bounded(
                    v@[i],
                ),
        decreases r + 1,
    {
        let corner = dir_times(dir, r as i32);
        let ghost len0 = v@.len();
        let mut k: u32 = 0;
        while k <= r / 2
            invariant
                dir < 6,
                left == (dir + 4) % 6,
                r <= rmax <= 16,
                k <= r / 2 + 1,
                dir == 0 ==> corner.x == r && corner.y as int == -(r as int),
                dir == 1 ==> corner.x == r && corner.y == 0,
                dir == 2 ==> corner.x == 0 && corner.y == r,
                dir == 3 ==> corner.x as int == -(r as int) && corner.y == r,
                dir == 4 ==> corner.x as int == -(r as int) && corner.y == 0,
                dir == 5 ==> corner.x == 0 && corner.y as int == -(r as int),
                v@.len() == len0 + k,
                forall|i: int|
                    0 <= i < v@.len() ==> in_hexagon(#[trigger] v@[i], rmax as int)
                        && coord_bounded(v@[i]),
            decreases r / 2 + 1 - k,
        {
            let step = dir_times(left, k as i32);
            let h = Hex { x: corner.x + step.x, y: corner.y + step.y };
            proof {
                assert(in_hexagon(h, rmax as int) && coord_bounded(h)) by {
                    assert(k <= r);
                    if dir == 0 {
                    } else if dir == 1 {
                    } else if dir == 2 {
                    } else if dir == 3 {
                    } else if dir == 4 {
                    } else {
                    }
                }
            }
            v.push(h);
            k = k + 1;
        }
        let mut k: u32 = 1;
        while k <= r / 2
            invariant
                dir < 6,
                right == (dir + 2) % 6,
                r <= rmax <= 16,
                1 <= k <= r / 2 + 1,
                dir == 0 ==> corner.x == r && corner.y as int == -(r as int),
                dir == 1 ==> corner.x == r && corner.y == 0,
                dir == 2 ==> corner.x == 0 && corner.y == r,
                dir == 3 ==> corner.x as int == -(r as int) && corner.y == r,
                dir == 4 ==> corner.x as int == -(r as int) && corner.y == 0,
                dir == 5 ==> corner.x == 0 && corner.y as int == -(r as int),
                v@.len() >= len0 + 1,
                forall|i: int|
                    0 <= i < v@.len() ==> in_hexagon(#[trigger] v@[i], rmax as int)
                        && coord_bounded(v@[i]),
            decreases r / 2 + 1 - k,
        {
            let step = dir_times(right, k as i32);
            let h = Hex { x: corner.x + step.x, y: corner.y + step.y };
            proof {
                assert(in_hexagon(h, rmax as int) && coord_bounded(h)) by {
                    assert(k <= r);
                    if dir == 0 {
                    } else if dir == 1 {
                    } else if dir == 2 {
                    } else if dir == 3 {
                    } else if dir == 4 {
                    } else {
                    }
                }
            }
            v.push(h);
            k = k + 1;
        }
        if r == rmin || r == 0 {
            break ;
        }
        r = r - 1;
    }
    v
}

fn contains_usize(v: &Vec<usize>, x: usize) -> (r: bool)
    ensures
        r == v@.contains(x),
{
    let mut i: usize = 0;
    while i < v.len()
        invariant
            i <= v@.len(),
            forall|k: int| 0 <= k < i ==> v@[k] != x,
        decreases v@.len() - i,
    {
        if v[i] == x {
            return true;
        }
        i = i + 1;
    }
    false
}


/// Generates the round's board for the given level: the hexagon shape,
/// houses sampled into the chosen corner wedges (extended by a few random
/// rim tiles), and island blocks scattered over the middle.  The board
/// always carries at least one house, so the completion check is defined.
#[verifier::rlimit(60)]
pub fn generate_board(level: u32) -> (m: WorldMap)
    ensures
        m.wf(),
        m.map_radius == radius_for_level(level),
        m.houses@.len() >= 1,
        forall|x: int, y: int| !m.graph.has_edge(x, y),
        m.edge_connection_nodes@.len() == 0,
        forall|j: int|
            0 <= j < m.houses@.len() ==> m.tile(#[trigger] m.houses@[j]).placed_hex_e is Some,
{
    let radius = map_radius_for_level(level);
    let dirs = direction_group(level);
    let mut shape: Vec<Hex> = hexagon(radius);
    let ghost shape0 = shape@;
    proof {
        assert forall|i: int| 0 <= i < shape@.len() implies coord_bounded(#[trigger] shape@[i]) by {
            assert(in_hexagon(shape@[i], radius as int));
        }
    }
    proof {
        assert(radius <= 5);
        assert((2 * radius + 1) * (2 * radius + 1) <= 121) by (nonlinear_arith)
            requires
                radius <= 5,
        ;
    }
    let mut houses: Vec<(Hex, u64)> = Vec::new();
    let mut next_id: u64 = 1;
    let rmin = if radius >= 2 {
        radius - 2
    } else {
        0
    };
    let rmax = if level >= 1 {
        radius + 1
    } else {
        radius
    };
    let mut d: usize = 0;
    while d < dirs.len()
        invariant
            2 <= radius <= 5,
            rmin <= rmax <= 6,
            dirs@.len() <= 10,
            forall|i: int| 0 <= i < dirs@.len() ==> (#[trigger] dirs@[i]) < 6,
            d <= dirs@.len(),
            houses@.len() <= d,
            d >= 1 ==> houses@.len() >= 1,
            next_id as int == 1 + houses@.len(),
            forall|a: int, b: int|
                0 <= a < b < houses@.len() ==> (#[trigger] houses@[a]).0 != (
                #[trigger] houses@[b]).0,
            forall|k: int| 0 <= k < houses@.len() ==> shape@.contains((#[trigger] houses@[k]).0),
            forall|i: int| 0 <= i < shape@.len() ==> coord_bounded(#[trigger] shape@[i]),
            shape@.len() <= shape0.len() + 7 * d,
            shape0.len() <= 121,
            shape0.len() <= shape@.len(),
            shape@.take(shape0.len() as int) == shape0,
        decreases dirs@.len() - d,
    {
        let cands = corner_wedge_candidates(dirs[d], rmin, rmax);
        let mut chosen: Option<Hex> = None;
        let mut pass: usize = 0;
        while pass < 4
            invariant
                forall|i: int|
                    0 <= i < cands@.len() ==> in_hexagon(#[trigger] cands@[i], rmax as int)
                        && coord_bounded(cands@[i]),
                forall|a: int, b: int|
                    0 <= a < b < houses@.len() ==> (#[trigger] houses@[a]).0 != (
                    #[trigger] houses@[b]).0,
                match chosen {
                    Some(h) => !crate::map::assoc_has(houses@, h) && coord_bounded(h)
                        && in_hexagon(h, rmax as int),
                    None => true,
                },
            decreases 4 - pass,
        {
            let mut i: usize = 0;
            while i < cands.len()
                invariant
                    i <= cands@.len(),
                    forall|i2: int|
                        0 <= i2 < cands@.len() ==> in_hexagon(#[trigger] cands@[i2], rmax as int)
                            && coord_bounded(cands@[i2]),
                    forall|a: int, b: int|
                        0 <= a < b < houses@.len() ==> (#[trigger] houses@[a]).0 != (
                        #[trigger] houses@[b]).0,
                    match chosen {
                        Some(h) => !crate::map::assoc_has(houses@, h) && coord_bounded(h)
                            && in_hexagon(h, rmax as int),
                        None => true,
                    },
                decreases cands@.len() - i,
            {
                if chosen.is_none() {
                    let h = cands[i];
                    if assoc_find(&houses, h).is_none() {
                        if pick_ratio(1, 4) {
                            chosen = Some(h);
                        }
                    }
                }
                i = i + 1;
            }
            pass = pass + 1;
        }
        if chosen.is_none() {
            let mut i: usize = 0;
            while i < cands.len()
                invariant
                    i <= cands@.len(),
                    forall|i2: int|
                        0 <= i2 < cands@.len() ==> in_hexagon(#[trigger] cands@[i2], rmax as int)
                            && coord_bounded(cands@[i2]),
                    forall|a: int, b: int|
                        0 <= a < b < houses@.len() ==> (#[trigger] houses@[a]).0 != (
                        #[trigger] houses@[b]).0,
                    chosen is None ==> forall|i2: int|
                        0 <= i2 < i ==> crate::map::assoc_has(houses@, #[trigger] cands@[i2]),
                    match chosen {
                        Some(h) => !crate::map::assoc_has(houses@, h) && coord_bounded(h)
                            && in_hexagon(h, rmax as int),
                        None => true,
                    },
                decreases cands@.len() - i,
            {
                if chosen.is_none() {
                    let h = cands[i];
                    if assoc_find(&houses, h).is_none() {
                        chosen = Some(h);
                    } else {
                        proof {
                            assert(crate::map::assoc_has(houses@, cands@[i as int]));
                        }
                    }
                }
                i = i + 1;
            }
        }
        proof {
            if houses@.len() == 0 && cands@.len() >= 1 && chosen is None {
                assert(crate::map::assoc_has(houses@, cands@[0]));
                let w = choose|w: int| 0 <= w < houses@.len() && houses@[w].0 == cands@[0];
                assert(false);
            }
        }
        match chosen {
            Some(h) => {
                let ghost houses_before = houses@;
                let ghost shape_before = shape@;
                houses.push((h, next_id));
                next_id = next_id + 1;
                shape.push(h);
                proof {
                    assert forall|k: int|
                        0 <= k < houses@.len() implies shape@.contains(
                        (#[trigger] houses@[k]).0,
                    ) by {
                        if k < houses_before.len() {
                            let w = choose|w: int|
                                0 <= w < shape_before.len() && shape_before[w] == houses_before[
                                    k].0;
                            assert(shape@[w] == houses@[k].0);
                        } else {
                            assert(shape@[shape@.len() - 1] == h);
                        }
                    }
                    assert(shape@.take(shape0.len() as int) == shape0);
                }
                let rev = pick_ratio(1, 2);
                let mut k: usize = 0;
                let mut stop = false;
                while k < 6
                    invariant
                        k <= 6,
                        coord_bounded(h),
                        in_hexagon(h, rmax as int),
                        rmax <= 6,
                        shape@.len() <= shape_before.len() + 1 + k,
                        shape0.len() <= shape@.len(),
                        shape@.take(shape0.len() as int) == shape0,
                        forall|i: int| 0 <= i < shape@.len() ==> coord_bounded(#[trigger] shape@[i]),
                        forall|k2: int|
                            0 <= k2 < houses@.len() ==> shape@.contains((#[trigger] houses@[k2]).0),
                    decreases 6 - k,
                {
                    if !stop {
                        let side = if rev {
                            5 - k
                        } else {
                            k
                        };
                        let nb = h.neighbor(side);
                        if contains_hex(&shape, nb) {
                        } else if pick_ratio(1, 4) {
                            stop = true;
                        } else {
                            let ghost sb = shape@;
                            proof {
                                assert(coord_bounded(nb));
                            }
                            shape.push(nb);
                            proof {
                                assert forall|k2: int|
                                    0 <= k2 < houses@.len() implies shape@.contains(
                                    (#[trigger] houses@[k2]).0,
                                ) by {
                                    let w = choose|w: int|
                                        0 <= w < sb.len() && sb[w] == houses@[k2].0;
                                    assert(shape@[w] == houses@[k2].0);
                                }
                                assert(shape@.take(shape0.len() as int) == shape0);
                            }
                        }
                    }
                    k = k + 1;
                }
            },
            None => {},
        }
        d = d + 1;
    }

    let mut blocked: Vec<(Hex, u64)> = Vec::new();
    let island_r: u32 = if radius <= 2 && level <= 2 {
        0
    } else if radius <= 4 {
        1
    } else {
        2
    };
    if island_r > 0 {
        let cands2 = hexagon(island_r);
        let num: u32 = if island_r == 1 {
            225
        } else {
            125
        };
        proof {
            assert((2 * island_r + 1) * (2 * island_r + 1) <= 25) by (nonlinear_arith)
                requires
                    island_r <= 2,
            ;
        }
        let mut skip: usize = 0;
        let mut i: usize = 0;
        while i < cands2.len()
            invariant
                island_r <= 2,
                2 <= radius <= 5,
                island_r <= radius,
                num <= 1000,
                cands2@.len() <= 25,
                next_id as int <= 12 + i,
                i <= cands2@.len(),
                houses@.len() >= 1,
                forall|a: int, b: int|
                    0 <= a < b < houses@.len() ==> (#[trigger] houses@[a]).0 != (
                    #[trigger] houses@[b]).0,
                forall|k: int| 0 <= k < houses@.len() ==> shape@.contains((#[trigger] houses@[k]).0),
                forall|i2: int| 0 <= i2 < shape@.len() ==> coord_bounded(#[trigger] shape@[i2]),
                shape@.len() <= 300,
                blocked@.len() <= i,
                forall|i2: int|
                    0 <= i2 < cands2@.len() ==> in_hexagon(#[trigger] cands2@[i2], island_r as int),
                shape0.len() <= shape@.len(),
                shape@.take(shape0.len() as int) == shape0,
                forall|g: Hex| in_hexagon(g, radius as int) ==> shape0.contains(g),
                forall|a: int, b: int|
                    0 <= a < b < blocked@.len() ==> (#[trigger] blocked@[a]).0 != (
                    #[trigger] blocked@[b]).0,
                forall|k: int|
                    0 <= k < blocked@.len() ==> shape@.contains((#[trigger] blocked@[k]).0)
                        && !crate::map::assoc_has(houses@, blocked@[k].0),
            decreases cands2@.len() - i,
        {
            let h = cands2[i];
            if skip > 0 {
                skip = skip - 1;
            } else if pick_ratio(num, 1000) {
                skip = 2;
            } else {
                if assoc_find(&houses, h).is_none() && assoc_find(&blocked, h).is_none() {
                    let ghost bb = blocked@;
                    blocked.push((h, next_id));
                    next_id = next_id + 1;
                    proof {
                        assert(in_hexagon(h, radius as int));
                        assert(shape0.contains(h));
                        let w = choose|w: int| 0 <= w < shape0.len() && shape0[w] == h;
                        assert(shape@.take(shape0.len() as int)[w] == h);
                        assert(shape@[w] == h);
                        assert forall|k: int|
                            0 <= k < blocked@.len() implies shape@.contains(
                            (#[trigger] blocked@[k]).0,
                        ) && !crate::map::assoc_has(houses@, blocked@[k].0) by {
                            if k < bb.len() {
                                assert(bb[k] == blocked@[k]);
                            } else {
                                assert(blocked@[k].0 == h);
                            }
                        }
                    }
                }
            }
            i = i + 1;
        }
    }
    let result = spawn_grid(&shape, &houses, &blocked, radius);
    match result {
        Ok(m) => {
            proof {
                assert forall|j: int|
                    0 <= j < m.houses@.len() implies m.tile(
                    #[trigger] m.houses@[j],
                ).placed_hex_e is Some by {
                    assert(m.houses@[j] == houses@[j].0);
                    crate::map::lemma_assoc_at(houses@, j);
                    assert(m.has_tile(houses@[j].0)) by {
                        let w = choose|w: int| 0 <= w < shape@.len() && shape@[w] == houses@[j].0;
                        assert(shape@.contains(houses@[j].0));
                    }
                }
            }
            m
        },
        Err(_) => {
            proof {
                assert(false);
            }
            WorldMap {
                hexes: Vec::new(),
                map_radius: radius,
                houses: Vec::new(),
                graph: crate::graph::RouteGraph::new(),
                edge_connection_nodes: Vec::new(),
            }
        },
    }
}

} // verus!