//! Axial hex coordinates with the operations the route engine needs:
//! neighbour lookup by side index, 60-degree rotation about a pivot, and
//! generation of the hexagonal grid shape.
//!
//! Coordinates are axial `(x, y)` with the implicit cube coordinate
//! `z = -x - y`.  Side indices run clockwise from the top-right edge of a
//! pointy-top hex, so side `s` and side `(s + 3) % 6` point opposite ways.

use vstd::prelude::*;

verus! {

/// An axial hex coordinate.  Equality is by value; the pair is immutable.
#[derive(Clone, Copy, Debug, PartialEq, Eq, Structural, Hash)]
pub struct Hex {
    pub x: i32,
    pub y: i32,
}

/// The `x` component of the unit offset for side `side` (clockwise from
/// top-right): the six offsets are (1,-1), (1,0), (0,1), (-1,1), (-1,0), (0,-1),
/// each one 60-degree clockwise step from the previous.
pub open spec fn dir_x(side: int) -> int {
    if side == 0 {
        1
    } else if side == 1 {
        1
    } else if side == 2 {
        0
    } else if side == 3 {
        -1
    } else if side == 4 {
        -1
    } else {
        0
    }
}

/// The `y` component of the unit offset for side `side`.
pub open spec fn dir_y(side: int) -> int {
    if side == 0 {
        -1
    } else if side == 1 {
        0
    } else if side == 2 {
        1
    } else if side == 3 {
        1
    } else if side == 4 {
        0
    } else {
        -1
    }
}

/// True when `h` lies within the hexagon of the given radius centred on the
/// origin (hex distance from the origin at most `radius`).
pub open spec fn in_hexagon(h: Hex, radius: int) -> bool {
    &&& -radius <= h.x <= radius
    &&& -radius <= h.y <= radius
    &&& -radius <= h.x + h.y <= radius
}

/// Strict lexicographic order on `(x, y)`; the total, deterministic order
/// used to canonicalize edge pairs and to keep generated grids duplicate-free.
pub open spec fn hex_lt(a: Hex, b: Hex) -> bool {
    a.x < b.x || (a.x == b.x && a.y < b.y)
}

/// One clockwise step of `h` about pivot `c`, as exact integer arithmetic.
pub open spec fn rotate_cw_spec(h: Hex, c: Hex) -> Hex {
    Hex { x: (c.x - (h.y - c.y)) as i32, y: (c.y + (h.x - c.x) + (h.y - c.y)) as i32 }
}

/// One counter-clockwise step of `h` about pivot `c`.
pub open spec fn rotate_ccw_spec(h: Hex, c: Hex) -> Hex {
    Hex { x: (c.x + (h.x - c.x) + (h.y - c.y)) as i32, y: (c.y - (h.x - c.x)) as i32 }
}

impl Hex {
    pub fn new(x: i32, y: i32) -> (r: Hex)
        ensures
            r == (Hex { x, y }),
    {
        Hex { x, y }
    }

    pub fn zero() -> (r: Hex)
        ensures
            r == (Hex { x: 0, y: 0 }),
    {
        Hex { x: 0, y: 0 }
    }

    /// Component-wise sum, used to turn a piece-cell offset into an absolute
    /// grid coordinate.
    pub fn add(self, o: Hex) -> (r: Hex)
        requires
            i32::MIN <= self.x + o.x <= i32::MAX,
            i32::MIN <= self.y + o.y <= i32::MAX,
        ensures
            r.x == self.x + o.x,
            r.y == self.y + o.y,
    {
        Hex { x: self.x + o.x, y: self.y + o.y }
    }

    /// The neighbour across side `side`.
    pub fn neighbor(self, side: usize) -> (r: Hex)
        requires
            side < 6,
            i32::MIN <= self.x + dir_x(side as int) <= i32::MAX,
            i32::MIN <= self.y + dir_y(side as int) <= i32::MAX,
        ensures
            r.x == self.x + dir_x(side as int),
            r.y == self.y + dir_y(side as int),
    {
        self.add(neighbor_offset(side))
    }

    /// One 60-degree clockwise rotation of `self` about `pivot`.
    ///
    /// In cube coordinates a clockwise step maps `(x, y, z)` to `(-y, -z, -x)`,
    /// i.e. axially `(x, y)` to `(-y, x + y)`, applied to the offset from the
    /// pivot.
    pub fn cw_around(self, pivot: Hex) -> (r: Hex)
        requires
            i32::MIN <= pivot.x - (self.y - pivot.y) <= i32::MAX,
            i32::MIN <= pivot.y + (self.x - pivot.x) + (self.y - pivot.y) <= i32::MAX,
        ensures
            r.x == pivot.x - (self.y - pivot.y),
            r.y == pivot.y + (self.x - pivot.x) + (self.y - pivot.y),
            r == rotate_cw_spec(self, pivot),
    {
        let dx: i64 = self.x as i64 - pivot.x as i64;
        let dy: i64 = self.y as i64 - pivot.y as i64;
        let rx: i64 = pivot.x as i64 - dy;
        let ry: i64 = pivot.y as i64 + dx + dy;
        Hex { x: rx as i32, y: ry as i32 }
    }

    /// One 60-degree counter-clockwise rotation of `self` about `pivot`:
    /// axially `(x, y)` maps to `(x + y, -x)` on the offset from the pivot.
    pub fn ccw_around(self, pivot: Hex) -> (r: Hex)
        requires
            i32::MIN <= pivot.x + (self.x - pivot.x) + (self.y - pivot.y) <= i32::MAX,
            i32::MIN <= pivot.y - (self.x - pivot.x) <= i32::MAX,
        ensures
            r.x == pivot.x + (self.x - pivot.x) + (self.y - pivot.y),
            r.y == pivot.y - (self.x - pivot.x),
            r == rotate_ccw_spec(self, pivot),
    {
        let dx: i64 = self.x as i64 - pivot.x as i64;
        let dy: i64 = self.y as i64 - pivot.y as i64;
        let rx: i64 = pivot.x as i64 + dx + dy;
        let ry: i64 = pivot.y as i64 - dx;
        Hex { x: rx as i32, y: ry as i32 }
    }
}

/// The unit offset for side `side`, clockwise from the top-right edge.
pub fn neighbor_offset(side: usize) -> (r: Hex)
    requires
        side < 6,
    ensures
        r.x == dir_x(side as int),
        r.y == dir_y(side as int),
{
    if side == 0 {
        Hex { x: 1, y: -1 }
    } else if side == 1 {
        Hex { x: 1, y: 0 }
    } else if side == 2 {
        Hex { x: 0, y: 1 }
    } else if side == 3 {
        Hex { x: -1, y: 1 }
    } else if side == 4 {
        Hex { x: -1, y: 0 }
    } else {
        Hex { x: 0, y: -1 }
    }
}

/// Side `s` and side `(s + 3) % 6` carry opposite unit offsets, so a stub on
/// one cell and the matching stub on its neighbour meet at the same boundary.
pub proof fn lemma_opposite_offsets_cancel(side: int)
    requires
        0 <= side < 6,
    ensures
        dir_x(side) + dir_x((side + 3) % 6) == 0,
        dir_y(side) + dir_y((side + 3) % 6) == 0,
{
}

/// All hexes of the hexagon of the given radius about the origin, each
/// exactly once, in strictly increasing `(x, y)` order.
pub fn hexagon(radius: u32) -> (v: Vec<Hex>)
    requires
        radius <= 0x10000,
    ensures
        forall|i: int| 0 <= i < v@.len() ==> in_hexagon(v@[i], radius as int),
        forall|h: Hex| in_hexagon(h, radius as int) ==> v@.contains(h),
        forall|i: int, j: int| 0 <= i < j < v@.len() ==> hex_lt(v@[i], v@[j]),
        v@.len() <= (2 * radius + 1) * (2 * radius + 1),
{
    let r: i32 = radius as i32;
    let mut v: Vec<Hex> = Vec::new();
    let mut x: i32 = -r;
    while x <= r
        invariant
            -r <= x <= r + 1,
            0 <= r <= 0x10000,
            forall|i: int| 0 <= i < v@.len() ==> in_hexagon(v@[i], r as int),
            forall|h: Hex| in_hexagon(h, r as int) && h.x < x ==> v@.contains(h),
            forall|i: int| 0 <= i < v@.len() ==> v@[i].x < x,
            forall|i: int, j: int| 0 <= i < j < v@.len() ==> hex_lt(v@[i], v@[j]),
            v@.len() <= (x + r) * (2 * r + 1),
        decreases r + 1 - x,
    {
        let ymin: i32 = if -r - x > -r { -r - x } else { -r };
        let ymax: i32 = if r - x < r { r - x } else { r };
        let ghost len_x = v@.len();
        let mut y: i32 = ymin;
        while y <= ymax
            invariant
                -r <= x <= r,
                0 <= r <= 0x10000,
                ymin as int == if -r - x > -r { -r - x } else { -r as int },
                ymax as int == if r - x < r { r - x } else { r as int },
                ymin <= y <= ymax + 1,
                forall|i: int| 0 <= i < v@.len() ==> in_hexagon(v@[i], r as int),
                forall|h: Hex|
                    in_hexagon(h, r as int) && (h.x < x || (h.x == x && h.y < y))
                        ==> v@.contains(h),
                forall|i: int|
                    0 <= i < v@.len() ==> (v@[i].x < x || (v@[i].x == x && v@[i].y < y)),
                forall|i: int, j: int| 0 <= i < j < v@.len() ==> hex_lt(v@[i], v@[j]),
                v@.len() == len_x + (y - ymin),
                len_x <= (x + r) * (2 * r + 1),
            decreases ymax + 1 - y,
        {
            let h = Hex { x, y };
            let ghost old_v = v@;
            v.push(h);
            proof {
                assert forall|g: Hex|
                    in_hexagon(g, r as int) && (g.x < x || (g.x == x && g.y < y + 1))
                        implies v@.contains(g) by {
                    if g.x == x && g.y == y {
                        assert(v@[v@.len() - 1] == g);
                    } else {
                        let i = choose|i: int| 0 <= i < old_v.len() && old_v[i] == g;
                        assert(v@[i] == g);
                    }
                }
            }
            y = y + 1;
        }
        proof {
            assert(v@.len() <= len_x + 2 * r + 1);
            assert(len_x + 2 * r + 1 <= (x + 1 + r) * (2 * r + 1)) by (nonlinear_arith)
                requires
                    len_x <= (x + r) * (2 * r + 1),
                    -r <= x <= r,
                    r >= 0,
            ;
        }
        x = x + 1;
    }
    proof {
        assert((r + 1 + r) * (2 * r + 1) == (2 * r + 1) * (2 * r + 1));
    }
    v
}

} // verus!
