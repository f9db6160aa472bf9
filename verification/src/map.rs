//! The grid and its route graph: per-hex occupancy, canonical edge
//! connections, incremental graph construction from placed pieces, and the
//! completion / dead-end analysis.

use crate::graph::is_path;
use crate::graph::reachable;
use crate::graph::RouteGraph;
use crate::map_completion::CompletedMap;
use crate::piece::piece_conn;
use crate::piece::PieceHexData;
use crate::hex::dir_x;
use crate::hex::dir_y;
use crate::hex::hex_lt;
use crate::hex::Hex;
use vstd::prelude::*;

verus! {

/// An unordered pair of adjacent hexes naming the boundary between them,
/// canonicalized so both orders build the same value.
#[derive(Clone, Copy, Debug, PartialEq, Eq, Structural, Hash)]
pub struct EdgeConnection(pub Hex, pub Hex);

/// The canonical pair for `(a, b)`: the lexicographically larger hex first.
pub open spec fn edge_conn_spec(a: Hex, b: Hex) -> EdgeConnection {
    if hex_lt(b, a) {
        EdgeConnection(a, b)
    } else {
        EdgeConnection(b, a)
    }
}

/// Building the connection from either order gives the same value: the
/// canonical identity the edge-node table relies on.
pub proof fn lemma_edge_conn_comm(a: Hex, b: Hex)
    ensures
        edge_conn_spec(a, b) == edge_conn_spec(b, a),
{
}

fn hex_lt_exec(a: Hex, b: Hex) -> (r: bool)
    ensures
        r == hex_lt(a, b),
{
    a.x < b.x || (a.x == b.x && a.y < b.y)
}

impl EdgeConnection {
    /// Canonicalizes the pair by numeric coordinate order, so `(a, b)` and
    /// `(b, a)` hash and compare as the same connection.
    pub fn new(a: Hex, b: Hex) -> (r: Self)
        ensures
            r == edge_conn_spec(a, b),
    {
        if hex_lt_exec(b, a) {
            EdgeConnection(a, b)
        } else {
            EdgeConnection(b, a)
        }
    }

    pub fn first(&self) -> (r: Hex)
        ensures
            r == self.0,
    {
        self.0
    }

    pub fn second(&self) -> (r: Hex)
        ensures
            r == self.1,
    {
        self.1
    }
}

/// One grid cell: the optional id of the piece cell occupying it, and the
/// tile node allocated for it at grid creation.
#[derive(Clone, Copy, Debug)]
pub struct MapHex {
    pub placed_hex_e: Option<u64>,
    pub node_index: u32,
}

impl MapHex {
    /// A fresh unoccupied cell backed by a newly allocated tile node.
    pub fn empty(graph: &mut RouteGraph) -> (r: Self)
        requires
            old(graph).wf(),
            old(graph).node_count() < 0xffff_ffff,
        ensures
            final(graph).wf(),
            final(graph).node_count() == old(graph).node_count() + 1,
            r.node_index as int == old(graph).node_count(),
            r.placed_hex_e is None,
            forall|a: int, b: int|
                #[trigger] final(graph).has_edge(a, b) <==> old(graph).has_edge(a, b),
            forall|i: int|
                old(graph).in_range(i) ==> final(graph).degree(i) == old(graph).degree(i),
            final(graph).degree(r.node_index as int) == 0,
    {
        MapHex { placed_hex_e: None, node_index: graph.add_node() }
    }

    /// A cell born occupied (a house or a blocked decoration tile).
    pub fn occupied(hex_e: u64, graph: &mut RouteGraph) -> (r: Self)
        requires
            old(graph).wf(),
            old(graph).node_count() < 0xffff_ffff,
        ensures
            final(graph).wf(),
            final(graph).node_count() == old(graph).node_count() + 1,
            r.node_index as int == old(graph).node_count(),
            r.placed_hex_e == Some(hex_e),
            forall|a: int, b: int|
                #[trigger] final(graph).has_edge(a, b) <==> old(graph).has_edge(a, b),
            forall|i: int|
                old(graph).in_range(i) ==> final(graph).degree(i) == old(graph).degree(i),
            final(graph).degree(r.node_index as int) == 0,
    {
        let mut hex = Self::empty(graph);
        hex.placed_hex_e = Some(hex_e);
        hex
    }
}

/// A grid configuration the engine must refuse: completion over such a
/// board would be undefined.
#[derive(Clone, Copy, Debug, PartialEq, Eq, Structural)]
pub enum GridError {
    /// No house was designated.
    NoHouses,
    /// A house lies on a hex that is not part of the grid shape.
    HouseOutsideGrid,
    /// A blocked cell lies outside the grid or on a house.
    BlockedCellInvalid,
}

/// The drag validator's view of one hex of the grid.
#[derive(Clone, Copy, Debug, PartialEq, Eq, Structural)]
pub enum TileState {
    /// The hex is not a cell of the grid.
    Missing,
    /// The cell exists and already holds a piece cell, a house or a block.
    Occupied,
    /// The cell exists and is free.
    Free,
}

/// Coordinates small enough that one neighbour step can never overflow.
pub open spec fn coord_bounded(h: Hex) -> bool {
    &&& -0x4000_0000 <= h.x <= 0x4000_0000
    &&& -0x4000_0000 <= h.y <= 0x4000_0000
}

/// The neighbour of `h` across side `s`.
pub open spec fn hex_neighbor_spec(h: Hex, s: int) -> Hex {
    Hex { x: (h.x + dir_x(s)) as i32, y: (h.y + dir_y(s)) as i32 }
}

/// The canonical connection on side `s` of hex `h`.
pub open spec fn side_conn(h: Hex, s: int) -> EdgeConnection {
    edge_conn_spec(h, hex_neighbor_spec(h, s))
}

pub struct WorldMap {
    /// One entry per grid cell, keyed by hex; keys are unique.
    pub hexes: Vec<(Hex, MapHex)>,
    pub map_radius: u32,
    /// Designated house hexes, each a cell of the grid; duplicate-free.
    pub houses: Vec<Hex>,
    /// Tile and edge nodes with their links.
    pub graph: RouteGraph,
    /// Canonical connection to edge-node handle, one entry per connection.
    pub edge_connection_nodes: Vec<(EdgeConnection, u32)>,
}

/// `h` is a key of the cell table `s`.
pub open spec fn cells_have_key(s: Seq<(Hex, MapHex)>, h: Hex) -> bool {
    exists|i: int| 0 <= i < s.len() && s[i].0 == h
}

/// The index of key `h` in the cell table `s`.
pub open spec fn cells_key_idx(s: Seq<(Hex, MapHex)>, h: Hex) -> int {
    choose|i: int| 0 <= i < s.len() && s[i].0 == h
}

/// `e` is a key of the connection table `t`.
pub open spec fn table_has_conn(t: Seq<(EdgeConnection, u32)>, e: EdgeConnection) -> bool {
    exists|i: int| 0 <= i < t.len() && t[i].0 == e
}

/// The index of connection `e` in the connection table `t`.
pub open spec fn table_conn_idx(t: Seq<(EdgeConnection, u32)>, e: EdgeConnection) -> int {
    choose|i: int| 0 <= i < t.len() && t[i].0 == e
}

/// `n` is the node handle of some entry of the cell table `s`.
pub open spec fn cells_have_node(s: Seq<(Hex, MapHex)>, n: int) -> bool {
    exists|i: int| 0 <= i < s.len() && s[i].1.node_index as int == n
}

/// The index of the cell whose node handle is `n`.
pub open spec fn cells_node_idx(s: Seq<(Hex, MapHex)>, n: int) -> int {
    choose|i: int| 0 <= i < s.len() && s[i].1.node_index as int == n
}

impl WorldMap {
    pub open spec fn has_tile(self, h: Hex) -> bool {
        cells_have_key(self.hexes@, h)
    }

    pub open spec fn tile_idx(self, h: Hex) -> int {
        cells_key_idx(self.hexes@, h)
    }

    pub open spec fn tile(self, h: Hex) -> MapHex {
        self.hexes@[cells_key_idx(self.hexes@, h)].1
    }

    pub open spec fn has_edge_conn(self, e: EdgeConnection) -> bool {
        table_has_conn(self.edge_connection_nodes@, e)
    }

    pub open spec fn edge_conn_idx(self, e: EdgeConnection) -> int {
        table_conn_idx(self.edge_connection_nodes@, e)
    }

    /// The edge-node handle recorded for connection `e`.
    pub open spec fn edge_node_of(self, e: EdgeConnection) -> u32 {
        self.edge_connection_nodes@[table_conn_idx(self.edge_connection_nodes@, e)].1
    }

    pub open spec fn wf(self) -> bool {
        &&& self.graph.wf()
        &&& forall|i: int, j: int|
            0 <= i < j < self.hexes@.len() ==> (#[trigger] self.hexes@[i]).0 != (
            #[trigger] self.hexes@[j]).0
        &&& forall|i: int, j: int|
            0 <= i < j < self.hexes@.len() ==> (#[trigger] self.hexes@[i]).1.node_index != (
            #[trigger] self.hexes@[j]).1.node_index
        &&& forall|i: int|
            0 <= i < self.hexes@.len() ==> self.graph.in_range(
                (#[trigger] self.hexes@[i]).1.node_index as int,
            )
        &&& forall|i: int| 0 <= i < self.hexes@.len() ==> coord_bounded((#[trigger] self.hexes@[i]).0)
        &&& forall|i: int, j: int|
            0 <= i < j < self.edge_connection_nodes@.len() ==> (
            #[trigger] self.edge_connection_nodes@[i]).0 != (
            #[trigger] self.edge_connection_nodes@[j]).0
        &&& forall|i: int, j: int|
            0 <= i < j < self.edge_connection_nodes@.len() ==> (
            #[trigger] self.edge_connection_nodes@[i]).1 != (
            #[trigger] self.edge_connection_nodes@[j]).1
        &&& forall|i: int|
            0 <= i < self.edge_connection_nodes@.len() ==> self.graph.in_range(
                (#[trigger] self.edge_connection_nodes@[i]).1 as int,
            )
        &&& forall|i: int, j: int|
            0 <= i < self.edge_connection_nodes@.len() && 0 <= j < self.hexes@.len() ==> (
            #[trigger] self.edge_connection_nodes@[i]).1 != (#[trigger] self.hexes@[j]).1.node_index
        &&& self.houses@.no_duplicates()
        &&& forall|i: int| 0 <= i < self.houses@.len() ==> self.has_tile(#[trigger] self.houses@[i])
    }

    /// With unique keys, any entry that matches `h` is the entry `tile`
    /// speaks of.
    pub proof fn lemma_tile_at(self, i: int)
        requires
            self.wf(),
            0 <= i < self.hexes@.len(),
        ensures
            self.has_tile(self.hexes@[i].0),
            self.tile_idx(self.hexes@[i].0) == i,
            self.tile(self.hexes@[i].0) == self.hexes@[i].1,
    {
        let h = self.hexes@[i].0;
        assert(self.has_tile(h));
        let j = self.tile_idx(h);
        if i != j {
            assert(self.hexes@[i].0 != self.hexes@[j].0);
        }
    }

    /// With unique connections, any entry that matches `e` is the entry
    /// `edge_node_of` speaks of.
    pub proof fn lemma_edge_conn_at(self, i: int)
        requires
            self.wf(),
            0 <= i < self.edge_connection_nodes@.len(),
        ensures
            self.has_edge_conn(self.edge_connection_nodes@[i].0),
            self.edge_conn_idx(self.edge_connection_nodes@[i].0) == i,
            self.edge_node_of(self.edge_connection_nodes@[i].0)
                == self.edge_connection_nodes@[i].1,
    {
        let e = self.edge_connection_nodes@[i].0;
        assert(self.has_edge_conn(e));
        let j = self.edge_conn_idx(e);
        if i != j {
            assert(self.edge_connection_nodes@[i].0 != self.edge_connection_nodes@[j].0);
        }
    }

    pub fn house_count(&self) -> (n: usize)
        ensures
            n as int == self.houses@.len(),
    {
        self.houses.len()
    }

    /// The state of hex `h` as the drag validator sees it: not a grid
    /// cell, an occupied cell, or a free cell.
    pub fn tile_occupant(&self, h: Hex) -> (r: TileState)
        requires
            self.wf(),
        ensures
            (r == TileState::Missing <==> !self.has_tile(h)),
            self.has_tile(h) ==> (r == TileState::Occupied <==> self.tile(h).placed_hex_e is Some),
            self.has_tile(h) ==> (r == TileState::Free <==> self.tile(h).placed_hex_e is None),
    {
        match self.find_tile(h) {
            None => TileState::Missing,
            Some(i) => {
                proof {
                    self.lemma_tile_at(i as int);
                }
                match self.hexes[i].1.placed_hex_e {
                    Some(_) => TileState::Occupied,
                    None => TileState::Free,
                }
            },
        }
    }

    /// Index of `h` in the cell table, if the grid holds that hex.
    fn find_tile(&self, h: Hex) -> (r: Option<usize>)
        ensures
            match r {
                Some(i) => i < self.hexes@.len() && self.hexes@[i as int].0 == h,
                None => !self.has_tile(h),
            },
    {
        let mut i: usize = 0;
        while i < self.hexes.len()
            invariant
                i <= self.hexes@.len(),
                forall|k: int| 0 <= k < i ==> (#[trigger] self.hexes@[k]).0 != h,
            decreases self.hexes@.len() - i,
        {
            if self.hexes[i].0 == h {
                return Some(i);
            }
            i = i + 1;
        }
        None
    }

    /// Index of connection `e` in the edge-node table, if present.
    fn find_edge_conn(&self, e: EdgeConnection) -> (r: Option<usize>)
        ensures
            match r {
                Some(i) => i < self.edge_connection_nodes@.len()
                    && self.edge_connection_nodes@[i as int].0 == e,
                None => !self.has_edge_conn(e),
            },
    {
        let mut i: usize = 0;
        while i < self.edge_connection_nodes.len()
            invariant
                i <= self.edge_connection_nodes@.len(),
                forall|k: int| 0 <= k < i ==> (#[trigger] self.edge_connection_nodes@[k]).0 != e,
            decreases self.edge_connection_nodes@.len() - i,
        {
            if self.edge_connection_nodes[i].0 == e {
                return Some(i);
            }
            i = i + 1;
        }
        None
    }
}

impl WorldMap {
    /// Returns the edge node recorded for the canonical connection of
    /// `(a, b)`, allocating a fresh node the first time the boundary is
    /// seen.  Idempotent: both orders of the pair, and repeated calls,
    /// yield the same node and allocate at most once.
    pub fn get_or_add_edge_connection(&mut self, a: Hex, b: Hex) -> (n: u32)
        requires
            old(self).wf(),
            old(self).graph.node_count() < 0xffff_ffff,
        ensures
            final(self).wf(),
            final(self).has_edge_conn(edge_conn_spec(a, b)),
            n == final(self).edge_node_of(edge_conn_spec(a, b)),
            final(self).graph.in_range(n as int),
            old(self).has_edge_conn(edge_conn_spec(a, b)) ==> *final(self) == *old(self) && n
                == old(self).edge_node_of(edge_conn_spec(a, b)),
            !old(self).has_edge_conn(edge_conn_spec(a, b)) ==> {
                &&& final(self).edge_connection_nodes@ == old(
                    self,
                ).edge_connection_nodes@.push((edge_conn_spec(a, b), n))
                &&& n as int == old(self).graph.node_count()
                &&& final(self).graph.node_count() == old(self).graph.node_count() + 1
                &&& final(self).graph.degree(n as int) == 0
            },
            final(self).hexes == old(self).hexes,
            final(self).houses == old(self).houses,
            final(self).map_radius == old(self).map_radius,
            final(self).graph.node_count() <= old(self).graph.node_count() + 1,
            forall|x: int, y: int|
                #[trigger] final(self).graph.has_edge(x, y) <==> old(self).graph.has_edge(x, y),
            forall|i: int|
                old(self).graph.in_range(i) ==> final(self).graph.degree(i) == old(
                    self,
                ).graph.degree(i),
            forall|e: EdgeConnection|
                #[trigger] old(self).has_edge_conn(e) ==> final(self).has_edge_conn(e)
                    && final(self).edge_node_of(e) == old(self).edge_node_of(e),
            forall|e: EdgeConnection|
                #[trigger] final(self).has_edge_conn(e) ==> old(self).has_edge_conn(e) || e
                    == edge_conn_spec(a, b),
    {
        let e = EdgeConnection::new(a, b);
        match self.find_edge_conn(e) {
            Some(i) => {
                proof {
                    self.lemma_edge_conn_at(i as int);
                }
                self.edge_connection_nodes[i].1
            },
            None => {
                let n = self.graph.add_node();
                let ghost m0 = *old(self);
                let ghost ecn0 = self.edge_connection_nodes@;
                self.edge_connection_nodes.push((e, n));
                proof {
                    assert(self.edge_connection_nodes@ == ecn0.push((e, n)));
                    // key uniqueness: `e` was absent
                    assert forall|i: int, j: int|
                        0 <= i < j < self.edge_connection_nodes@.len() implies (
                    #[trigger] self.edge_connection_nodes@[i]).0 != (
                    #[trigger] self.edge_connection_nodes@[j]).0 by {
                        if j == self.edge_connection_nodes@.len() - 1 {
                            assert(!m0.has_edge_conn(e));
                            assert(self.edge_connection_nodes@[i] == ecn0[i]);
                        }
                    }
                    // value uniqueness and range: `n` is fresh
                    assert forall|i: int, j: int|
                        0 <= i < j < self.edge_connection_nodes@.len() implies (
                    #[trigger] self.edge_connection_nodes@[i]).1 != (
                    #[trigger] self.edge_connection_nodes@[j]).1 by {
                        if j == self.edge_connection_nodes@.len() - 1 {
                            assert(m0.graph.in_range(ecn0[i].1 as int));
                        }
                    }
                    assert(self.wf());
                    self.lemma_edge_conn_at(self.edge_connection_nodes@.len() - 1);
                    assert forall|e2: EdgeConnection| #[trigger] m0.has_edge_conn(e2)
                        implies self.has_edge_conn(e2) && self.edge_node_of(e2)
                        == m0.edge_node_of(e2) by {
                        let i = m0.edge_conn_idx(e2);
                        assert(self.edge_connection_nodes@[i] == ecn0[i]);
                        self.lemma_edge_conn_at(i);
                        m0.lemma_edge_conn_at(i);
                    }
                    assert forall|e2: EdgeConnection| #[trigger] self.has_edge_conn(e2)
                        implies m0.has_edge_conn(e2) || e2 == e by {
                        let i = self.edge_conn_idx(e2);
                        if i < ecn0.len() {
                            assert(ecn0[i].0 == e2);
                            assert(m0.has_edge_conn(e2));
                        }
                    }
                }
                n
            },
        }
    }
}

/// A graph link that a route stub on side `s` of `hex` must create: the
/// tile is joined to the boundary's edge node, and when the neighbour
/// across that side is a house, the edge node is joined to the house tile
/// as well.
pub open spec fn stub_link(m: WorldMap, hex: Hex, s: int, x: int, y: int) -> bool {
    let e = side_conn(hex, s);
    let nb = hex_neighbor_spec(hex, s);
    let en = m.edge_node_of(e) as int;
    let tn = m.tile(hex).node_index as int;
    ||| (x == tn && y == en)
    ||| (x == en && y == tn)
    ||| (m.houses@.contains(nb) && ((x == en && y == m.tile(nb).node_index as int) || (x == m.tile(
        nb,
    ).node_index as int && y == en)))
}

/// The links demanded by the stubs on sides `0 .. bound` of `hex`.
pub open spec fn cell_links_upto(
    m: WorldMap,
    hex: Hex,
    conn: Seq<bool>,
    bound: int,
    x: int,
    y: int,
) -> bool {
    exists|s: int| 0 <= s < bound && conn[s] && stub_link(m, hex, s, x, y)
}

/// The links demanded by all six sides of `hex`.
pub open spec fn cell_links(m: WorldMap, hex: Hex, conn: Seq<bool>, x: int, y: int) -> bool {
    cell_links_upto(m, hex, conn, 6, x, y)
}

/// Two maps whose cell tables agree on keys and node handles agree on
/// tile lookups (the occupant may differ).
pub open spec fn same_tiles(m1: WorldMap, m2: WorldMap) -> bool {
    &&& m1.hexes@.len() == m2.hexes@.len()
    &&& forall|i: int|
        0 <= i < m1.hexes@.len() ==> (#[trigger] m2.hexes@[i]).0 == m1.hexes@[i].0
            && m2.hexes@[i].1.node_index == m1.hexes@[i].1.node_index
}

proof fn lemma_tile_node_eq(m1: WorldMap, m2: WorldMap, h: Hex)
    requires
        forall|i: int, j: int|
            0 <= i < j < m1.hexes@.len() ==> (#[trigger] m1.hexes@[i]).0 != (
            #[trigger] m1.hexes@[j]).0,
        same_tiles(m1, m2),
        m1.has_tile(h),
    ensures
        m2.has_tile(h),
        m2.tile(h).node_index == m1.tile(h).node_index,
{
    let i = m1.tile_idx(h);
    assert(m2.hexes@[i].0 == h);
    assert(m2.has_tile(h));
    let j = m2.tile_idx(h);
    if i != j {
        assert(m1.hexes@[j].0 == m2.hexes@[j].0);
        assert(m1.hexes@[i].0 != m1.hexes@[j].0 || m1.hexes@[j].0 != m1.hexes@[i].0);
    }
}

/// A stub's demanded links do not change when the map only gains further
/// edge connections: the tile table, houses and this connection's node are
/// untouched.
proof fn lemma_stub_link_stable(m1: WorldMap, m2: WorldMap, hex: Hex, s: int)
    requires
        forall|i: int, j: int|
            0 <= i < j < m1.hexes@.len() ==> (#[trigger] m1.hexes@[i]).0 != (
            #[trigger] m1.hexes@[j]).0,
        same_tiles(m1, m2),
        m1.houses == m2.houses,
        m1.has_tile(hex),
        m1.houses@.contains(hex_neighbor_spec(hex, s)) ==> m1.has_tile(hex_neighbor_spec(hex, s)),
        m1.has_edge_conn(side_conn(hex, s)),
        m2.has_edge_conn(side_conn(hex, s)),
        m2.edge_node_of(side_conn(hex, s)) == m1.edge_node_of(side_conn(hex, s)),
    ensures
        forall|x: int, y: int|
            #[trigger] stub_link(m1, hex, s, x, y) == #[trigger] stub_link(m2, hex, s, x, y),
{
    lemma_tile_node_eq(m1, m2, hex);
    let nb = hex_neighbor_spec(hex, s);
    if m1.houses@.contains(nb) {
        let k = choose|k: int| 0 <= k < m1.houses@.len() && m1.houses@[k] == nb;
        assert(m2.houses@[k] == nb);
        lemma_tile_node_eq(m1, m2, nb);
    }
    if m2.houses@.contains(nb) {
        let k = choose|k: int| 0 <= k < m2.houses@.len() && m2.houses@[k] == nb;
        assert(m1.houses@[k] == nb);
    }
}

impl WorldMap {
    /// Adds the route links of one placed cell: for every flagged side the
    /// cell's tile node is joined to the boundary's edge node, and a house
    /// across a flagged boundary is absorbed by joining its tile to that
    /// edge node too.  Everything already in the graph stays.
    #[verifier::rlimit(100)]
    #[verifier::spinoff_prover]
    fn add_hex_graph_edges(&mut self, hex: Hex, edge_connections: &[bool; 6])
        requires
            old(self).wf(),
            old(self).has_tile(hex),
            old(self).graph.node_count() + 6 <= 0xffff_ffff,
        ensures
            final(self).wf(),
            final(self).hexes == old(self).hexes,
            final(self).houses == old(self).houses,
            final(self).map_radius == old(self).map_radius,
            old(self).graph.node_count() <= final(self).graph.node_count() <= old(
                self,
            ).graph.node_count() + 6,
            forall|e: EdgeConnection|
                #[trigger] old(self).has_edge_conn(e) ==> final(self).has_edge_conn(e)
                    && final(self).edge_node_of(e) == old(self).edge_node_of(e),
            forall|e: EdgeConnection|
                #[trigger] final(self).has_edge_conn(e) <==> old(self).has_edge_conn(e) || (exists|
                    s: int,
                |
                    0 <= s < 6 && edge_connections@[s] && e == side_conn(hex, s)),
            forall|x: int, y: int|
                #[trigger] final(self).graph.has_edge(x, y) <==> old(self).graph.has_edge(x, y)
                    || cell_links(*final(self), hex, edge_connections@, x, y),
    {
        let ti = match self.find_tile(hex) {
            Some(i) => i,
            None => {
                proof {
                    assert(false);
                }
                0
            },
        };
        let tn = self.hexes[ti].1.node_index;
        proof {
            self.lemma_tile_at(ti as int);
        }
        let mut s: usize = 0;
        while s < 6
            invariant
                s <= 6,
                self.wf(),
                old(self).wf(),
                self.hexes == old(self).hexes,
                self.houses == old(self).houses,
                self.map_radius == old(self).map_radius,
                old(self).has_tile(hex),
                self.has_tile(hex),
                tn == self.tile(hex).node_index,
                old(self).graph.node_count() <= self.graph.node_count() <= old(
                    self,
                ).graph.node_count() + s,
                old(self).graph.node_count() + 6 <= 0xffff_ffff,
                forall|e: EdgeConnection|
                    #[trigger] old(self).has_edge_conn(e) ==> self.has_edge_conn(e)
                        && self.edge_node_of(e) == old(self).edge_node_of(e),
                forall|e: EdgeConnection|
                    #[trigger] self.has_edge_conn(e) <==> old(self).has_edge_conn(e) || (exists|
                        s2: int,
                    |
                        0 <= s2 < s && edge_connections@[s2] && e == side_conn(hex, s2)),
                forall|x: int, y: int|
                    #[trigger] self.graph.has_edge(x, y) <==> old(self).graph.has_edge(x, y)
                        || cell_links_upto(*self, hex, edge_connections@, s as int, x, y),
            decreases 6 - s,
        {
            let ghost mp = *self;
            if edge_connections[s] {
                proof {
                    assert(coord_bounded(hex)) by {
                        let i = self.tile_idx(hex);
                        assert(coord_bounded(self.hexes@[i].0));
                    }
                }
                let target = hex.neighbor(s);
                proof {
                    assert(target == hex_neighbor_spec(hex, s as int));
                }
                let ghost e_s = side_conn(hex, s as int);
                let en = self.get_or_add_edge_connection(hex, target);
                let ghost mm = *self;
                proof {
                    lemma_tile_node_eq(mp, mm, hex);
                    assert(tn == mm.tile(hex).node_index);
                    assert(mm.has_edge_conn(e_s) && en == mm.edge_node_of(e_s));
                    // the edge node is no tile node
                    assert(tn != en) by {
                        let i = mm.edge_conn_idx(e_s);
                        let j = mm.tile_idx(hex);
                        assert(mm.edge_connection_nodes@[i].1 != mm.hexes@[j].1.node_index);
                    }
                    assert(mm.graph.in_range(tn as int)) by {
                        let j = mm.tile_idx(hex);
                        assert(mm.graph.in_range(mm.hexes@[j].1.node_index as int));
                    }
                }
                self.graph.add_edge(tn, en);
                let mut house_node: Option<u32> = None;
                if contains_hex(&self.houses, target) {
                    let nti = match self.find_tile(target) {
                        Some(i) => i,
                        None => {
                            proof {
                                let k = choose|k: int|
                                    0 <= k < self.houses@.len() && self.houses@[k] == target;
                                assert(self.has_tile(self.houses@[k]));
                                assert(false);
                            }
                            0
                        },
                    };
                    let nbn = self.hexes[nti].1.node_index;
                    proof {
                        self.lemma_tile_at(nti as int);
                        assert(nbn == self.tile(target).node_index);
                        assert(en != nbn) by {
                            let i = self.edge_conn_idx(e_s);
                            assert(self.edge_connection_nodes@[i].1 != self.hexes@[
                                nti as int].1.node_index);
                        }
                        assert(self.graph.in_range(nbn as int)) by {
                            assert(self.graph.in_range(self.hexes@[nti as int].1.node_index as int));
                        }
                    }
                    self.graph.add_edge(en, nbn);
                    house_node = Some(nbn);
                }
                proof {
                    assert(self.edge_connection_nodes@ == mm.edge_connection_nodes@);
                    assert forall|e2: EdgeConnection| #[trigger] self.has_edge_conn(e2)
                        implies mm.has_edge_conn(e2) by {
                        let i = choose|i: int|
                            0 <= i < self.edge_connection_nodes@.len()
                                && self.edge_connection_nodes@[i].0 == e2;
                        assert(mm.edge_connection_nodes@[i].0 == e2);
                    }
                    assert forall|e2: EdgeConnection| #[trigger] mm.has_edge_conn(e2)
                        implies self.has_edge_conn(e2) by {
                        let i = choose|i: int|
                            0 <= i < mm.edge_connection_nodes@.len()
                                && mm.edge_connection_nodes@[i].0 == e2;
                        assert(self.edge_connection_nodes@[i].0 == e2);
                    }
                    assert forall|e2: EdgeConnection| #[trigger] mm.has_edge_conn(e2)
                        implies self.edge_node_of(e2) == mm.edge_node_of(e2) by {
                        let i = mm.edge_conn_idx(e2);
                        assert(self.edge_connection_nodes@[i].0 == e2);
                        let j = self.edge_conn_idx(e2);
                        if i != j {
                            assert(mm.edge_connection_nodes@[i].0 != mm.edge_connection_nodes@[j].0
                                || mm.edge_connection_nodes@[j].0
                                != mm.edge_connection_nodes@[i].0);
                        }
                    }
                    // connection-table bookkeeping carries to s + 1
                    assert forall|e: EdgeConnection| #[trigger] self.has_edge_conn(e) <==> old(
                        self,
                    ).has_edge_conn(e) || (exists|s2: int|
                        0 <= s2 < s + 1 && edge_connections@[s2] && e == side_conn(hex, s2)) by {
                        if self.has_edge_conn(e) {
                            assert(mm.has_edge_conn(e));
                            if !mp.has_edge_conn(e) {
                                assert(e == e_s);
                                assert(0 <= s < s + 1 && edge_connections@[s as int] && e
                                    == side_conn(hex, s as int));
                            } else {
                                if !old(self).has_edge_conn(e) {
                                    let s2 = choose|s2: int|
                                        0 <= s2 < s && edge_connections@[s2] && e == side_conn(
                                            hex,
                                            s2,
                                        );
                                    assert(0 <= s2 < s + 1 && edge_connections@[s2] && e
                                        == side_conn(hex, s2));
                                }
                            }
                        }
                        if old(self).has_edge_conn(e) {
                            assert(mp.has_edge_conn(e));
                            assert(mm.has_edge_conn(e));
                        }
                        if exists|s2: int|
                            0 <= s2 < s + 1 && edge_connections@[s2] && e == side_conn(hex, s2) {
                            let s2 = choose|s2: int|
                                0 <= s2 < s + 1 && edge_connections@[s2] && e == side_conn(
                                    hex,
                                    s2,
                                );
                            if s2 < s {
                                assert(mp.has_edge_conn(e));
                                assert(mm.has_edge_conn(e));
                            } else {
                                assert(e == e_s);
                                assert(mm.has_edge_conn(e));
                            }
                        }
                    }
                    // stubs already handled keep their meaning
                    assert forall|s2: int|
                        0 <= s2 < s && edge_connections@[s2] implies (forall|x: int, y: int|
                            #[trigger] stub_link(mp, hex, s2, x, y) == stub_link(
                                *self,
                                hex,
                                s2,
                                x,
                                y,
                            )) by {
                        assert(mp.has_edge_conn(side_conn(hex, s2)));
                        assert(self.has_edge_conn(side_conn(hex, s2)) && self.edge_node_of(
                            side_conn(hex, s2),
                        ) == mp.edge_node_of(side_conn(hex, s2)));
                        assert(mp.houses@.contains(hex_neighbor_spec(hex, s2))
                            ==> mp.has_tile(hex_neighbor_spec(hex, s2))) by {
                            if mp.houses@.contains(hex_neighbor_spec(hex, s2)) {
                                let k = choose|k: int|
                                    0 <= k < mp.houses@.len() && mp.houses@[k]
                                        == hex_neighbor_spec(hex, s2);
                                assert(mp.has_tile(mp.houses@[k]));
                            }
                        }
                        lemma_stub_link_stable(mp, *self, hex, s2);
                    }
                    // the new links are exactly this stub's links
                    lemma_tile_node_eq(mm, *self, hex);
                    assert(self.edge_node_of(e_s) == en);
                    assert forall|x: int, y: int| #[trigger] self.graph.has_edge(x, y) <==> old(
                        self,
                    ).graph.has_edge(x, y) || cell_links_upto(
                        *self,
                        hex,
                        edge_connections@,
                        s + 1,
                        x,
                        y,
                    ) by {
                        let nb = hex_neighbor_spec(hex, s as int);
                        if self.graph.has_edge(x, y) {
                            if mm.graph.has_edge(x, y) {
                                assert(mp.graph.has_edge(x, y));
                                if !old(self).graph.has_edge(x, y) {
                                    let s2 = choose|s2: int|
                                        0 <= s2 < s && edge_connections@[s2] && stub_link(
                                            mp,
                                            hex,
                                            s2,
                                            x,
                                            y,
                                        );
                                    assert(stub_link(*self, hex, s2, x, y));
                                    assert(cell_links_upto(
                                        *self,
                                        hex,
                                        edge_connections@,
                                        s + 1,
                                        x,
                                        y,
                                    ));
                                }
                            } else {
                                // one of the freshly added pairs
                                assert(stub_link(*self, hex, s as int, x, y)) by {
                                    if house_node is Some {
                                        let k = choose|k: int|
                                            0 <= k < self.houses@.len() && self.houses@[k] == nb;
                                    }
                                }
                                assert(cell_links_upto(*self, hex, edge_connections@, s + 1, x, y));
                            }
                        }
                        if old(self).graph.has_edge(x, y) {
                            assert(mp.graph.has_edge(x, y));
                            assert(mm.graph.has_edge(x, y));
                            assert(self.graph.has_edge(x, y));
                        }
                        if cell_links_upto(*self, hex, edge_connections@, s + 1, x, y) {
                            let s2 = choose|s2: int|
                                0 <= s2 < s + 1 && edge_connections@[s2] && stub_link(
                                    *self,
                                    hex,
                                    s2,
                                    x,
                                    y,
                                );
                            if s2 < s {
                                assert(stub_link(mp, hex, s2, x, y));
                                assert(cell_links_upto(mp, hex, edge_connections@, s as int, x, y));
                                assert(mp.graph.has_edge(x, y));
                                assert(self.graph.has_edge(x, y));
                            } else {
                                assert(stub_link(*self, hex, s as int, x, y));
                                assert(self.tile(hex).node_index == tn);
                                if self.houses@.contains(nb) {
                                    assert(house_node is Some);
                                }
                                assert(self.graph.has_edge(x, y));
                            }
                        }
                    }
                }
            } else {
                proof {
                    assert forall|e: EdgeConnection| #[trigger] self.has_edge_conn(e) <==> old(
                        self,
                    ).has_edge_conn(e) || (exists|s2: int|
                        0 <= s2 < s + 1 && edge_connections@[s2] && e == side_conn(hex, s2)) by {
                        if exists|s2: int|
                            0 <= s2 < s + 1 && edge_connections@[s2] && e == side_conn(hex, s2) {
                            let s2 = choose|s2: int|
                                0 <= s2 < s + 1 && edge_connections@[s2] && e == side_conn(
                                    hex,
                                    s2,
                                );
                            assert(s2 < s);
                        }
                    }
                    assert forall|x: int, y: int| #[trigger] self.graph.has_edge(x, y) <==> old(
                        self,
                    ).graph.has_edge(x, y) || cell_links_upto(
                        *self,
                        hex,
                        edge_connections@,
                        s + 1,
                        x,
                        y,
                    ) by {
                        if cell_links_upto(*self, hex, edge_connections@, s + 1, x, y) {
                            let s2 = choose|s2: int|
                                0 <= s2 < s + 1 && edge_connections@[s2] && stub_link(
                                    *self,
                                    hex,
                                    s2,
                                    x,
                                    y,
                                );
                            assert(s2 < s);
                            assert(cell_links_upto(*self, hex, edge_connections@, s as int, x, y));
                        }
                        if self.graph.has_edge(x, y) && !old(self).graph.has_edge(x, y) {
                            let s2 = choose|s2: int|
                                0 <= s2 < s && edge_connections@[s2] && stub_link(
                                    *self,
                                    hex,
                                    s2,
                                    x,
                                    y,
                                );
                            assert(cell_links_upto(*self, hex, edge_connections@, s + 1, x, y));
                        }
                    }
                }
            }
            s = s + 1;
        }
    }
}

/// The absolute hex of a piece cell: anchor plus offset.
pub open spec fn hex_add_spec(a: Hex, o: Hex) -> Hex {
    Hex { x: (a.x + o.x) as i32, y: (a.y + o.y) as i32 }
}

/// A canonical connection demanded by a stub of one of the first `bound`
/// cells of a piece dropped at `anchor`.
pub open spec fn piece_demands_conn_upto(
    anchor: Hex,
    cells: Seq<(Hex, PieceHexData)>,
    bound: int,
    e: EdgeConnection,
) -> bool {
    exists|c: int, s: int|
        0 <= c < bound && 0 <= s < 6 && piece_conn(cells[c].1, s) && e == side_conn(
            hex_add_spec(anchor, cells[c].0),
            s,
        )
}

/// The graph links demanded by the first `bound` cells of a piece dropped
/// at `anchor`.
/// The links demanded by cell `c` of a piece dropped at `anchor`; a
/// filler cell demands none.
pub open spec fn cell_links_of(
    m: WorldMap,
    anchor: Hex,
    cells: Seq<(Hex, PieceHexData)>,
    c: int,
    x: int,
    y: int,
) -> bool {
    match cells[c].1.connections {
        Some(conn) => cell_links(m, hex_add_spec(anchor, cells[c].0), conn@, x, y),
        None => false,
    }
}

pub open spec fn piece_links_upto(
    m: WorldMap,
    anchor: Hex,
    cells: Seq<(Hex, PieceHexData)>,
    bound: int,
    x: int,
    y: int,
) -> bool {
    exists|c: int| 0 <= c < bound && #[trigger] cell_links_of(m, anchor, cells, c, x, y)
}

/// The graph links demanded by the whole piece.
pub open spec fn piece_links(
    m: WorldMap,
    anchor: Hex,
    cells: Seq<(Hex, PieceHexData)>,
    x: int,
    y: int,
) -> bool {
    piece_links_upto(m, anchor, cells, cells.len() as int, x, y)
}

/// A placed cell's demanded links keep their meaning while the map gains
/// further connections and occupants.
proof fn lemma_cell_links_stable(m1: WorldMap, m2: WorldMap, hex: Hex, conn: Seq<bool>)
    requires
        forall|i: int, j: int|
            0 <= i < j < m1.hexes@.len() ==> (#[trigger] m1.hexes@[i]).0 != (
            #[trigger] m1.hexes@[j]).0,
        same_tiles(m1, m2),
        m1.houses == m2.houses,
        m1.has_tile(hex),
        forall|k: int| 0 <= k < m1.houses@.len() ==> m1.has_tile(#[trigger] m1.houses@[k]),
        forall|s: int|
            0 <= s < 6 && conn[s] ==> m1.has_edge_conn(#[trigger] side_conn(hex, s))
                && m2.has_edge_conn(side_conn(hex, s)) && m2.edge_node_of(side_conn(hex, s))
                == m1.edge_node_of(side_conn(hex, s)),
    ensures
        forall|x: int, y: int|
            #[trigger] cell_links(m1, hex, conn, x, y) == #[trigger] cell_links(m2, hex, conn, x, y),
{
    assert forall|s: int| 0 <= s < 6 && conn[s] implies (forall|x: int, y: int|
        #[trigger] stub_link(m1, hex, s, x, y) == stub_link(m2, hex, s, x, y)) by {
        assert(m1.houses@.contains(hex_neighbor_spec(hex, s)) ==> m1.has_tile(
            hex_neighbor_spec(hex, s),
        )) by {
            if m1.houses@.contains(hex_neighbor_spec(hex, s)) {
                let k = choose|k: int|
                    0 <= k < m1.houses@.len() && m1.houses@[k] == hex_neighbor_spec(hex, s);
                assert(m1.has_tile(m1.houses@[k]));
            }
        }
        lemma_stub_link_stable(m1, m2, hex, s);
    }
    assert forall|x: int, y: int|
        #[trigger] cell_links(m1, hex, conn, x, y) == #[trigger] cell_links(
            m2,
            hex,
            conn,
            x,
            y,
        ) by {
        if cell_links(m1, hex, conn, x, y) {
            let s = choose|s: int| 0 <= s < 6 && conn[s] && stub_link(m1, hex, s, x, y);
            assert(stub_link(m2, hex, s, x, y));
        }
        if cell_links(m2, hex, conn, x, y) {
            let s = choose|s: int| 0 <= s < 6 && conn[s] && stub_link(m2, hex, s, x, y);
            assert(stub_link(m1, hex, s, x, y));
        }
    }
}

/// `h` occurs among the first `n` entries of `s`.
pub open spec fn hex_in_prefix(s: Seq<Hex>, n: int, h: Hex) -> bool {
    exists|k: int| 0 <= k < n && s[k] == h
}

proof fn lemma_prefix_widen(s: Seq<Hex>, n1: int, n2: int, h: Hex)
    requires
        hex_in_prefix(s, n1, h),
        n1 <= n2,
    ensures
        hex_in_prefix(s, n2, h),
{
    let k = choose|k: int| 0 <= k < n1 && s[k] == h;
    assert(0 <= k < n2 && s[k] == h);
}

proof fn lemma_prefix_at(s: Seq<Hex>, n: int)
    requires
        0 <= n < s.len(),
    ensures
        hex_in_prefix(s, n + 1, s[n]),
{
    assert(0 <= n < n + 1 && s[n] == s[n]);
}

/// `h` is a key of the association list `s`.
pub open spec fn assoc_has(s: Seq<(Hex, u64)>, h: Hex) -> bool {
    exists|i: int| 0 <= i < s.len() && s[i].0 == h
}

/// The value stored under key `h`.
pub open spec fn assoc_get(s: Seq<(Hex, u64)>, h: Hex) -> u64 {
    s[choose|i: int| 0 <= i < s.len() && s[i].0 == h].1
}

/// The occupant a fresh grid gives hex `h`: a house id first, else a
/// blocked-cell id, else nothing.
pub open spec fn initial_occupant(
    houses: Seq<(Hex, u64)>,
    blocked: Seq<(Hex, u64)>,
    h: Hex,
) -> Option<u64> {
    if assoc_has(houses, h) {
        Some(assoc_get(houses, h))
    } else if assoc_has(blocked, h) {
        Some(assoc_get(blocked, h))
    } else {
        None
    }
}

pub(crate) proof fn lemma_assoc_at(s: Seq<(Hex, u64)>, i: int)
    requires
        forall|a: int, b: int| 0 <= a < b < s.len() ==> (#[trigger] s[a]).0 != (#[trigger] s[b]).0,
        0 <= i < s.len(),
    ensures
        assoc_has(s, s[i].0),
        assoc_get(s, s[i].0) == s[i].1,
{
    assert(assoc_has(s, s[i].0));
    let j = choose|j: int| 0 <= j < s.len() && s[j].0 == s[i].0;
    if i != j {
        assert(s[i].0 != s[j].0);
    }
}

pub(crate) fn assoc_find(v: &Vec<(Hex, u64)>, h: Hex) -> (r: Option<u64>)
    requires
        forall|a: int, b: int|
            0 <= a < b < v@.len() ==> (#[trigger] v@[a]).0 != (#[trigger] v@[b]).0,
    ensures
        r == if assoc_has(v@, h) {
            Some(assoc_get(v@, h))
        } else {
            Option::<u64>::None
        },
{
    let mut i: usize = 0;
    while i < v.len()
        invariant
            i <= v@.len(),
            forall|a: int, b: int|
                0 <= a < b < v@.len() ==> (#[trigger] v@[a]).0 != (#[trigger] v@[b]).0,
            forall|k: int| 0 <= k < i ==> (#[trigger] v@[k]).0 != h,
        decreases v@.len() - i,
    {
        if v[i].0 == h {
            proof {
                lemma_assoc_at(v@, i as int);
            }
            return Some(v[i].1);
        }
        i = i + 1;
    }
    None
}

pub(crate) fn contains_hex(v: &Vec<Hex>, h: Hex) -> (r: bool)
    ensures
        r == v@.contains(h),
{
    let mut i: usize = 0;
    while i < v.len()
        invariant
            i <= v@.len(),
            forall|k: int| 0 <= k < i ==> v@[k] != h,
        decreases v@.len() - i,
    {
        if v[i] == h {
            return true;
        }
        i = i + 1;
    }
    false
}

/// Builds the round's grid: one tile node per hex of `shape` (duplicates
/// collapse), the given houses designated and occupied, blocked decoration
/// cells occupied, and no route edges yet.
///
/// A grid with no houses, a house outside the shape, or an ill-placed
/// blocked cell is refused: completion over it would be undefined.
pub fn spawn_grid(
    shape: &Vec<Hex>,
    houses: &Vec<(Hex, u64)>,
    blocked: &Vec<(Hex, u64)>,
    radius: u32,
) -> (r: Result<WorldMap, GridError>)
    requires
        forall|i: int| 0 <= i < shape@.len() ==> coord_bounded(#[trigger] shape@[i]),
        shape@.len() < 0xffff_ffff,
        forall|a: int, b: int|
            0 <= a < b < houses@.len() ==> (#[trigger] houses@[a]).0 != (#[trigger] houses@[b]).0,
        forall|a: int, b: int|
            0 <= a < b < blocked@.len() ==> (#[trigger] blocked@[a]).0 != (
            #[trigger] blocked@[b]).0,
    ensures
        match r {
            Ok(m) => {
                &&& m.wf()
                &&& m.map_radius == radius
                &&& m.houses@ == houses@.map_values(|p: (Hex, u64)| p.0)
                &&& m.houses@.len() > 0
                &&& forall|h: Hex| m.has_tile(h) <==> shape@.contains(h)
                &&& forall|h: Hex|
                    #[trigger] m.has_tile(h) ==> m.tile(h).placed_hex_e == initial_occupant(
                        houses@,
                        blocked@,
                        h,
                    )
                &&& forall|x: int, y: int| !m.graph.has_edge(x, y)
                &&& m.edge_connection_nodes@.len() == 0
                &&& m.graph.node_count() == m.hexes@.len()
                &&& m.hexes@.len() <= shape@.len()
            },
            Err(e) => {
                &&& (e == GridError::NoHouses <==> houses@.len() == 0)
                &&& (e == GridError::HouseOutsideGrid ==> exists|i: int|
                    0 <= i < houses@.len() && !shape@.contains((#[trigger] houses@[i]).0))
                &&& (e == GridError::BlockedCellInvalid ==> exists|i: int|
                    0 <= i < blocked@.len() && (!shape@.contains((#[trigger] blocked@[i]).0)
                        || assoc_has(houses@, blocked@[i].0)))
            },
        },
        r is Err <==> (houses@.len() == 0 || (exists|i: int|
            0 <= i < houses@.len() && !shape@.contains((#[trigger] houses@[i]).0)) || (exists|
            i: int,
        |
            0 <= i < blocked@.len() && (!shape@.contains((#[trigger] blocked@[i]).0) || assoc_has(
                houses@,
                blocked@[i].0,
            )))),
{
    if houses.len() == 0 {
        return Err(GridError::NoHouses);
    }
    let mut i: usize = 0;
    while i < houses.len()
        invariant
            i <= houses@.len(),
            forall|k: int| 0 <= k < i ==> shape@.contains((#[trigger] houses@[k]).0),
        decreases houses@.len() - i,
    {
        if !contains_hex(shape, houses[i].0) {
            return Err(GridError::HouseOutsideGrid);
        }
        i = i + 1;
    }
    let mut i: usize = 0;
    while i < blocked.len()
        invariant
            i <= blocked@.len(),
            houses@.len() > 0,
            forall|a: int, b: int|
                0 <= a < b < houses@.len() ==> (#[trigger] houses@[a]).0 != (
                #[trigger] houses@[b]).0,
            forall|k: int|
                0 <= k < i ==> shape@.contains((#[trigger] blocked@[k]).0) && !assoc_has(
                    houses@,
                    blocked@[k].0,
                ),
        decreases blocked@.len() - i,
    {
        let on_house = assoc_find(houses, blocked[i].0);
        if !contains_hex(shape, blocked[i].0) || on_house.is_some() {
            proof {
                assert(!shape@.contains((blocked@[i as int]).0) || assoc_has(
                    houses@,
                    blocked@[i as int].0,
                ));
            }
            return Err(GridError::BlockedCellInvalid);
        }
        i = i + 1;
    }

    let mut graph = RouteGraph::new();
    let mut hexes: Vec<(Hex, MapHex)> = Vec::new();
    let mut i: usize = 0;
    while i < shape.len()
        invariant
            i <= shape@.len(),
            shape@.len() < 0xffff_ffff,
            forall|k: int| 0 <= k < shape@.len() ==> coord_bounded(#[trigger] shape@[k]),
            graph.wf(),
            graph.node_count() == hexes@.len(),
            hexes@.len() <= i,
            forall|x: int, y: int| !graph.has_edge(x, y),
            forall|j: int| 0 <= j < hexes@.len() ==> (#[trigger] hexes@[j]).1.node_index as int == j,
            forall|a: int, b: int|
                0 <= a < b < hexes@.len() ==> (#[trigger] hexes@[a]).0 != (#[trigger] hexes@[b]).0,
            forall|j: int| 0 <= j < hexes@.len() ==> coord_bounded((#[trigger] hexes@[j]).0),
            forall|h: Hex|
                #[trigger] hex_in_prefix(shape@, i as int, h) <==> cells_have_key(hexes@, h),
            forall|j: int|
                0 <= j < hexes@.len() ==> (#[trigger] hexes@[j]).1.placed_hex_e == initial_occupant(
                    houses@,
                    blocked@,
                    hexes@[j].0,
                ),
            forall|a: int, b: int|
                0 <= a < b < houses@.len() ==> (#[trigger] houses@[a]).0 != (
                #[trigger] houses@[b]).0,
            forall|a: int, b: int|
                0 <= a < b < blocked@.len() ==> (#[trigger] blocked@[a]).0 != (
                #[trigger] blocked@[b]).0,
        decreases shape@.len() - i,
    {
        let h = shape[i];
        let mut exists_already = false;
        let mut j: usize = 0;
        while j < hexes.len()
            invariant
                j <= hexes@.len(),
                exists_already == (exists|k: int| 0 <= k < j && (#[trigger] hexes@[k]).0 == h),
            decreases hexes@.len() - j,
        {
            if hexes[j].0 == h {
                exists_already = true;
            }
            j = j + 1;
        }
        if !exists_already {
            let occupant = match assoc_find(houses, h) {
                Some(e) => Some(e),
                None => assoc_find(blocked, h),
            };
            let ghost hexes0 = hexes@;
            let map_hex = match occupant {
                Some(e) => MapHex::occupied(e, &mut graph),
                None => MapHex::empty(&mut graph),
            };
            hexes.push((h, map_hex));
            proof {
                assert(hexes@ == hexes0.push((h, map_hex)));
                assert forall|g: Hex|
                    #[trigger] hex_in_prefix(shape@, i + 1, g) <==> cells_have_key(hexes@, g) by {
                    if hex_in_prefix(shape@, i + 1, g) {
                        let k = choose|k: int| 0 <= k < i + 1 && shape@[k] == g;
                        if k < i {
                            assert(hex_in_prefix(shape@, i as int, g));
                            assert(cells_have_key(hexes0, g));
                            let j2 = choose|j2: int| 0 <= j2 < hexes0.len() && hexes0[j2].0 == g;
                            assert(hexes@[j2].0 == g);
                        } else {
                            assert(hexes@[hexes@.len() - 1].0 == g);
                        }
                        assert(cells_have_key(hexes@, g));
                    }
                    if cells_have_key(hexes@, g) {
                        let j2 = choose|j2: int| 0 <= j2 < hexes@.len() && hexes@[j2].0 == g;
                        if j2 < hexes0.len() {
                            assert(cells_have_key(hexes0, g));
                            assert(hex_in_prefix(shape@, i as int, g));
                            lemma_prefix_widen(shape@, i as int, i + 1, g);
                        } else {
                            assert(shape@[i as int] == g);
                            lemma_prefix_at(shape@, i as int);
                        }
                    }
                }
            }
        } else {
            proof {
                assert forall|g: Hex|
                    #[trigger] hex_in_prefix(shape@, i + 1, g) <==> cells_have_key(hexes@, g) by {
                    if hex_in_prefix(shape@, i + 1, g) {
                        let k = choose|k: int| 0 <= k < i + 1 && shape@[k] == g;
                        if k == i {
                            assert(g == h);
                            let k2 = choose|k2: int| 0 <= k2 < j && hexes@[k2].0 == h;
                            assert(hexes@[k2].0 == g);
                            assert(cells_have_key(hexes@, g));
                        } else {
                            assert(hex_in_prefix(shape@, i as int, g));
                        }
                    }
                    if cells_have_key(hexes@, g) {
                        assert(hex_in_prefix(shape@, i as int, g));
                        lemma_prefix_widen(shape@, i as int, i + 1, g);
                    }
                }
            }
        }
        i = i + 1;
    }

    let mut house_hexes: Vec<Hex> = Vec::new();
    let mut i: usize = 0;
    while i < houses.len()
        invariant
            i <= houses@.len(),
            house_hexes@ == houses@.take(i as int).map_values(|p: (Hex, u64)| p.0),
        decreases houses@.len() - i,
    {
        house_hexes.push(houses[i].0);
        proof {
            assert(houses@.take(i + 1).map_values(|p: (Hex, u64)| p.0) == houses@.take(
                i as int,
            ).map_values(|p: (Hex, u64)| p.0).push(houses@[i as int].0));
        }
        i = i + 1;
    }
    proof {
        assert(houses@.take(houses@.len() as int) == houses@);
    }

    let m = WorldMap {
        hexes,
        map_radius: radius,
        houses: house_hexes,
        graph,
        edge_connection_nodes: Vec::new(),
    };
    proof {
        assert forall|i2: int| 0 <= i2 < m.houses@.len() implies m.has_tile(
            #[trigger] m.houses@[i2],
        ) by {
            assert(m.houses@[i2] == houses@[i2].0);
            assert(shape@.contains(houses@[i2].0));
            let k = choose|k: int| 0 <= k < shape@.len() && shape@[k] == houses@[i2].0;
            assert(hex_in_prefix(shape@, shape@.len() as int, houses@[i2].0));
            assert(cells_have_key(m.hexes@, houses@[i2].0));
        }
        assert(m.houses@.no_duplicates()) by {
            assert forall|a: int, b: int|
                0 <= a < b < m.houses@.len() implies m.houses@[a] != m.houses@[b] by {
                assert(houses@[a].0 != houses@[b].0);
            }
        }
        assert forall|h: Hex| #[trigger] m.has_tile(h) implies m.tile(h).placed_hex_e
            == initial_occupant(houses@, blocked@, h) by {
            let j = m.tile_idx(h);
            assert(m.hexes@[j].1.placed_hex_e == initial_occupant(houses@, blocked@, m.hexes@[j].0));
        }
        assert forall|h: Hex| #[trigger] m.has_tile(h) implies shape@.contains(h) by {
            assert(cells_have_key(m.hexes@, h));
            assert(hex_in_prefix(shape@, shape@.len() as int, h));
            let k = choose|k: int| 0 <= k < shape@.len() && shape@[k] == h;
            assert(shape@[k] == h);
        }
        assert forall|h: Hex| #[trigger] shape@.contains(h) implies m.has_tile(h) by {
            let k = choose|k: int| 0 <= k < shape@.len() && shape@[k] == h;
            assert(hex_in_prefix(shape@, shape@.len() as int, h));
            assert(cells_have_key(m.hexes@, h));
        }
    }
    Ok(m)
}

impl WorldMap {
    /// Applies one validated piece: every cell's stubs are turned into
    /// graph links and every cell's hex is marked occupied — the whole
    /// piece at once, against a map the validator has already approved.
    ///
    /// The contract reflects the placement completely: occupancy changes
    /// exactly on the piece's cells, the tile table and houses are fixed,
    /// old connections and links persist, and the new ones are exactly the
    /// piece's stubs.
    #[verifier::rlimit(100)]
    #[verifier::spinoff_prover]
    pub fn place_piece(&mut self, hex: Hex, piece_hexes: &Vec<(Hex, PieceHexData)>)
        requires
            old(self).wf(),
            forall|a: int, b: int|
                0 <= a < b < piece_hexes@.len() ==> (#[trigger] piece_hexes@[a]).0 != (
                #[trigger] piece_hexes@[b]).0,
            forall|c: int|
                0 <= c < piece_hexes@.len() ==> {
                    &&& i32::MIN <= hex.x + (#[trigger] piece_hexes@[c]).0.x <= i32::MAX
                    &&& i32::MIN <= hex.y + piece_hexes@[c].0.y <= i32::MAX
                    &&& old(self).has_tile(hex_add_spec(hex, piece_hexes@[c].0))
                    &&& old(self).tile(hex_add_spec(hex, piece_hexes@[c].0)).placed_hex_e is None
                },
            old(self).graph.node_count() + 6 * piece_hexes@.len() <= 0xffff_ffff,
        ensures
            final(self).wf(),
            final(self).houses == old(self).houses,
            final(self).map_radius == old(self).map_radius,
            final(self).hexes@.len() == old(self).hexes@.len(),
            forall|i: int|
                0 <= i < old(self).hexes@.len() ==> (#[trigger] final(self).hexes@[i]).0 == old(
                    self,
                ).hexes@[i].0 && final(self).hexes@[i].1.node_index == old(
                    self,
                ).hexes@[i].1.node_index,
            forall|c: int|
                0 <= c < piece_hexes@.len() ==> final(self).tile(
                    hex_add_spec(hex, (#[trigger] piece_hexes@[c]).0),
                ).placed_hex_e == Some(piece_hexes@[c].1.entity),
            forall|i: int|
                0 <= i < old(self).hexes@.len() && !(exists|c: int|
                    0 <= c < piece_hexes@.len() && hex_add_spec(hex, (#[trigger] piece_hexes@[c]).0)
                        == (#[trigger] old(self).hexes@[i]).0) ==> final(self).hexes@[i].1 == old(
                    self,
                ).hexes@[i].1,
            old(self).graph.node_count() <= final(self).graph.node_count() <= old(
                self,
            ).graph.node_count() + 6 * piece_hexes@.len(),
            forall|e: EdgeConnection|
                #[trigger] old(self).has_edge_conn(e) ==> final(self).has_edge_conn(e)
                    && final(self).edge_node_of(e) == old(self).edge_node_of(e),
            forall|e: EdgeConnection|
                #[trigger] final(self).has_edge_conn(e) <==> old(self).has_edge_conn(e)
                    || piece_demands_conn_upto(hex, piece_hexes@, piece_hexes@.len() as int, e),
            forall|x: int, y: int|
                #[trigger] final(self).graph.has_edge(x, y) <==> old(self).graph.has_edge(x, y)
                    || piece_links(*final(self), hex, piece_hexes@, x, y),
    {
        let ghost cells = piece_hexes@;
        let ghost m_a = *old(self);

        // first pass: grow the graph for every route cell
        let mut c: usize = 0;
        while c < piece_hexes.len()
            invariant
                c <= cells.len(),
                cells == piece_hexes@,
                self.wf(),
                m_a.wf(),
                m_a == *old(self),
                forall|a: int, b: int|
                    0 <= a < b < cells.len() ==> (#[trigger] cells[a]).0 != (#[trigger] cells[b]).0,
                forall|c2: int|
                    0 <= c2 < cells.len() ==> {
                        &&& i32::MIN <= hex.x + (#[trigger] cells[c2]).0.x <= i32::MAX
                        &&& i32::MIN <= hex.y + cells[c2].0.y <= i32::MAX
                        &&& m_a.has_tile(hex_add_spec(hex, cells[c2].0))
                        &&& m_a.tile(hex_add_spec(hex, cells[c2].0)).placed_hex_e is None
                    },
                m_a.graph.node_count() + 6 * cells.len() <= 0xffff_ffff,
                self.hexes == m_a.hexes,
                self.houses == m_a.houses,
                self.map_radius == m_a.map_radius,
                m_a.graph.node_count() <= self.graph.node_count() <= m_a.graph.node_count() + 6
                    * c,
                forall|e: EdgeConnection|
                    #[trigger] m_a.has_edge_conn(e) ==> self.has_edge_conn(e)
                        && self.edge_node_of(e) == m_a.edge_node_of(e),
                forall|e: EdgeConnection|
                    #[trigger] self.has_edge_conn(e) <==> m_a.has_edge_conn(e)
                        || piece_demands_conn_upto(hex, cells, c as int, e),
                forall|x: int, y: int|
                    #[trigger] self.graph.has_edge(x, y) <==> m_a.graph.has_edge(x, y)
                        || piece_links_upto(*self, hex, cells, c as int, x, y),
            decreases cells.len() - c,
        {
            let off = piece_hexes[c].0;
            let data = piece_hexes[c].1;
            let abs = hex.add(off);
            proof {
                assert(abs == hex_add_spec(hex, off));
            }
            let ghost mp = *self;
            match data.connections {
                Some(conn) => {
                    self.add_hex_graph_edges(abs, &conn);
                    proof {
                        // the connection table now covers cell `c` as well
                        assert forall|e: EdgeConnection| #[trigger] self.has_edge_conn(e)
                            <==> m_a.has_edge_conn(e) || piece_demands_conn_upto(
                            hex,
                            cells,
                            c + 1,
                            e,
                        ) by {
                            if self.has_edge_conn(e) && !m_a.has_edge_conn(e) {
                                if mp.has_edge_conn(e) {
                                    let (c2, s) = choose|c2: int, s: int|
                                        0 <= c2 < c && 0 <= s < 6 && piece_conn(cells[c2].1, s)
                                            && e == side_conn(hex_add_spec(hex, cells[c2].0), s);
                                    assert(piece_demands_conn_upto(hex, cells, c + 1, e));
                                } else {
                                    let s = choose|s: int|
                                        0 <= s < 6 && conn@[s] && e == side_conn(abs, s);
                                    assert(piece_conn(cells[c as int].1, s));
                                    assert(piece_demands_conn_upto(hex, cells, c + 1, e));
                                }
                            }
                            if piece_demands_conn_upto(hex, cells, c + 1, e) {
                                let (c2, s) = choose|c2: int, s: int|
                                    0 <= c2 < c + 1 && 0 <= s < 6 && piece_conn(cells[c2].1, s)
                                        && e == side_conn(hex_add_spec(hex, cells[c2].0), s);
                                if c2 < c {
                                    assert(piece_demands_conn_upto(hex, cells, c as int, e));
                                    assert(mp.has_edge_conn(e));
                                } else {
                                    assert(conn@[s] && e == side_conn(abs, s));
                                }
                            }
                        }
                        // links demanded by earlier cells keep their meaning
                        assert forall|c2: int, x: int, y: int|
                            0 <= c2 < c implies #[trigger] cell_links_of(mp, hex, cells, c2, x, y)
                            == cell_links_of(*self, hex, cells, c2, x, y) by {
                            if cells[c2].1.connections is Some {
                                let abs2 = hex_add_spec(hex, cells[c2].0);
                                let conn2 = cells[c2].1.connections->0;
                                assert(mp.has_tile(abs2)) by {
                                    let i = m_a.tile_idx(abs2);
                                    assert(mp.hexes@[i].0 == abs2);
                                }
                                assert forall|s: int|
                                    0 <= s < 6 && conn2@[s] implies mp.has_edge_conn(
                                    #[trigger] side_conn(abs2, s),
                                ) && self.has_edge_conn(side_conn(abs2, s)) && self.edge_node_of(
                                    side_conn(abs2, s),
                                ) == mp.edge_node_of(side_conn(abs2, s)) by {
                                    assert(piece_conn(cells[c2].1, s));
                                    assert(piece_demands_conn_upto(
                                        hex,
                                        cells,
                                        c as int,
                                        side_conn(abs2, s),
                                    ));
                                    assert(mp.has_edge_conn(side_conn(abs2, s)));
                                }
                                lemma_cell_links_stable(mp, *self, abs2, conn2@);
                                assert(cell_links(mp, abs2, conn2@, x, y) == cell_links(
                                    *self,
                                    abs2,
                                    conn2@,
                                    x,
                                    y,
                                ));
                            }
                        }
                        // the graph's links now cover cell `c` as well
                        assert forall|x: int, y: int| #[trigger] self.graph.has_edge(x, y)
                            <==> m_a.graph.has_edge(x, y) || piece_links_upto(
                            *self,
                            hex,
                            cells,
                            c + 1,
                            x,
                            y,
                        ) by {
                            if self.graph.has_edge(x, y) && !m_a.graph.has_edge(x, y) {
                                if mp.graph.has_edge(x, y) {
                                    let c2 = choose|c2: int|
                                        0 <= c2 < c && cell_links_of(mp, hex, cells, c2, x, y);
                                    assert(cell_links_of(*self, hex, cells, c2, x, y));
                                    assert(piece_links_upto(*self, hex, cells, c + 1, x, y));
                                } else {
                                    assert(cell_links(*self, abs, conn@, x, y));
                                    assert(cell_links_of(*self, hex, cells, c as int, x, y));
                                    assert(piece_links_upto(*self, hex, cells, c + 1, x, y));
                                }
                            }
                            if piece_links_upto(*self, hex, cells, c + 1, x, y) {
                                let c2 = choose|c2: int|
                                    0 <= c2 < c + 1 && cell_links_of(*self, hex, cells, c2, x, y);
                                if c2 < c {
                                    assert(cell_links_of(mp, hex, cells, c2, x, y));
                                    assert(piece_links_upto(mp, hex, cells, c as int, x, y));
                                    assert(mp.graph.has_edge(x, y));
                                    assert(self.graph.has_edge(x, y));
                                } else {
                                    assert(cell_links(*self, abs, conn@, x, y));
                                    assert(self.graph.has_edge(x, y));
                                }
                            }
                        }
                    }
                },
                None => {
                    proof {
                        assert forall|e: EdgeConnection| #[trigger] self.has_edge_conn(e)
                            <==> m_a.has_edge_conn(e) || piece_demands_conn_upto(
                            hex,
                            cells,
                            c + 1,
                            e,
                        ) by {
                            if piece_demands_conn_upto(hex, cells, c + 1, e) {
                                let (c2, s) = choose|c2: int, s: int|
                                    0 <= c2 < c + 1 && 0 <= s < 6 && piece_conn(cells[c2].1, s)
                                        && e == side_conn(hex_add_spec(hex, cells[c2].0), s);
                                assert(c2 < c);
                                assert(piece_demands_conn_upto(hex, cells, c as int, e));
                            }
                        }
                        assert forall|x: int, y: int| #[trigger] self.graph.has_edge(x, y)
                            <==> m_a.graph.has_edge(x, y) || piece_links_upto(
                            *self,
                            hex,
                            cells,
                            c + 1,
                            x,
                            y,
                        ) by {
                            if piece_links_upto(*self, hex, cells, c + 1, x, y) {
                                let c2 = choose|c2: int|
                                    0 <= c2 < c + 1 && cell_links_of(*self, hex, cells, c2, x, y);
                                assert(c2 < c);
                                assert(piece_links_upto(*self, hex, cells, c as int, x, y));
                            }
                            if self.graph.has_edge(x, y) && !m_a.graph.has_edge(x, y) {
                                let c2 = choose|c2: int|
                                    0 <= c2 < c && cell_links_of(*self, hex, cells, c2, x, y);
                                assert(piece_links_upto(*self, hex, cells, c + 1, x, y));
                            }
                        }
                    }
                },
            }
            c = c + 1;
        }

        // second pass: mark every cell occupied
        let ghost m_1 = *self;
        let mut c: usize = 0;
        while c < piece_hexes.len()
            invariant
                c <= cells.len(),
                cells == piece_hexes@,
                self.wf(),
                m_a.wf(),
                m_1.wf(),
                m_a == *old(self),
                forall|a: int, b: int|
                    0 <= a < b < cells.len() ==> (#[trigger] cells[a]).0 != (#[trigger] cells[b]).0,
                forall|c2: int|
                    0 <= c2 < cells.len() ==> {
                        &&& i32::MIN <= hex.x + (#[trigger] cells[c2]).0.x <= i32::MAX
                        &&& i32::MIN <= hex.y + cells[c2].0.y <= i32::MAX
                        &&& m_a.has_tile(hex_add_spec(hex, cells[c2].0))
                        &&& m_a.tile(hex_add_spec(hex, cells[c2].0)).placed_hex_e is None
                    },
                m_1.hexes == m_a.hexes,
                m_1.houses == m_a.houses,
                m_1.map_radius == m_a.map_radius,
                self.graph == m_1.graph,
                self.edge_connection_nodes == m_1.edge_connection_nodes,
                self.houses == m_1.houses,
                self.map_radius == m_1.map_radius,
                same_tiles(m_1, *self),
                m_a.graph.node_count() <= m_1.graph.node_count() <= m_a.graph.node_count() + 6
                    * cells.len(),
                forall|e: EdgeConnection|
                    #[trigger] m_a.has_edge_conn(e) ==> m_1.has_edge_conn(e) && m_1.edge_node_of(e)
                        == m_a.edge_node_of(e),
                forall|e: EdgeConnection|
                    #[trigger] m_1.has_edge_conn(e) <==> m_a.has_edge_conn(e)
                        || piece_demands_conn_upto(hex, cells, cells.len() as int, e),
                forall|x: int, y: int|
                    #[trigger] m_1.graph.has_edge(x, y) <==> m_a.graph.has_edge(x, y)
                        || piece_links_upto(m_1, hex, cells, cells.len() as int, x, y),
                forall|c2: int|
                    0 <= c2 < c ==> self.tile(
                        hex_add_spec(hex, (#[trigger] cells[c2]).0),
                    ).placed_hex_e == Some(cells[c2].1.entity),
                forall|i: int|
                    0 <= i < self.hexes@.len() && !(exists|c2: int|
                        0 <= c2 < c && hex_add_spec(hex, (#[trigger] cells[c2]).0) == (
                        #[trigger] self.hexes@[i]).0) ==> self.hexes@[i].1 == m_1.hexes@[i].1,
            decreases cells.len() - c,
        {
            let off = piece_hexes[c].0;
            let data = piece_hexes[c].1;
            let abs = hex.add(off);
            proof {
                assert(abs == hex_add_spec(hex, off));
                assert(self.has_tile(abs)) by {
                    let i = m_a.tile_idx(abs);
                    assert(m_1.hexes@[i].0 == abs);
                    assert(self.hexes@[i].0 == abs);
                }
            }
            let ti = match self.find_tile(abs) {
                Some(i) => i,
                None => {
                    proof {
                        assert(false);
                    }
                    0
                },
            };
            let ghost ms = *self;
            self.hexes[ti].1.placed_hex_e = Some(data.entity);
            proof {
                assert(self.hexes@ == ms.hexes@.update(
                    ti as int,
                    (
                        ms.hexes@[ti as int].0,
                        MapHex {
                            placed_hex_e: Some(data.entity),
                            node_index: ms.hexes@[ti as int].1.node_index,
                        },
                    ),
                ));
                assert(same_tiles(m_1, *self));
                assert(self.wf()) by {
                    assert forall|i: int|
                        0 <= i < self.hexes@.len() implies self.graph.in_range(
                        (#[trigger] self.hexes@[i]).1.node_index as int,
                    ) && coord_bounded(self.hexes@[i].0) by {
                        assert(ms.graph.in_range(ms.hexes@[i].1.node_index as int));
                        assert(coord_bounded(ms.hexes@[i].0));
                    }
                    assert forall|i: int|
                        0 <= i < self.houses@.len() implies self.has_tile(
                        #[trigger] self.houses@[i],
                    ) by {
                        assert(ms.has_tile(ms.houses@[i]));
                        let k = ms.tile_idx(ms.houses@[i]);
                        assert(self.hexes@[k].0 == ms.houses@[i]);
                    }
                }
                self.lemma_tile_at(ti as int);
                assert(self.tile(abs).placed_hex_e == Some(data.entity));
                // earlier cells keep their occupant: their hexes differ
                assert forall|c2: int|
                    0 <= c2 < c implies self.tile(
                    hex_add_spec(hex, (#[trigger] cells[c2]).0),
                ).placed_hex_e == Some(cells[c2].1.entity) by {
                    let abs2 = hex_add_spec(hex, cells[c2].0);
                    assert(abs2 != abs) by {
                        assert(cells[c2].0 != cells[c as int].0);
                    }
                    assert(m_a.has_tile(abs2));
                    let i0 = m_a.tile_idx(abs2);
                    assert(m_a.hexes@[i0].0 == abs2);
                    assert(m_1.hexes@[i0].0 == abs2);
                    assert(ms.hexes@[i0].0 == abs2);
                    assert(ms.has_tile(abs2));
                    let i2 = ms.tile_idx(abs2);
                    assert(ms.hexes@[i2].0 == abs2);
                    assert(i2 != ti);
                    assert(self.hexes@[i2].0 == abs2 && self.hexes@[i2].1 == ms.hexes@[i2].1);
                    self.lemma_tile_at(i2);
                    ms.lemma_tile_at(i2);
                }
            }
            c = c + 1;
        }
        proof {
            assert(self.edge_connection_nodes@ == m_1.edge_connection_nodes@);
            assert forall|e: EdgeConnection| #[trigger] self.has_edge_conn(e)
                <==> m_a.has_edge_conn(e) || piece_demands_conn_upto(
                hex,
                cells,
                cells.len() as int,
                e,
            ) by {
                assert(m_1.has_edge_conn(e) <==> m_a.has_edge_conn(e) || piece_demands_conn_upto(
                    hex,
                    cells,
                    cells.len() as int,
                    e,
                ));
                assert(self.has_edge_conn(e) == m_1.has_edge_conn(e));
            }
            // occupancy ensured over the final table; links carried over from
            // the first pass, whose node handles the second pass kept
            assert forall|c2: int|
                0 <= c2 < cells.len() && (#[trigger] cells[c2]).1.connections is Some implies (
            forall|x: int, y: int|
                cell_links(m_1, hex_add_spec(hex, cells[c2].0), cells[c2].1.connections->0@, x, y)
                    == cell_links(
                    *self,
                    hex_add_spec(hex, cells[c2].0),
                    cells[c2].1.connections->0@,
                    x,
                    y,
                )) by {
                let abs2 = hex_add_spec(hex, cells[c2].0);
                let conn2 = cells[c2].1.connections->0;
                assert(m_1.has_tile(abs2)) by {
                    let i = m_a.tile_idx(abs2);
                    assert(m_1.hexes@[i].0 == abs2);
                }
                assert forall|s: int| 0 <= s < 6 && conn2@[s] implies m_1.has_edge_conn(
                    #[trigger] side_conn(abs2, s),
                ) && self.has_edge_conn(side_conn(abs2, s)) && self.edge_node_of(
                    side_conn(abs2, s),
                ) == m_1.edge_node_of(side_conn(abs2, s)) by {
                    assert(piece_conn(cells[c2].1, s));
                    assert(piece_demands_conn_upto(
                        hex,
                        cells,
                        cells.len() as int,
                        side_conn(abs2, s),
                    ));
                    assert(m_1.has_edge_conn(side_conn(abs2, s)));
                }
                lemma_cell_links_stable(m_1, *self, abs2, conn2@);
            }
            assert forall|x: int, y: int| #[trigger] self.graph.has_edge(x, y)
                <==> m_a.graph.has_edge(x, y) || piece_links(*self, hex, cells, x, y) by {
                if self.graph.has_edge(x, y) && !m_a.graph.has_edge(x, y) {
                    let c2 = choose|c2: int|
                        0 <= c2 < cells.len() && cell_links_of(m_1, hex, cells, c2, x, y);
                    assert(cell_links_of(*self, hex, cells, c2, x, y));
                    assert(piece_links_upto(*self, hex, cells, cells.len() as int, x, y));
                }
                if piece_links(*self, hex, cells, x, y) {
                    let c2 = choose|c2: int|
                        0 <= c2 < cells.len() && cell_links_of(*self, hex, cells, c2, x, y);
                    assert(cell_links_of(m_1, hex, cells, c2, x, y));
                    assert(piece_links_upto(m_1, hex, cells, cells.len() as int, x, y));
                    assert(m_1.graph.has_edge(x, y));
                }
            }
        }
    }
}

/// The hexes a graph walk crosses, filtered to tile nodes: edge nodes are
/// internal plumbing, not rendered as route cells.
pub open spec fn tile_hexes_of_path(cells: Seq<(Hex, MapHex)>, p: Seq<int>) -> Seq<Hex>
    decreases p.len(),
{
    if p.len() == 0 {
        Seq::empty()
    } else {
        let rest = tile_hexes_of_path(cells, p.drop_last());
        if cells_have_node(cells, p.last()) {
            rest.push(cells[cells_node_idx(cells, p.last())].0)
        } else {
            rest
        }
    }
}

impl WorldMap {
    /// The tile node of the completion source: the first designated house.
    pub open spec fn source_node(self) -> int {
        self.tile(self.houses@[0]).node_index as int
    }

    /// House `j` can be reached from the source house along the graph.
    pub open spec fn house_reachable(self, j: int) -> bool {
        reachable(self.graph, self.source_node(), self.tile(self.houses@[j]).node_index as int)
    }

    /// `route` is the tile-hex rendering of a shortest graph walk from the
    /// source house to house `j`: no walk between the two is shorter.
    pub open spec fn route_to_house(self, route: Seq<Hex>, j: int) -> bool {
        exists|p: Seq<int>|
            {
                &&& is_path(self.graph, p)
                &&& p.first() == self.source_node()
                &&& p.last() == self.tile(self.houses@[j]).node_index as int
                &&& route == tile_hexes_of_path(self.hexes@, p)
                &&& forall|q: Seq<int>|
                    is_path(self.graph, q) && q.first() == p.first() && q.last() == p.last()
                        ==> q.len() >= p.len()
            }
    }

    /// With distinct node handles, any entry holding handle `n` is the one
    /// the node lookup speaks of.
    proof fn lemma_tile_node_at(self, i: int)
        requires
            self.wf(),
            0 <= i < self.hexes@.len(),
        ensures
            cells_have_node(self.hexes@, self.hexes@[i].1.node_index as int),
            cells_node_idx(self.hexes@, self.hexes@[i].1.node_index as int) == i,
    {
        let n = self.hexes@[i].1.node_index as int;
        assert(cells_have_node(self.hexes@, n));
        let j = cells_node_idx(self.hexes@, n);
        if i != j {
            assert(self.hexes@[i].1.node_index != self.hexes@[j].1.node_index || self.hexes@[
                j].1.node_index != self.hexes@[i].1.node_index);
        }
    }

    /// The hex whose tile carries node handle `n`, if any.
    fn find_tile_by_node(&self, n: u32) -> (r: Option<Hex>)
        requires
            self.wf(),
        ensures
            match r {
                Some(h) => cells_have_node(self.hexes@, n as int) && h == self.hexes@[
                    cells_node_idx(self.hexes@, n as int)].0,
                None => !cells_have_node(self.hexes@, n as int),
            },
    {
        let mut i: usize = 0;
        while i < self.hexes.len()
            invariant
                self.wf(),
                i <= self.hexes@.len(),
                forall|k: int| 0 <= k < i ==> (#[trigger] self.hexes@[k]).1.node_index != n,
            decreases self.hexes@.len() - i,
        {
            if self.hexes[i].1.node_index == n {
                proof {
                    self.lemma_tile_node_at(i as int);
                }
                return Some(self.hexes[i].0);
            }
            i = i + 1;
        }
        None
    }

    /// Renders a node walk as the hexes of its tile nodes, in order.
    fn collect_route(&self, path: &Vec<u32>) -> (route: Vec<Hex>)
        requires
            self.wf(),
        ensures
            route@ == tile_hexes_of_path(self.hexes@, path@.map_values(|x: u32| x as int)),
    {
        let ghost pi = path@.map_values(|x: u32| x as int);
        let mut route: Vec<Hex> = Vec::new();
        let mut i: usize = 0;
        while i < path.len()
            invariant
                self.wf(),
                i <= path@.len(),
                pi == path@.map_values(|x: u32| x as int),
                route@ == tile_hexes_of_path(self.hexes@, pi.take(i as int)),
            decreases path@.len() - i,
        {
            let n = path[i];
            proof {
                assert(pi.take(i + 1).drop_last() =~= pi.take(i as int));
                assert(pi.take(i + 1).last() == n as int);
            }
            match self.find_tile_by_node(n) {
                Some(h) => {
                    route.push(h);
                },
                None => {},
            }
            i = i + 1;
        }
        proof {
            assert(pi.take(path@.len() as int) =~= pi);
        }
        route
    }

    /// Decides completion: picks the first house as source, checks that
    /// every other house is connected to it through the placed routes, and
    /// on success reports one route per house together with the dead ends
    /// (edge nodes of degree one, stubs placed but never continued).
    ///
    /// `None` is the normal pending state, not an error: some house is not
    /// yet reachable (or no house exists at all).
    #[verifier::rlimit(100)]
    #[verifier::spinoff_prover]
    pub fn get_completed_routes(&self) -> (r: Option<CompletedMap>)
        requires
            self.wf(),
        ensures
            match r {
                Some(cm) => {
                    &&& self.houses@.len() >= 1
                    &&& forall|j: int| 0 <= j < self.houses@.len() ==> self.house_reachable(j)
                    &&& cm.routes@.len() == self.houses@.len() - 1
                    &&& forall|j: int|
                        0 <= j < cm.routes@.len() ==> self.route_to_house(
                            (#[trigger] cm.routes@[j])@,
                            j + 1,
                        )
                    &&& forall|i: int|
                        0 <= i < self.edge_connection_nodes@.len() ==> (cm.dead_ends@.contains(
                            (#[trigger] self.edge_connection_nodes@[i]).0,
                        ) <==> self.graph.degree(self.edge_connection_nodes@[i].1 as int) == 1)
                    &&& cm.dead_ends@.no_duplicates()
                    &&& forall|k: int|
                        0 <= k < cm.dead_ends@.len() ==> self.has_edge_conn(
                            #[trigger] cm.dead_ends@[k],
                        )
                },
                None => self.houses@.len() == 0 || (exists|j: int|
                    0 <= j < self.houses@.len() && !self.house_reachable(j)),
            },
    {
        if self.houses.len() == 0 {
            return None;
        }
        let src_hex = self.houses[0];
        let si = match self.find_tile(src_hex) {
            Some(i) => i,
            None => {
                proof {
                    assert(self.has_tile(self.houses@[0]));
                    assert(false);
                }
                0
            },
        };
        let start_node = self.hexes[si].1.node_index;
        proof {
            self.lemma_tile_at(si as int);
            assert(start_node as int == self.source_node());
            assert(self.graph.in_range(start_node as int)) by {
                assert(self.graph.in_range(self.hexes@[si as int].1.node_index as int));
            }
        }
        let (visited, parent, dist) = self.graph.bfs(start_node);

        let mut j: usize = 0;
        while j < self.houses.len()
            invariant
                self.wf(),
                j <= self.houses@.len(),
                self.houses@.len() >= 1,
                start_node as int == self.source_node(),
                self.graph.in_range(start_node as int),
                visited@.len() == self.graph.node_count(),
                forall|v: int|
                    self.graph.in_range(v) ==> (#[trigger] visited@[v] <==> reachable(
                        self.graph,
                        start_node as int,
                        v,
                    )),
                forall|k: int| 0 <= k < j ==> self.house_reachable(k),
                forall|k: int|
                    0 <= k < j ==> visited@[self.tile(#[trigger] self.houses@[k]).node_index as int],
            decreases self.houses@.len() - j,
        {
            let h = self.houses[j];
            let ti = match self.find_tile(h) {
                Some(i) => i,
                None => {
                    proof {
                        assert(self.has_tile(self.houses@[j as int]));
                        assert(false);
                    }
                    0
                },
            };
            let n = self.hexes[ti].1.node_index;
            proof {
                self.lemma_tile_at(ti as int);
                assert(n as int == self.tile(self.houses@[j as int]).node_index as int);
                assert(self.graph.in_range(n as int)) by {
                    assert(self.graph.in_range(self.hexes@[ti as int].1.node_index as int));
                }
            }
            if !visited[n as usize] {
                proof {
                    assert(!self.house_reachable(j as int));
                }
                return None;
            }
            j = j + 1;
        }

        let mut routes: Vec<Vec<Hex>> = Vec::new();
        let mut j: usize = 1;
        while j < self.houses.len()
            invariant
                self.wf(),
                1 <= j <= self.houses@.len(),
                self.houses@.len() >= 1,
                start_node as int == self.source_node(),
                self.graph.in_range(start_node as int),
                crate::graph::bfs_tree_ok(self.graph, start_node as int, visited@, parent@, dist@),
                forall|v: int|
                    self.graph.in_range(v) ==> (#[trigger] visited@[v] <==> reachable(
                        self.graph,
                        start_node as int,
                        v,
                    )),
                forall|a: int, b: int|
                    self.graph.in_range(a) && visited@[a] && #[trigger] self.graph.has_edge(a, b)
                        ==> visited@[b] && dist@[b] <= dist@[a] + 1,
                forall|k: int|
                    0 <= k < self.houses@.len() ==> visited@[self.tile(
                        #[trigger] self.houses@[k],
                    ).node_index as int],
                routes@.len() == j - 1,
                forall|k: int|
                    0 <= k < j - 1 ==> self.route_to_house((#[trigger] routes@[k])@, k + 1),
            decreases self.houses@.len() - j,
        {
            let h = self.houses[j];
            let ti = match self.find_tile(h) {
                Some(i) => i,
                None => {
                    proof {
                        assert(self.has_tile(self.houses@[j as int]));
                        assert(false);
                    }
                    0
                },
            };
            let n = self.hexes[ti].1.node_index;
            proof {
                self.lemma_tile_at(ti as int);
                assert(self.graph.in_range(n as int)) by {
                    assert(self.graph.in_range(self.hexes@[ti as int].1.node_index as int));
                }
                assert(visited@[n as int]) by {
                    assert(visited@[self.tile(self.houses@[j as int]).node_index as int]);
                }
            }
            let path_nodes = self.graph.extract_path(start_node, n, &visited, &parent, &dist);
            let route = self.collect_route(&path_nodes);
            let ghost routes0 = routes@;
            routes.push(route);
            proof {
                let p = path_nodes@.map_values(|x: u32| x as int);
                assert(is_path(self.graph, p) && p.first() == self.source_node() && p.last()
                    == self.tile(self.houses@[j as int]).node_index as int && route@
                    == tile_hexes_of_path(self.hexes@, p));
                assert(p.len() == dist@[n as int] + 1);
                assert forall|q: Seq<int>|
                    is_path(self.graph, q) && q.first() == p.first() && q.last() == p.last()
                        implies q.len() >= p.len() by {
                    crate::graph::lemma_distances_minimal(
                        self.graph,
                        visited@,
                        dist@,
                        start_node as int,
                        q,
                    );
                }
                assert(self.route_to_house(route@, j as int));
                assert forall|k: int|
                    0 <= k < j implies self.route_to_house((#[trigger] routes@[k])@, k + 1) by {
                    if k < j - 1 {
                        assert(routes@[k] == routes0[k]);
                    } else {
                        assert(routes@[k] == route);
                    }
                }
            }
            j = j + 1;
        }

        let mut dead_ends: Vec<EdgeConnection> = Vec::new();
        let mut i: usize = 0;
        while i < self.edge_connection_nodes.len()
            invariant
                self.wf(),
                i <= self.edge_connection_nodes@.len(),
                forall|k: int|
                    0 <= k < i ==> (dead_ends@.contains(
                        (#[trigger] self.edge_connection_nodes@[k]).0,
                    ) <==> self.graph.degree(self.edge_connection_nodes@[k].1 as int) == 1),
                forall|d: int|
                    0 <= d < dead_ends@.len() ==> (exists|k: int|
                        0 <= k < i && (#[trigger] dead_ends@[d])
                            == self.edge_connection_nodes@[k].0),
                dead_ends@.no_duplicates(),
            decreases self.edge_connection_nodes@.len() - i,
        {
            let e = self.edge_connection_nodes[i].0;
            let en = self.edge_connection_nodes[i].1;
            proof {
                assert(self.graph.in_range(en as int)) by {
                    assert(self.graph.in_range(self.edge_connection_nodes@[i as int].1 as int));
                }
            }
            let ghost de0 = dead_ends@;
            if self.graph.degree_of(en) == 1 {
                dead_ends.push(e);
            }
            proof {
                assert forall|k: int|
                    0 <= k < i + 1 implies (dead_ends@.contains(
                    (#[trigger] self.edge_connection_nodes@[k]).0,
                ) <==> self.graph.degree(self.edge_connection_nodes@[k].1 as int) == 1) by {
                    let ek = self.edge_connection_nodes@[k].0;
                    if k < i {
                        assert(ek != self.edge_connection_nodes@[i as int].0);
                        if de0.contains(ek) {
                            let d = choose|d: int| 0 <= d < de0.len() && de0[d] == ek;
                            assert(dead_ends@[d] == ek);
                        }
                        if dead_ends@.contains(ek) {
                            let d = choose|d: int|
                                0 <= d < dead_ends@.len() && dead_ends@[d] == ek;
                            assert(d < de0.len());
                            assert(de0[d] == ek);
                        }
                    } else {
                        if self.graph.degree(self.edge_connection_nodes@[k].1 as int) == 1 {
                            assert(dead_ends@[dead_ends@.len() - 1] == ek);
                        } else {
                            if dead_ends@.contains(ek) {
                                let d = choose|d: int|
                                    0 <= d < dead_ends@.len() && dead_ends@[d] == ek;
                                let k2 = choose|k2: int|
                                    0 <= k2 < i && de0[d] == self.edge_connection_nodes@[k2].0;
                                assert(self.edge_connection_nodes@[k2].0
                                    != self.edge_connection_nodes@[i as int].0);
                            }
                        }
                    }
                }
                assert(dead_ends@.no_duplicates()) by {
                    if self.graph.degree(self.edge_connection_nodes@[i as int].1 as int) == 1 {
                        assert forall|d1: int, d2: int|
                            0 <= d1 < dead_ends@.len() && 0 <= d2 < dead_ends@.len() && d1 != d2
                                implies dead_ends@[d1] != dead_ends@[d2] by {
                            if d1 < de0.len() && d2 < de0.len() {
                                assert(de0[d1] != de0[d2]);
                            } else if d1 < de0.len() {
                                let k2 = choose|k2: int|
                                    0 <= k2 < i && de0[d1] == self.edge_connection_nodes@[k2].0;
                                assert(self.edge_connection_nodes@[k2].0
                                    != self.edge_connection_nodes@[i as int].0);
                            } else if d2 < de0.len() {
                                let k2 = choose|k2: int|
                                    0 <= k2 < i && de0[d2] == self.edge_connection_nodes@[k2].0;
                                assert(self.edge_connection_nodes@[k2].0
                                    != self.edge_connection_nodes@[i as int].0);
                            }
                        }
                    }
                }
            }
            i = i + 1;
        }
        proof {
            assert forall|k: int|
                0 <= k < dead_ends@.len() implies self.has_edge_conn(
                #[trigger] dead_ends@[k],
            ) by {
                let k2 = choose|k2: int|
                    0 <= k2 < self.edge_connection_nodes@.len() && dead_ends@[k]
                        == self.edge_connection_nodes@[k2].0;
                assert(self.edge_connection_nodes@[k2].0 == dead_ends@[k]);
            }
        }
        Some(CompletedMap { routes, dead_ends })
    }
}

} // verus!
