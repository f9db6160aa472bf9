//! End-to-end checks of the route-graph engine: canonical connections,
//! grid creation, placement, completion and dead ends.

use hexroutes::map::TileState;
use hexroutes::spawn_grid;
use hexroutes::EdgeConnection;
use hexroutes::GridError;
use hexroutes::Hex;
use hexroutes::Piece;
use hexroutes::PieceHexData;
use hexroutes::WorldMap;

fn hex(x: i32, y: i32) -> Hex {
    Hex { x, y }
}

/// The seven hexes of the radius-one board.
fn radius_one_shape() -> Vec<Hex> {
    hexroutes::hex::hexagon(1)
}

fn cell(offset: Hex, entity: u64, connections: Option<[bool; 6]>) -> (Hex, PieceHexData) {
    (offset, PieceHexData { entity, side_index: 0, connections })
}

fn grid_two_houses() -> WorldMap {
    // houses at opposite corners of the radius-one board
    let shape = radius_one_shape();
    let houses = vec![(hex(1, -1), 100u64), (hex(-1, 1), 101u64)];
    spawn_grid(&shape, &houses, &Vec::new(), 1).unwrap()
}

#[test]
fn edge_connection_is_canonical() {
    let a = hex(2, -1);
    let b = hex(3, -1);
    assert_eq!(EdgeConnection::new(a, b), EdgeConnection::new(b, a));
    let c = hex(-10, 3);
    let d = hex(2, 5);
    assert_eq!(EdgeConnection::new(c, d), EdgeConnection::new(d, c));
}

#[test]
fn edge_connection_orders_numerically() {
    // numeric tuple comparison: (-10, 3) is less than (2, 5)
    let e = EdgeConnection::new(hex(-10, 3), hex(2, 5));
    assert_eq!(e.first(), hex(2, 5));
    assert_eq!(e.second(), hex(-10, 3));
}

#[test]
fn edge_node_allocated_once_per_pair() {
    let mut map = grid_two_houses();
    let a = hex(0, 0);
    let b = hex(1, 0);
    let n1 = map.get_or_add_edge_connection(a, b);
    let n2 = map.get_or_add_edge_connection(b, a);
    assert_eq!(n1, n2);
    assert_eq!(map.edge_connection_nodes.len(), 1);
    let n3 = map.get_or_add_edge_connection(a, b);
    assert_eq!(n1, n3);
    assert_eq!(map.edge_connection_nodes.len(), 1);
}

#[test]
fn spawn_grid_rejects_bad_configurations() {
    let shape = radius_one_shape();
    assert_eq!(
        spawn_grid(&shape, &Vec::new(), &Vec::new(), 1).err(),
        Some(GridError::NoHouses)
    );
    let outside = vec![(hex(5, 5), 1u64)];
    assert_eq!(
        spawn_grid(&shape, &outside, &Vec::new(), 1).err(),
        Some(GridError::HouseOutsideGrid)
    );
    let houses = vec![(hex(1, -1), 1u64)];
    let blocked_on_house = vec![(hex(1, -1), 2u64)];
    assert_eq!(
        spawn_grid(&shape, &houses, &blocked_on_house, 1).err(),
        Some(GridError::BlockedCellInvalid)
    );
    let blocked_outside = vec![(hex(9, 9), 2u64)];
    assert_eq!(
        spawn_grid(&shape, &houses, &blocked_outside, 1).err(),
        Some(GridError::BlockedCellInvalid)
    );
}

#[test]
fn spawn_grid_marks_houses_occupied() {
    let map = grid_two_houses();
    assert_eq!(map.house_count(), 2);
    assert_eq!(map.tile_occupant(hex(1, -1)), TileState::Occupied);
    assert_eq!(map.tile_occupant(hex(-1, 1)), TileState::Occupied);
    assert_eq!(map.tile_occupant(hex(0, 0)), TileState::Free);
    assert_eq!(map.tile_occupant(hex(4, 4)), TileState::Missing);
}

#[test]
fn placement_is_atomic_and_occupies_all_cells() {
    let mut map = grid_two_houses();
    let cells = vec![
        cell(hex(0, 0), 7, Some([true, false, false, true, false, false])),
        cell(hex(1, 0), 8, None),
    ];
    let tiles_before = map.hexes.len();
    map.place_piece(hex(0, 0), &cells);
    // every cell of the piece is reflected in the occupancy
    assert_eq!(map.tile_occupant(hex(0, 0)), TileState::Occupied);
    assert_eq!(map.tile_occupant(hex(1, 0)), TileState::Occupied);
    // the tile set is fixed: no cell appears or disappears
    assert_eq!(map.hexes.len(), tiles_before);
    // untouched cells stay free
    assert_eq!(map.tile_occupant(hex(0, -1)), TileState::Free);
}

#[test]
fn edge_nodes_grow_monotonically() {
    let mut map = grid_two_houses();
    let first = vec![cell(hex(0, 0), 7, Some([true, false, false, false, false, false]))];
    map.place_piece(hex(0, -1), &first);
    let conns_after_first: Vec<EdgeConnection> =
        map.edge_connection_nodes.iter().map(|p| p.0).collect();
    assert_eq!(conns_after_first.len(), 1);
    let second = vec![cell(hex(0, 0), 9, Some([false, true, false, false, false, true]))];
    map.place_piece(hex(0, 0), &second);
    // the old connection is still there, under the same node
    for c in conns_after_first.iter() {
        assert!(map.edge_connection_nodes.iter().any(|p| p.0 == *c));
    }
    assert!(map.edge_connection_nodes.len() >= 2);
}

#[test]
fn completion_pending_until_houses_joined() {
    let mut map = grid_two_houses();
    assert!(map.get_completed_routes().is_none());
    // a stub toward house A only: B stays unreached
    let toward_a = vec![cell(hex(0, 0), 7, Some([true, false, false, false, false, false]))];
    map.place_piece(hex(0, 0), &toward_a);
    assert!(map.get_completed_routes().is_none());
}

#[test]
fn two_stub_piece_joins_both_houses_with_no_dead_end() {
    let mut map = grid_two_houses();
    // stubs on side 0 (toward the house at (1,-1)) and side 3 (toward (-1,1))
    let joining = vec![cell(hex(0, 0), 7, Some([true, false, false, true, false, false]))];
    map.place_piece(hex(0, 0), &joining);
    let cm = map.get_completed_routes().expect("both houses joined");
    assert_eq!(cm.routes.len(), 1);
    assert_eq!(cm.routes[0], vec![hex(1, -1), hex(0, 0), hex(-1, 1)]);
    assert!(cm.dead_ends.is_empty());
}

#[test]
fn all_true_piece_joins_houses_and_leaves_open_stubs() {
    let mut map = grid_two_houses();
    let full = vec![cell(hex(0, 0), 7, Some([true; 6]))];
    map.place_piece(hex(0, 0), &full);
    let cm = map.get_completed_routes().expect("both houses joined");
    assert_eq!(cm.routes.len(), 1);
    assert_eq!(cm.routes[0], vec![hex(1, -1), hex(0, 0), hex(-1, 1)]);
    // the four stubs that point at non-house neighbours end at degree-one
    // edge nodes and are therefore reported as dead ends
    assert_eq!(cm.dead_ends.len(), 4);
    let houses_conn_a = EdgeConnection::new(hex(0, 0), hex(1, -1));
    let houses_conn_b = EdgeConnection::new(hex(0, 0), hex(-1, 1));
    assert!(!cm.dead_ends.contains(&houses_conn_a));
    assert!(!cm.dead_ends.contains(&houses_conn_b));
}

#[test]
fn stray_stub_counts_as_exactly_one_dead_end() {
    let mut map = grid_two_houses();
    // a stub pointing away from both houses, on a rim tile
    let stray = vec![cell(hex(0, 0), 7, Some([false, true, false, false, false, false]))];
    map.place_piece(hex(1, 0), &stray);
    // the board stays pending the whole time
    assert!(map.get_completed_routes().is_none());
    // joining the houses later scores the round: exactly one dead end
    let joining = vec![cell(hex(0, 0), 8, Some([true, false, false, true, false, false]))];
    map.place_piece(hex(0, 0), &joining);
    let cm = map.get_completed_routes().expect("both houses joined");
    assert_eq!(cm.dead_ends.len(), 1);
    assert_eq!(cm.dead_ends[0], EdgeConnection::new(hex(1, 0), hex(2, 0)));
}

#[test]
fn drag_validation_and_commit_flow() {
    let mut map = grid_two_houses();
    let mut piece = Piece {
        hexes: vec![cell(hex(0, 0), 7, Some([true, false, false, true, false, false]))],
        target_hex: None,
    };
    // a hex outside the grid is refused
    let out = piece.update_target(&map, hex(4, 4));
    assert_eq!(out, hexroutes::piece::DragOutcome::Freed);
    assert!(piece.target_hex.is_none());
    // a house cell is occupied, so it is refused too
    let occupied = piece.update_target(&map, hex(1, -1));
    assert_eq!(occupied, hexroutes::piece::DragOutcome::Freed);
    // the free middle cell snaps
    let snapped = piece.update_target(&map, hex(0, 0));
    assert_eq!(snapped, hexroutes::piece::DragOutcome::Snapped);
    assert_eq!(piece.target_hex, Some(hex(0, 0)));
    // a repeated drag over the same hex changes nothing
    let again = piece.update_target(&map, hex(0, 0));
    assert_eq!(again, hexroutes::piece::DragOutcome::Unchanged);
    // committing places the piece and completes the board
    let cm = map.commit_piece(&piece).expect("completion");
    assert_eq!(cm.routes.len(), 1);
    assert_eq!(map.tile_occupant(hex(0, 0)), TileState::Occupied);
}
