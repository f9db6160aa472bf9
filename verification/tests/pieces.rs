//! Checks of the blueprint catalog, side-index arithmetic, the rotation
//! handler and the weighted generator.

use hexroutes::get_opposite_side_index;
use hexroutes::piece::generate_batch;
use hexroutes::piece::generate_piece;
use hexroutes::piece::get_side_index;
use hexroutes::Hex;
use hexroutes::HexBlueprints;
use hexroutes::Piece;
use hexroutes::PieceHexData;

#[test]
fn catalog_matches_shipped_table() {
    let b = HexBlueprints::default();
    assert_eq!(b.hexes.len(), 10);
    assert_eq!(b.weights, vec![3, 8, 10, 2, 4, 4, 3, 1, 1, 0]);
    assert_eq!(b.size_weights, vec![3, 4]);
    assert_eq!(
        b.hexes[0].connected_sides,
        [false, true, true, false, false, false]
    );
    assert_eq!(b.hexes[9].connected_sides, [true; 6]);
    for (i, bp) in b.hexes.iter().enumerate() {
        assert_eq!(bp.atlas_index, i);
        assert!(bp.connected_sides.iter().any(|c| *c));
    }
}

#[test]
fn side_index_wraps_in_both_directions() {
    assert_eq!(get_side_index(0), 0);
    assert_eq!(get_side_index(5), 5);
    assert_eq!(get_side_index(6), 0);
    assert_eq!(get_side_index(7), 1);
    assert_eq!(get_side_index(-1), 5);
    assert_eq!(get_side_index(-7), 5);
}

#[test]
fn opposite_side_is_three_steps_around() {
    assert_eq!(get_opposite_side_index(0), 3);
    assert_eq!(get_opposite_side_index(1), 4);
    assert_eq!(get_opposite_side_index(2), 5);
    assert_eq!(get_opposite_side_index(3), 0);
    assert_eq!(get_opposite_side_index(4), 1);
    assert_eq!(get_opposite_side_index(5), 2);
}

fn two_cell_piece() -> Piece {
    Piece {
        hexes: vec![
            (
                Hex { x: 0, y: 0 },
                PieceHexData {
                    entity: 1,
                    side_index: 0,
                    connections: Some([true, false, false, false, false, false]),
                },
            ),
            (
                Hex { x: 1, y: 0 },
                PieceHexData { entity: 2, side_index: 2, connections: None },
            ),
        ],
        target_hex: Some(Hex { x: 0, y: 0 }),
    }
}

#[test]
fn clockwise_rotation_moves_offsets_and_stubs() {
    let mut p = two_cell_piece();
    p.rotate_piece(Hex { x: 0, y: 0 }, true);
    // the pivot cell stays put; its stub moves from side 0 to side 1
    assert_eq!(p.hexes[0].0, Hex { x: 0, y: 0 });
    assert_eq!(
        p.hexes[0].1.connections,
        Some([false, true, false, false, false, false])
    );
    // a cw step maps offset (1,0) to (0,1)
    assert_eq!(p.hexes[1].0, Hex { x: 0, y: 1 });
    // facing decrements on a clockwise step
    assert_eq!(p.hexes[0].1.side_index, 5);
    assert_eq!(p.hexes[1].1.side_index, 1);
    // the placement target is cleared: rotation demands re-validation
    assert!(p.target_hex.is_none());
}

#[test]
fn counter_clockwise_rotation_inverts_clockwise() {
    let mut p = two_cell_piece();
    let before: Vec<(Hex, Option<[bool; 6]>)> =
        p.hexes.iter().map(|c| (c.0, c.1.connections)).collect();
    p.rotate_piece(Hex { x: 0, y: 0 }, true);
    p.rotate_piece(Hex { x: 0, y: 0 }, false);
    let after: Vec<(Hex, Option<[bool; 6]>)> =
        p.hexes.iter().map(|c| (c.0, c.1.connections)).collect();
    assert_eq!(before, after);
}

#[test]
fn rotation_matches_reference_hex_library() {
    // the crate's pivot rotation agrees with hexx's cw_around / ccw_around
    let samples = [(0, 0), (1, 0), (2, -1), (-3, 2), (5, 5)];
    let pivots = [(0, 0), (1, -1), (-2, 3)];
    for &(x, y) in samples.iter() {
        for &(px, py) in pivots.iter() {
            let ours_cw = Hex { x, y }.cw_around(Hex { x: px, y: py });
            let theirs_cw = hexx::Hex::new(x, y).cw_around(hexx::Hex::new(px, py));
            assert_eq!((ours_cw.x, ours_cw.y), (theirs_cw.x, theirs_cw.y));
            let ours_ccw = Hex { x, y }.ccw_around(Hex { x: px, y: py });
            let theirs_ccw = hexx::Hex::new(x, y).ccw_around(hexx::Hex::new(px, py));
            assert_eq!((ours_ccw.x, ours_ccw.y), (theirs_ccw.x, theirs_ccw.y));
        }
    }
}

#[test]
fn neighbor_table_matches_reference_hex_library() {
    // side s is s clockwise steps from hexx's rotate_cw applied to (1,-1)
    for s in 0..6u32 {
        let ours = hexroutes::hex::neighbor_offset(s as usize);
        let theirs = hexx::Hex::new(1, -1).rotate_cw(s);
        assert_eq!((ours.x, ours.y), (theirs.x, theirs.y));
    }
}

#[test]
fn generated_route_cells_always_keep_a_stub() {
    let b = HexBlueprints::default();
    for _ in 0..200 {
        let p = generate_piece(&b);
        assert!(!p.hexes.is_empty() && p.hexes.len() <= 2);
        assert_eq!(p.hexes[0].0, Hex { x: 0, y: 0 });
        assert!(p.hexes[0].1.connections.is_some());
        assert!(p.target_hex.is_none());
        for (off, data) in p.hexes.iter() {
            if let Some(conn) = data.connections {
                assert!(conn.iter().any(|c| *c), "route cell without a stub");
                // the all-true template carries weight zero and is never drawn
                assert_ne!(conn, [true; 6]);
            }
            if *off != (Hex { x: 0, y: 0 }) {
                // the second cell sits one step from the anchor
                let is_unit = (0..6).any(|s| {
                    let d = hexroutes::hex::neighbor_offset(s);
                    d.x == off.x && d.y == off.y
                });
                assert!(is_unit);
            }
        }
    }
}

#[test]
fn batch_has_requested_size() {
    let b = HexBlueprints::default();
    let batch = generate_batch(&b, 3);
    assert_eq!(batch.len(), 3);
    for p in batch.iter() {
        assert!(!p.hexes.is_empty());
    }
}
