//! Checks of the generated board layout, the grid shape helper, the score
//! arithmetic and the rotation cooldown.

use hexroutes::board_gen::generate_board;
use hexroutes::board_gen::map_radius_for_level;
use hexroutes::cooldown::process_cooldown;
use hexroutes::cooldown::Cooldown;
use hexroutes::cooldown::Rotating;
use hexroutes::hex::hexagon;
use hexroutes::map::TileState;
use hexroutes::score::dead_end_penalty;
use hexroutes::score::route_score_delta;
use hexroutes::score::update_level;
use hexroutes::score::update_score;
use hexroutes::CompletedMap;
use hexroutes::Hex;
use hexroutes::Level;
use hexroutes::Score;

#[test]
fn radius_grows_with_level() {
    assert_eq!(map_radius_for_level(0), 2);
    assert_eq!(map_radius_for_level(1), 2);
    assert_eq!(map_radius_for_level(2), 3);
    assert_eq!(map_radius_for_level(4), 3);
    assert_eq!(map_radius_for_level(5), 4);
    assert_eq!(map_radius_for_level(7), 4);
    assert_eq!(map_radius_for_level(8), 5);
    assert_eq!(map_radius_for_level(40), 5);
}

#[test]
fn hexagon_shape_has_expected_cells() {
    assert_eq!(hexagon(0).len(), 1);
    assert_eq!(hexagon(1).len(), 7);
    assert_eq!(hexagon(2).len(), 19);
    let cells = hexagon(1);
    assert!(cells.contains(&Hex { x: 0, y: 0 }));
    assert!(cells.contains(&Hex { x: 1, y: -1 }));
    assert!(!cells.contains(&Hex { x: 2, y: 0 }));
}

#[test]
fn generated_boards_have_houses_on_occupied_tiles() {
    for level in [0u32, 1, 2, 4, 6, 9] {
        let m = generate_board(level);
        assert_eq!(m.map_radius, map_radius_for_level(level));
        assert!(m.house_count() >= 1);
        assert!(m.edge_connection_nodes.is_empty());
        for h in m.houses.iter() {
            assert_eq!(m.tile_occupant(*h), TileState::Occupied);
        }
    }
}

#[test]
fn low_level_boards_start_pending() {
    // levels with two or more houses cannot be complete on an empty graph
    for _ in 0..10 {
        let m = generate_board(0);
        if m.house_count() >= 2 {
            assert!(m.get_completed_routes().is_none());
        }
    }
}

#[test]
fn score_saturates_at_both_ends() {
    let mut s = Score(5);
    update_score(&mut s, 10);
    assert_eq!(s.0, 15);
    update_score(&mut s, -20);
    assert_eq!(s.0, 0);
    let mut top = Score(u32::MAX - 1);
    update_score(&mut top, 7);
    assert_eq!(top.0, u32::MAX);
}

#[test]
fn completion_scoring_follows_routes_and_dead_ends() {
    let cm = CompletedMap {
        routes: vec![vec![Hex { x: 0, y: 0 }], vec![Hex { x: 1, y: 0 }]],
        dead_ends: Vec::new(),
    };
    assert_eq!(route_score_delta(&cm), 20);
    assert_eq!(dead_end_penalty(&cm), 0);
    let cm2 = CompletedMap {
        routes: Vec::new(),
        dead_ends: vec![
            hexroutes::EdgeConnection::new(Hex { x: 0, y: 0 }, Hex { x: 1, y: 0 }),
            hexroutes::EdgeConnection::new(Hex { x: 0, y: 0 }, Hex { x: 0, y: 1 }),
            hexroutes::EdgeConnection::new(Hex { x: 0, y: 0 }, Hex { x: 1, y: -1 }),
        ],
    };
    assert_eq!(dead_end_penalty(&cm2), -3);
}

#[test]
fn level_advances_by_one() {
    let mut l = Level(3);
    update_level(&mut l);
    assert_eq!(l.0, 4);
}

#[test]
fn round_controller_books_completions_and_resets() {
    let mut rc = hexroutes::RoundController::new();
    assert_eq!(rc.level.0, 0);
    assert_eq!(rc.score.0, 0);
    assert_eq!(rc.map.map_radius, 2);
    let cm = CompletedMap {
        routes: vec![vec![Hex { x: 0, y: 0 }], vec![Hex { x: 1, y: 0 }]],
        dead_ends: vec![hexroutes::EdgeConnection::new(
            Hex { x: 0, y: 0 },
            Hex { x: 1, y: 0 },
        )],
    };
    rc.complete_round(&cm);
    // two routes award twenty, one dead end costs one
    assert_eq!(rc.score.0, 19);
    assert_eq!(rc.level.0, 1);
    assert!(rc.map.house_count() >= 1);
    rc.reset();
    assert_eq!(rc.level.0, 1);
    assert_eq!(rc.score.0, 19);
    assert!(rc.map.edge_connection_nodes.is_empty());
}

#[test]
fn cooldown_counts_down_and_reports_the_final_tick() {
    let mut c: Cooldown<Rotating> = Cooldown::new(300);
    assert_eq!(c.remaining_ms, 300);
    assert!(!process_cooldown(&mut c, 100));
    assert_eq!(c.remaining_ms, 200);
    assert!(process_cooldown(&mut c, 250));
    assert_eq!(c.remaining_ms, 0);
    // a finished countdown does not report again
    assert!(!process_cooldown(&mut c, 50));
}
