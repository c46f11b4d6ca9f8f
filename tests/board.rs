use board_plugin::{
    Board, BoardError, Bounds2, Coordinates, TileMarkEvent, TileMap, TileTriggerEvent, Tile,
};

fn at(x: u16, y: u16) -> Coordinates {
    Coordinates { x, y }
}

/// A board over `map`, each cover's handle being 100 plus its row-major position,
/// with tiles of 10 world units and its lower corner at the origin.
fn board_of(map: TileMap) -> Board {
    let n = map.width() as usize * map.height() as usize;
    let handles: Vec<u64> = (0..n as u64).map(|i| 100 + i).collect();
    let bounds = Bounds2 {
        x: 0,
        y: 0,
        width: map.width() as i64 * 10,
        height: map.height() as i64 * 10,
    };
    Board::new(map, bounds, 10, &handles, 7)
}

fn covered_set(b: &Board) -> Vec<Coordinates> {
    let mut v = Vec::new();
    for y in 0..b.tile_map().height() {
        for x in 0..b.tile_map().width() {
            if b.is_tile_covered(at(x, y)) {
                v.push(at(x, y));
            }
        }
    }
    v
}

#[test]
fn single_empty_tile_reveals_and_completes() {
    let m = TileMap::empty(1, 1);
    assert_eq!(m.tile(at(0, 0)), Tile::Empty);
    let mut b = board_of(m);
    let rep = b.trigger(TileTriggerEvent(at(0, 0))).unwrap();
    assert_eq!(rep.revealed.len(), 1);
    assert_eq!(rep.revealed[0].coordinates, at(0, 0));
    assert_eq!(rep.revealed[0].tile, Tile::Empty);
    assert_eq!(rep.revealed[0].handle, 100);
    assert!(rep.explosion.is_none());
    assert!(rep.completed.is_some());
    assert!(b.is_completed());
    assert_eq!(b.covered_count(), 0);
}

#[test]
fn cascade_reveals_all_safe_tiles() {
    let mut b = board_of(TileMap::with_bombs(3, 3, &vec![at(0, 0)]));
    let rep = b.uncover(at(2, 2));
    assert_eq!(rep.revealed.len(), 8);
    let mut seen: Vec<Coordinates> = rep.revealed.iter().map(|r| r.coordinates).collect();
    seen.sort();
    seen.dedup();
    assert_eq!(seen.len(), 8);
    assert!(!seen.contains(&at(0, 0)));
    assert!(rep.explosion.is_none());
    assert!(rep.completed.is_some());
    assert_eq!(covered_set(&b), vec![at(0, 0)]);
    assert_eq!(b.covered_count(), 1);
}

#[test]
fn bomb_reveal_explodes_and_stops() {
    let mut b = board_of(TileMap::with_bombs(3, 3, &vec![at(1, 1)]));
    let rep = b.uncover(at(1, 1));
    assert!(rep.explosion.is_some());
    assert!(rep.completed.is_none());
    assert_eq!(rep.revealed.len(), 1);
    assert_eq!(rep.revealed[0].tile, Tile::Bomb);
    assert_eq!(b.covered_count(), 8);
    for y in 0..3 {
        for x in 0..3 {
            assert_eq!(b.is_tile_covered(at(x, y)), !(x == 1 && y == 1));
        }
    }
}

#[test]
fn flagged_tile_is_protected_until_unflagged() {
    let mut b = board_of(TileMap::with_bombs(3, 3, &vec![at(0, 0)]));
    assert_eq!(b.mark(TileMarkEvent(at(1, 1))), Some((104, true)));
    assert!(b.trigger(TileTriggerEvent(at(1, 1))).is_none());
    assert!(b.is_tile_covered(at(1, 1)));
    assert!(b.is_tile_marked(at(1, 1)));
    assert_eq!(b.tile_to_uncover(at(1, 1)), None);
    assert_eq!(b.try_toggle_mark(at(1, 1)), Some((104, false)));
    assert_eq!(b.tile_to_uncover(at(1, 1)), Some(104));
    let rep = b.trigger(TileTriggerEvent(at(1, 1))).unwrap();
    assert_eq!(rep.revealed.len(), 1);
    assert_eq!(rep.revealed[0].tile, Tile::BombNeighbor(1));
    assert!(!b.is_tile_covered(at(1, 1)));
}

#[test]
fn toggling_twice_restores_the_flag() {
    let mut b = board_of(TileMap::empty(2, 2));
    assert!(!b.is_tile_marked(at(0, 1)));
    assert_eq!(b.try_toggle_mark(at(0, 1)), Some((102, true)));
    assert!(b.is_tile_marked(at(0, 1)));
    assert_eq!(b.try_toggle_mark(at(0, 1)), Some((102, false)));
    assert!(!b.is_tile_marked(at(0, 1)));
    assert_eq!(b.covered_count(), 4);
}

#[test]
fn revealed_tile_cannot_be_flagged_or_revealed_again() {
    let mut b = board_of(TileMap::with_bombs(2, 1, &vec![at(0, 0)]));
    assert_eq!(b.try_uncover_tile(at(1, 0)), Some(101));
    assert_eq!(b.try_uncover_tile(at(1, 0)), None);
    assert_eq!(b.try_toggle_mark(at(1, 0)), None);
    assert!(!b.is_tile_marked(at(1, 0)));
    assert!(b.trigger(TileTriggerEvent(at(1, 0))).is_none());
    let rep = b.uncover(at(1, 0));
    assert!(rep.revealed.is_empty());
    assert!(!b.is_tile_covered(at(1, 0)));
    assert!(b.is_completed());
}

#[test]
fn cascade_unflags_what_it_reveals() {
    let mut b = board_of(TileMap::empty(3, 1));
    b.try_toggle_mark(at(2, 0));
    let rep = b.uncover(at(0, 0));
    assert_eq!(rep.revealed.len(), 3);
    assert!(!b.is_tile_marked(at(2, 0)));
    assert!(!b.is_tile_covered(at(2, 0)));
}

#[test]
fn cascade_stops_at_the_border_of_numbers() {
    // bombs in the right column of a 5x3 grid; the empty region is x = 0..=2,
    // its border the column x = 3.
    let mut b = board_of(TileMap::with_bombs(5, 3, &vec![at(4, 0), at(4, 1), at(4, 2)]));
    let rep = b.uncover(at(0, 0));
    assert_eq!(rep.revealed.len(), 12);
    for y in 0..3 {
        for x in 0..5 {
            assert_eq!(b.is_tile_covered(at(x, y)), x == 4);
        }
    }
    assert!(rep.completed.is_some());
}

#[test]
fn cascade_does_not_cross_a_wall_of_numbers() {
    // A wall of bombs in column 2 of a 5x3 grid splits it in two.
    let mut b = board_of(TileMap::with_bombs(5, 3, &vec![at(2, 0), at(2, 1), at(2, 2)]));
    let rep = b.uncover(at(0, 1));
    assert_eq!(rep.revealed.len(), 6);
    for y in 0..3 {
        for x in 0..5 {
            assert_eq!(b.is_tile_covered(at(x, y)), x >= 2);
        }
    }
    assert!(rep.completed.is_none());
    assert!(!b.is_completed());
    let rep = b.uncover(at(4, 2));
    assert_eq!(rep.revealed.len(), 6);
    assert!(rep.completed.is_some());
    assert!(b.is_completed());
    assert_eq!(b.covered_count(), 3);
}

#[test]
fn number_tile_reveals_alone() {
    let mut b = board_of(TileMap::with_bombs(3, 3, &vec![at(0, 0)]));
    let rep = b.uncover(at(1, 0));
    assert_eq!(rep.revealed.len(), 1);
    assert_eq!(rep.revealed[0].tile, Tile::BombNeighbor(1));
    assert_eq!(b.covered_count(), 8);
    assert!(!b.is_completed());
}

#[test]
fn revealed_tiles_stay_revealed() {
    let mut b = board_of(TileMap::with_bombs(4, 4, &vec![at(3, 3)]));
    b.uncover(at(0, 3));
    let after_first = covered_set(&b);
    b.try_toggle_mark(at(3, 3));
    b.try_toggle_mark(at(0, 0));
    b.uncover(at(3, 3));
    b.trigger(TileTriggerEvent(at(0, 0)));
    for c in covered_set(&b) {
        assert!(after_first.contains(&c));
    }
}

#[test]
fn adjacent_covered_handles() {
    let mut b = board_of(TileMap::empty(3, 3));
    let mut around = b.adjacent_covered_tiles(at(0, 0));
    around.sort();
    assert_eq!(around, vec![101, 103, 104]);
    b.try_uncover_tile(at(1, 1));
    let mut around = b.adjacent_covered_tiles(at(0, 0));
    around.sort();
    assert_eq!(around, vec![101, 103]);
}

#[test]
fn locate_maps_points_to_cells() {
    let map = TileMap::empty(4, 3);
    let bounds = Bounds2 { x: -20, y: -15, width: 40, height: 30 };
    let b = Board::new(map, bounds, 10, &vec![0u64; 12], 1);
    // the grid's y axis grows with the world's y axis
    assert_eq!(b.locate(-20, -15), Some(at(0, 0)));
    assert_eq!(b.locate(-11, -6), Some(at(0, 0)));
    assert_eq!(b.locate(-10, -5), Some(at(1, 1)));
    assert_eq!(b.locate(19, 14), Some(at(3, 2)));
    assert_eq!(b.locate(20, 0), None);
    assert_eq!(b.locate(0, 15), None);
    assert_eq!(b.locate(-21, 0), None);
    assert_eq!(b.locate(7, 3), b.locate(7, 3));
    assert_eq!(b.locate(100, 3), b.locate(100, 3));
    assert_eq!(b.bounds(), bounds);
    assert_eq!(b.tile_size(), 10);
    assert_eq!(b.entity(), 1);
}

#[test]
fn mouse_position_flips_the_vertical_axis() {
    let map = TileMap::empty(4, 3);
    let bounds = Bounds2 { x: -20, y: -15, width: 40, height: 30 };
    let b = Board::new(map, bounds, 10, &vec![0u64; 12], 1);
    // window 100 x 60: the cursor at its top-left corner is the world (-50, 30)
    assert_eq!(b.mouse_position(100, 60, 0, 0), None);
    // cursor (31, 44) is the world (-19, -14): the bottom-left cell
    assert_eq!(b.mouse_position(100, 60, 31, 44), Some(at(0, 0)));
    // cursor (69, 16) is the world (19, 14): the top-right cell
    assert_eq!(b.mouse_position(100, 60, 69, 16), Some(at(3, 2)));
}

#[test]
fn safe_start_reveals_an_empty_tile() {
    let mut b = board_of(TileMap::with_bombs(3, 3, &vec![at(0, 0)]));
    let rep = b.start(true).unwrap().unwrap();
    assert!(rep.explosion.is_none());
    assert_eq!(rep.revealed[0].tile, Tile::Empty);
    assert_eq!(rep.revealed[0].coordinates, at(2, 0));
    assert!(b.is_completed());
}

#[test]
fn safe_start_without_empty_tile_is_reported() {
    let mut b = board_of(TileMap::with_bombs(2, 2, &vec![at(0, 0)]));
    assert_eq!(b.start(true).err(), Some(BoardError::NoSafeStart));
    assert_eq!(b.covered_count(), 4);
    assert!(b.start(false).unwrap().is_none());
}

#[test]
fn completion_matches_covered_count() {
    let mut b = board_of(TileMap::with_bombs(2, 2, &vec![at(0, 0), at(1, 1)]));
    assert!(!b.is_completed());
    let rep = b.uncover(at(1, 0));
    assert!(rep.completed.is_none());
    assert_eq!(b.is_completed(), b.covered_count() == b.tile_map().bomb_count());
    let rep = b.uncover(at(0, 1));
    assert!(rep.completed.is_some());
    assert_eq!(b.covered_count(), 2);
    assert!(b.is_completed());
}

#[test]
fn random_board_plays_consistently() {
    let map = TileMap::generate(9, 9, 10).unwrap();
    let mut b = board_of(map);
    let start = b.start(true);
    if let Ok(Some(rep)) = start {
        assert!(rep.explosion.is_none());
        for r in &rep.revealed {
            assert!(r.tile != Tile::Bomb);
            assert!(!b.is_tile_covered(r.coordinates));
        }
        assert_eq!(b.covered_count(), 81 - rep.revealed.len());
    }
    assert_eq!(b.is_completed(), b.covered_count() == 10);
}

#[test]
fn centered_bounds_surround_the_origin() {
    let b = Bounds2::centered(4, 3, 10, 0, 0);
    assert_eq!(b, Bounds2 { x: -20, y: -15, width: 40, height: 30 });
    let moved = Bounds2::centered(5, 2, 3, 100, -7);
    assert_eq!(moved, Bounds2 { x: 93, y: -10, width: 15, height: 6 });
    assert!(moved.is_bounds(93, -10));
    assert!(!moved.is_bounds(108, -10));
    assert!(!moved.is_bounds(100, -4));
}

#[test]
fn adjacent_handles_come_in_scan_order() {
    let mut b = board_of(TileMap::empty(3, 3));
    assert_eq!(b.adjacent_covered_tiles(at(1, 1)), vec![100, 101, 102, 103, 105, 106, 107, 108]);
    b.try_uncover_tile(at(0, 1));
    b.try_uncover_tile(at(2, 2));
    assert_eq!(b.adjacent_covered_tiles(at(1, 1)), vec![100, 101, 102, 105, 106, 107]);
    assert_eq!(b.adjacent_covered_tiles(at(2, 0)), vec![101, 104, 105]);
}
