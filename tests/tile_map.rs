use board_plugin::{Bomb, BombNeighbor, BoardError, Coordinates, Tile, TileMap};

fn at(x: u16, y: u16) -> Coordinates {
    Coordinates { x, y }
}

fn neighbor_bombs(m: &TileMap, c: Coordinates) -> u8 {
    let mut n = 0u8;
    for d in m.safe_square_at(c) {
        if m.is_bomb_at(d) {
            n += 1;
        }
    }
    n
}

fn check_consistent(m: &TileMap) {
    let mut bombs = 0usize;
    for y in 0..m.height() {
        for x in 0..m.width() {
            let c = at(x, y);
            match m.tile(c) {
                Tile::Bomb => bombs += 1,
                Tile::Empty => assert_eq!(neighbor_bombs(m, c), 0),
                Tile::BombNeighbor(n) => {
                    assert!(n >= 1 && n <= 8);
                    assert_eq!(neighbor_bombs(m, c), n);
                }
            }
        }
    }
    assert_eq!(m.bomb_count(), bombs);
}

#[test]
fn empty_map_has_no_bomb() {
    let m = TileMap::empty(4, 3);
    assert_eq!(m.width(), 4);
    assert_eq!(m.height(), 3);
    assert_eq!(m.bomb_count(), 0);
    for y in 0..3 {
        for x in 0..4 {
            assert_eq!(m.tile(at(x, y)), Tile::Empty);
        }
    }
}

#[test]
fn generated_maps_are_consistent() {
    for &(w, h, count) in &[(1u16, 1u16, 0u16), (5, 5, 7), (9, 9, 10), (16, 16, 40), (30, 16, 99), (3, 2, 6)] {
        let m = TileMap::generate(w, h, count).unwrap();
        assert_eq!(m.bomb_count(), count as usize);
        check_consistent(&m);
    }
}

#[test]
fn set_bombs_caps_at_the_area() {
    let mut m = TileMap::empty(3, 3);
    m.set_bombs(50);
    assert_eq!(m.bomb_count(), 9);
    for y in 0..3 {
        for x in 0..3 {
            assert_eq!(m.tile(at(x, y)), Tile::Bomb);
        }
    }
}

#[test]
fn set_bombs_places_distinct_bombs() {
    let mut m = TileMap::empty(20, 20);
    m.set_bombs(40);
    assert_eq!(m.bomb_count(), 40);
    check_consistent(&m);
}

#[test]
fn generate_refuses_an_empty_grid() {
    assert_eq!(TileMap::generate(0, 5, 1).err(), Some(BoardError::EmptyGrid));
    assert_eq!(TileMap::generate(5, 0, 1).err(), Some(BoardError::EmptyGrid));
}

#[test]
fn fixed_bombs_give_exact_counts() {
    // . 1 B
    // 1 2 2
    // B 1 .  with bombs at (2,0) and (0,2)
    let m = TileMap::with_bombs(3, 3, &vec![at(2, 0), at(0, 2)]);
    assert_eq!(m.bomb_count(), 2);
    assert_eq!(m.tile(at(0, 0)), Tile::Empty);
    assert_eq!(m.tile(at(1, 0)), Tile::BombNeighbor(1));
    assert_eq!(m.tile(at(2, 0)), Tile::Bomb);
    assert_eq!(m.tile(at(0, 1)), Tile::BombNeighbor(1));
    assert_eq!(m.tile(at(1, 1)), Tile::BombNeighbor(2));
    assert_eq!(m.tile(at(2, 1)), Tile::BombNeighbor(1));
    assert_eq!(m.tile(at(0, 2)), Tile::Bomb);
    assert_eq!(m.tile(at(1, 2)), Tile::BombNeighbor(1));
    assert_eq!(m.tile(at(2, 2)), Tile::Empty);
    check_consistent(&m);
}

#[test]
fn surrounded_cell_counts_eight() {
    let mut bombs = Vec::new();
    for y in 0..3 {
        for x in 0..3 {
            if !(x == 1 && y == 1) {
                bombs.push(at(x, y));
            }
        }
    }
    let m = TileMap::with_bombs(3, 3, &bombs);
    assert_eq!(m.tile(at(1, 1)), Tile::BombNeighbor(8));
    assert_eq!(m.bomb_count(), 8);
}

#[test]
fn repeated_bomb_counts_once() {
    let m = TileMap::with_bombs(2, 2, &vec![at(0, 0), at(0, 0)]);
    assert_eq!(m.bomb_count(), 1);
    assert_eq!(m.tile(at(1, 1)), Tile::BombNeighbor(1));
}

#[test]
fn neighbors_at_corner_edge_and_center() {
    let m = TileMap::empty(3, 3);
    let mut corner = m.safe_square_at(at(0, 0));
    corner.sort();
    assert_eq!(corner, vec![at(0, 1), at(1, 0), at(1, 1)]);
    assert_eq!(m.safe_square_at(at(1, 0)).len(), 5);
    let center = m.safe_square_at(at(1, 1));
    assert_eq!(center, vec![at(0, 0), at(1, 0), at(2, 0), at(0, 1), at(2, 1), at(0, 2), at(1, 2), at(2, 2)]);
    // reading the neighbors twice gives the same sequence
    assert_eq!(m.safe_square_at(at(1, 1)), center);
}

#[test]
fn first_empty_finds_a_safe_tile() {
    let m = TileMap::with_bombs(3, 1, &vec![at(0, 0)]);
    assert_eq!(m.first_empty(), Some(at(2, 0)));
    let all = TileMap::with_bombs(2, 1, &vec![at(0, 0), at(1, 0)]);
    assert_eq!(all.first_empty(), None);
}

#[test]
fn markers_follow_the_tile() {
    assert_eq!(Bomb::of_tile(Tile::Bomb), Some(Bomb));
    assert_eq!(Bomb::of_tile(Tile::Empty), None);
    assert_eq!(BombNeighbor::of_tile(Tile::BombNeighbor(3)), Some(BombNeighbor { count: 3 }));
    assert_eq!(BombNeighbor::of_tile(Tile::Bomb), None);
    assert!(Tile::Bomb.is_bomb());
    assert!(Tile::Empty.is_empty());
    assert!(!Tile::BombNeighbor(1).is_empty());
}

#[test]
fn neighbors_come_in_row_major_order() {
    let m = TileMap::empty(4, 4);
    assert_eq!(m.safe_square_at(at(0, 0)), vec![at(1, 0), at(0, 1), at(1, 1)]);
    assert_eq!(m.safe_square_at(at(3, 3)), vec![at(2, 2), at(3, 2), at(2, 3)]);
    assert_eq!(m.safe_square_at(at(2, 0)), vec![at(1, 0), at(3, 0), at(1, 1), at(2, 1), at(3, 1)]);
}

#[test]
fn first_empty_is_first_in_row_major_order() {
    // bombs at (0,0) and (3,2) of a 5x3 grid: (2,0) is the first cell with no bomb
    // around it, before (4,0) and the cells of the rows above.
    let m = TileMap::with_bombs(5, 3, &vec![at(0, 0), at(3, 2)]);
    assert_eq!(m.tile(at(1, 0)), Tile::BombNeighbor(1));
    assert_eq!(m.tile(at(2, 0)), Tile::Empty);
    assert_eq!(m.first_empty(), Some(at(2, 0)));
}
