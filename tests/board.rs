use board_plugin::{
    Board, BoardError, Bounds, Coordinates, GameStatus, Point, RevealOutcome, Tile, TileMap,
};
use rand::rngs::StdRng;
use rand::SeedableRng;

fn c(x: u16, y: u16) -> Coordinates {
    Coordinates::new(x, y)
}

/// A generated grid whose bombs include every cell of `targets`.
fn grid_with_bombs_at(w: u16, h: u16, bombs: u16, targets: &[Coordinates]) -> TileMap {
    for seed in 0..100_000u64 {
        let mut rng = StdRng::seed_from_u64(seed);
        let mut map = TileMap::empty((w, h)).unwrap();
        map.set_bombs(bombs, &mut rng).unwrap();
        if targets.iter().all(|t| map.is_bomb_at(*t)) {
            return map;
        }
    }
    panic!("no seed puts the bombs there");
}

fn board_of(map: TileMap, tile_size: u32) -> Board<u32> {
    let n = map.width() * map.height();
    let covers: Vec<u32> = (0..n as u32).collect();
    let size = Point {
        x: map.width() as i64 * tile_size as i64,
        y: map.height() as i64 * tile_size as i64,
    };
    Board::new(1000, map, covers, Bounds::new(Point { x: -20, y: -30 }, size), tile_size)
}

/// Covered cells that a reveal could take; on a board without flags, all covered cells.
fn covered_count(b: &Board<u32>) -> usize {
    let mut n = 0;
    for y in 0..b.tile_map().height() as u16 {
        for x in 0..b.tile_map().width() as u16 {
            if b.tile_to_uncover(c(x, y)).is_some() {
                n += 1;
            }
        }
    }
    n
}

#[test]
fn three_by_three_single_mine_numbers_and_reveal() {
    let map = grid_with_bombs_at(3, 3, 1, &[c(1, 1)]);
    for y in 0..3 {
        for x in 0..3 {
            let t = map.tile_at(c(x, y)).unwrap();
            if (x, y) == (1, 1) {
                assert_eq!(t, Tile::Bomb);
            } else {
                assert_eq!(t, Tile::BombNeighbor(1));
            }
        }
    }
    let mut board = board_of(map, 10);
    // A numbered cell stops the flood fill: only the cell itself is uncovered.
    let outcome = board.reveal_at(c(0, 0)).unwrap();
    assert_eq!(outcome, RevealOutcome::Uncovered(vec![c(0, 0)]));
    let mut uncovered = vec![c(0, 0)];
    for y in 0..3 {
        for x in 0..3 {
            if (x, y) == (1, 1) || (x, y) == (0, 0) {
                continue;
            }
            match board.reveal_at(c(x, y)).unwrap() {
                RevealOutcome::Uncovered(v) => uncovered.extend(v),
                other => panic!("unexpected {:?}", other),
            }
        }
    }
    assert_eq!(uncovered.len(), 8);
    for cell in &uncovered {
        assert_eq!(board.tile_map().tile_at(*cell), Some(Tile::BombNeighbor(1)));
    }
    assert_eq!(board.status(), GameStatus::Won);
}

#[test]
fn reveal_on_the_mine_detonates() {
    let map = grid_with_bombs_at(4, 4, 1, &[c(2, 3)]);
    let mut board = board_of(map, 10);
    assert_eq!(board.status(), GameStatus::Ongoing);
    let outcome = board.reveal_at(c(2, 3)).unwrap();
    assert_eq!(outcome, RevealOutcome::Detonated(c(2, 3)));
    assert_eq!(board.status(), GameStatus::Lost);
    assert_eq!(covered_count(&board), 15);
    assert_eq!(board.reveal_at(c(0, 0)), Err(BoardError::GameOver));
    assert_eq!(board.toggle_flag(c(0, 0)), Err(BoardError::GameOver));
    assert_eq!(covered_count(&board), 15);
}

#[test]
fn flagged_cell_is_blocked_until_unflagged() {
    let map = grid_with_bombs_at(4, 4, 1, &[c(3, 3)]);
    let mut board = board_of(map, 10);
    assert_eq!(board.toggle_flag(c(0, 0)), Ok(true));
    assert_eq!(board.reveal_at(c(0, 0)), Ok(RevealOutcome::Blocked));
    assert_eq!(board.tile_to_uncover(c(0, 0)), None);
    assert_eq!(covered_count(&board), 15);
    assert_eq!(board.toggle_flag(c(0, 0)), Ok(false));
    assert_eq!(board.tile_to_uncover(c(0, 0)), Some(0));
    match board.reveal_at(c(0, 0)).unwrap() {
        RevealOutcome::Uncovered(v) => assert!(v.contains(&c(0, 0))),
        other => panic!("unexpected {:?}", other),
    }
}

#[test]
fn completion_comes_with_the_last_safe_cell() {
    let map = grid_with_bombs_at(3, 2, 2, &[c(0, 0), c(2, 1)]);
    let mut board = board_of(map, 10);
    let safe = [c(1, 0), c(2, 0), c(0, 1), c(1, 1)];
    for (i, cell) in safe.iter().enumerate() {
        assert!(!board.is_completed());
        board.reveal_at(*cell).unwrap();
        assert_eq!(board.is_completed(), i == safe.len() - 1);
    }
    assert_eq!(board.status(), GameStatus::Won);
    assert_eq!(covered_count(&board), 2);
}

#[test]
fn flood_fill_opens_empty_region_and_its_border() {
    // 5 by 5, one bomb in a corner: everything but the bomb opens from the far corner.
    let map = grid_with_bombs_at(5, 5, 1, &[c(4, 4)]);
    let mut board = board_of(map, 10);
    match board.reveal_at(c(0, 0)).unwrap() {
        RevealOutcome::Uncovered(v) => {
            assert_eq!(v.len(), 24);
            assert!(!v.contains(&c(4, 4)));
        }
        other => panic!("unexpected {:?}", other),
    }
    assert_eq!(board.status(), GameStatus::Won);
}

#[test]
fn reveal_again_on_uncovered_cells_is_noop() {
    let map = grid_with_bombs_at(6, 6, 2, &[c(5, 5), c(4, 5)]);
    let mut board = board_of(map, 10);
    // A flag keeps one more cell covered, so the game goes on after the fill.
    assert_eq!(board.toggle_flag(c(5, 0)), Ok(true));
    let cells = match board.reveal_at(c(0, 0)).unwrap() {
        RevealOutcome::Uncovered(v) => v,
        other => panic!("unexpected {:?}", other),
    };
    assert_eq!(cells.len(), 33);
    assert_eq!(board.status(), GameStatus::Ongoing);
    for cell in cells {
        assert_eq!(board.reveal_at(cell), Ok(RevealOutcome::NoOp));
    }
}

#[test]
fn flood_fill_never_uncovers_flags() {
    let map = grid_with_bombs_at(6, 6, 1, &[c(5, 5)]);
    let mut board = board_of(map, 10);
    assert_eq!(board.toggle_flag(c(2, 2)), Ok(true));
    assert_eq!(board.toggle_flag(c(0, 5)), Ok(true));
    let cells = match board.reveal_at(c(0, 0)).unwrap() {
        RevealOutcome::Uncovered(v) => v,
        other => panic!("unexpected {:?}", other),
    };
    assert!(!cells.contains(&c(2, 2)));
    assert!(!cells.contains(&c(0, 5)));
    assert_eq!(cells.len(), 33);
    assert_eq!(board.tile_to_uncover(c(2, 2)), None);
    assert_eq!(board.reveal_at(c(2, 2)), Ok(RevealOutcome::Blocked));
}

#[test]
fn cell_centre_maps_back_to_cell() {
    let map = grid_with_bombs_at(4, 3, 1, &[c(0, 0)]);
    let board = board_of(map, 10);
    // Bounds start at (-20, -30); a 100 by 60 window puts the world origin at (50, 30).
    for y in 0..3u16 {
        for x in 0..4u16 {
            let p = Point {
                x: 50 - 20 + x as i64 * 10 + 5,
                y: 30 - 30 + y as i64 * 10 + 5,
            };
            assert_eq!(board.mouse_position(100, 60, p), Some(c(x, y)));
        }
    }
}

#[test]
fn mouse_outside_board_is_none() {
    let map = grid_with_bombs_at(4, 3, 1, &[c(0, 0)]);
    let board = board_of(map, 10);
    assert_eq!(board.mouse_position(100, 60, Point { x: 29, y: 5 }), None);
    assert_eq!(board.mouse_position(100, 60, Point { x: 30, y: -1 }), None);
    // The far edge lies on the rectangle but past the last column.
    assert_eq!(board.mouse_position(100, 60, Point { x: 70, y: 5 }), None);
    assert_eq!(board.mouse_position(100, 60, Point { x: 30, y: 0 }), Some(c(0, 0)));
    assert_eq!(board.mouse_position(100, 60, Point { x: 69, y: 29 }), Some(c(3, 2)));
}

#[test]
fn toggle_mark_returns_handle_and_state() {
    let map = grid_with_bombs_at(3, 3, 1, &[c(2, 2)]);
    let mut board = board_of(map, 10);
    assert_eq!(board.try_toggle_mark(c(1, 2)), Some((7, true)));
    assert_eq!(board.try_toggle_mark(c(1, 2)), Some((7, false)));
    assert_eq!(board.try_toggle_mark(c(3, 0)), None);
    assert_eq!(board.toggle_flag(c(5, 5)), Err(BoardError::NotCovered));
}

#[test]
fn uncover_tile_respects_flags() {
    let map = grid_with_bombs_at(3, 3, 1, &[c(2, 2)]);
    let mut board = board_of(map, 10);
    assert_eq!(board.tile_to_uncover(c(1, 0)), Some(1));
    assert_eq!(board.try_toggle_mark(c(1, 0)), Some((1, true)));
    assert_eq!(board.try_uncover_tile(c(1, 0)), None);
    assert_eq!(board.tile_to_uncover(c(1, 0)), None);
    assert_eq!(board.try_toggle_mark(c(1, 0)), Some((1, false)));
    assert_eq!(board.try_uncover_tile(c(1, 0)), Some(1));
    assert_eq!(board.try_uncover_tile(c(1, 0)), None);
    assert_eq!(board.tile_to_uncover(c(1, 0)), None);
    assert_eq!(board.try_toggle_mark(c(1, 0)), None);
    assert_eq!(board.toggle_flag(c(1, 0)), Err(BoardError::NotCovered));
    assert_eq!(board.reveal_at(c(1, 0)), Ok(RevealOutcome::NoOp));
    assert_eq!(board.try_uncover_tile(c(7, 7)), None);
}

#[test]
fn uncover_tile_on_bomb_loses_and_stops_moves() {
    let map = grid_with_bombs_at(3, 3, 1, &[c(2, 2)]);
    let mut board = board_of(map, 10);
    assert_eq!(board.try_uncover_tile(c(2, 2)), Some(8));
    assert_eq!(board.status(), GameStatus::Lost);
    assert_eq!(board.try_uncover_tile(c(0, 0)), None);
    assert_eq!(board.try_toggle_mark(c(0, 0)), None);
    assert_eq!(board.tile_to_uncover(c(0, 0)), Some(0));
    assert_eq!(covered_count(&board), 8);
}

#[test]
fn moves_after_a_win_change_nothing() {
    let map = grid_with_bombs_at(5, 5, 1, &[c(4, 4)]);
    let mut board = board_of(map, 10);
    board.reveal_at(c(0, 0)).unwrap();
    assert_eq!(board.status(), GameStatus::Won);
    assert_eq!(board.try_toggle_mark(c(4, 4)), None);
    assert_eq!(board.try_uncover_tile(c(4, 4)), None);
    assert_eq!(board.toggle_flag(c(4, 4)), Err(BoardError::GameOver));
    assert_eq!(board.reveal_at(c(4, 4)), Err(BoardError::GameOver));
    assert_eq!(board.tile_to_uncover(c(4, 4)), Some(24));
}

#[test]
fn adjacent_covered_tiles_in_offset_order() {
    let map = grid_with_bombs_at(3, 3, 1, &[c(2, 2)]);
    let mut board = board_of(map, 10);
    assert_eq!(board.adjacent_covered_tiles(c(1, 1)), vec![0, 1, 2, 3, 5, 6, 7, 8]);
    assert_eq!(board.adjacent_covered_tiles(c(0, 0)), vec![1, 3, 4]);
    board.try_uncover_tile(c(1, 0));
    assert_eq!(board.adjacent_covered_tiles(c(0, 0)), vec![3, 4]);
}

#[test]
fn safe_start_is_first_empty_cell_once() {
    let map = grid_with_bombs_at(4, 4, 1, &[c(0, 0)]);
    let mut board = board_of(map, 10);
    assert_eq!(board.consume_safe_start(), Some(c(2, 0)));
    assert_eq!(board.consume_safe_start(), None);
}

#[test]
fn no_safe_start_without_empty_cell() {
    let map = grid_with_bombs_at(3, 3, 1, &[c(1, 1)]);
    let mut board = board_of(map, 10);
    assert_eq!(board.consume_safe_start(), None);
}

#[test]
fn full_board_is_complete_at_once() {
    let mut rng = StdRng::seed_from_u64(3);
    let mut map = TileMap::empty((2, 2)).unwrap();
    map.set_bombs(4, &mut rng).unwrap();
    let board = board_of(map, 10);
    assert!(board.is_completed());
    assert_eq!(board.status(), GameStatus::Won);
}

#[test]
fn board_accessors() {
    let map = grid_with_bombs_at(2, 2, 1, &[c(0, 0)]);
    let board = board_of(map, 12);
    assert_eq!(board.entity(), 1000);
    assert_eq!(board.tile_size(), 12);
    assert_eq!(board.bounds().mins, Point { x: -20, y: -30 });
    assert_eq!(board.bounds().size, Point { x: 24, y: 24 });
}
