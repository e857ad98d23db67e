use board_plugin::{
    adaptative_tile_size, create_board, decimal, AppState, BoardError,
    BoardOptions, BoardPosition, BombNeighbour, Bounds, Coordinates, Hue, Point, Point3, Tile,
    TileMap, TileSize,
};
use rand::rngs::StdRng;
use rand::SeedableRng;

fn c(x: u16, y: u16) -> Coordinates {
    Coordinates::new(x, y)
}

fn count_bombs(m: &TileMap) -> usize {
    let mut n = 0;
    for y in 0..m.height() as u16 {
        for x in 0..m.width() as u16 {
            if m.is_bomb_at(c(x, y)) {
                n += 1;
            }
        }
    }
    n
}

#[test]
fn generated_grids_hold_the_bomb_count_and_true_numbers() {
    for seed in 0..40u64 {
        let mut rng = StdRng::seed_from_u64(seed);
        let mut m = TileMap::empty((9, 7)).unwrap();
        let bombs = (seed % 60) as u16;
        m.set_bombs(bombs, &mut rng).unwrap();
        assert_eq!(m.bomb_count(), bombs);
        assert_eq!(count_bombs(&m), bombs as usize);
        for y in 0..7u16 {
            for x in 0..9u16 {
                let mut around = 0u8;
                for dy in -1i32..=1 {
                    for dx in -1i32..=1 {
                        let (nx, ny) = (x as i32 + dx, y as i32 + dy);
                        if (dx, dy) != (0, 0) && nx >= 0 && ny >= 0 && m.is_bomb_at(c(nx as u16, ny as u16)) {
                            around += 1;
                        }
                    }
                }
                match m.tile_at(c(x, y)).unwrap() {
                    Tile::Bomb => assert_eq!(m.bomb_count_at(c(x, y)), 0),
                    Tile::BombNeighbor(k) => {
                        assert!(k >= 1 && k <= 8);
                        assert_eq!(k, around);
                        assert_eq!(m.bomb_count_at(c(x, y)), k);
                    }
                    Tile::Empty => {
                        assert_eq!(around, 0);
                        assert_eq!(m.bomb_count_at(c(x, y)), 0);
                    }
                }
            }
        }
    }
}

#[test]
fn dense_grid_fills_every_cell() {
    let mut rng = StdRng::seed_from_u64(11);
    let mut m = TileMap::empty((4, 4)).unwrap();
    m.set_bombs(16, &mut rng).unwrap();
    assert_eq!(count_bombs(&m), 16);
}

#[test]
fn empty_grid_rejects_zero_dimensions() {
    assert!(matches!(TileMap::empty((0, 3)), Err(BoardError::InvalidDimensions)));
    assert!(matches!(TileMap::empty((3, 0)), Err(BoardError::InvalidDimensions)));
    let m = TileMap::empty((3, 2)).unwrap();
    assert_eq!(m.width(), 3);
    assert_eq!(m.height(), 2);
    assert_eq!(m.bomb_count(), 0);
    assert_eq!(m.tile_at(c(2, 1)), Some(Tile::Empty));
    assert_eq!(m.tile_at(c(3, 1)), None);
}

#[test]
fn too_many_mines_is_rejected() {
    let mut rng = StdRng::seed_from_u64(1);
    let mut m = TileMap::empty((3, 3)).unwrap();
    assert_eq!(m.set_bombs(10, &mut rng), Err(BoardError::TooManyMines));
    assert_eq!(m.bomb_count(), 0);
    assert_eq!(count_bombs(&m), 0);
}

#[test]
fn is_bomb_at_is_false_off_grid() {
    let mut rng = StdRng::seed_from_u64(5);
    let mut m = TileMap::empty((2, 2)).unwrap();
    m.set_bombs(4, &mut rng).unwrap();
    assert!(m.is_bomb_at(c(1, 1)));
    assert!(!m.is_bomb_at(c(2, 0)));
    assert!(!m.is_bomb_at(c(65535, 65535)));
}

#[test]
fn neighbours_respect_the_grid() {
    let m = TileMap::empty((3, 3)).unwrap();
    assert_eq!(m.in_bounds_neighbors(c(0, 0)), vec![c(1, 0), c(0, 1), c(1, 1)]);
    assert_eq!(m.in_bounds_neighbors(c(1, 1)).len(), 8);
    assert_eq!(m.in_bounds_neighbors(c(2, 2)), vec![c(1, 1), c(2, 1), c(1, 2)]);
}

#[test]
fn square_keeps_offset_order_and_drops_negative() {
    assert_eq!(
        TileMap::safe_square_at(c(5, 5)),
        vec![c(4, 4), c(5, 4), c(6, 4), c(4, 5), c(6, 5), c(4, 6), c(5, 6), c(6, 6)]
    );
    assert_eq!(TileMap::safe_square_at(c(0, 0)), vec![c(1, 0), c(0, 1), c(1, 1)]);
    assert_eq!(TileMap::safe_square_at(c(65535, 0)).len(), 3);
}

#[test]
fn offset_detects_underflow() {
    assert_eq!(c(0, 3).offset(-1, 0), None);
    assert_eq!(c(3, 0).offset(0, -1), None);
    assert_eq!(c(3, 4).offset(-1, 1), Some(c(2, 5)));
    assert_eq!(c(65535, 4).offset(1, 0), None);
}

#[test]
fn decimal_writes_digits() {
    assert_eq!(decimal(0), "0");
    assert_eq!(decimal(7), "7");
    assert_eq!(decimal(205), "205");
    assert_eq!(decimal(18446744073709551615), "18446744073709551615");
}

#[test]
fn tile_glyphs_and_hues() {
    assert!(Tile::Bomb.is_bomb());
    assert!(!Tile::Empty.is_bomb());
    assert!(!Tile::BombNeighbor(2).is_bomb());
    assert_eq!(Tile::Bomb.glyph(), "*");
    assert_eq!(Tile::Empty.glyph(), " ");
    assert_eq!(Tile::BombNeighbor(4).glyph(), "4");
    assert_eq!(Tile::Bomb.hue(), Some(Hue::BrightRed));
    assert_eq!(Tile::BombNeighbor(1).hue(), Some(Hue::Cyan));
    assert_eq!(Tile::BombNeighbor(2).hue(), Some(Hue::Green));
    assert_eq!(Tile::BombNeighbor(3).hue(), Some(Hue::Yellow));
    assert_eq!(Tile::BombNeighbor(6).hue(), Some(Hue::Red));
    assert_eq!(Tile::Empty.hue(), None);
}

#[test]
fn console_output_colours_tiles() {
    colored::control::set_override(true);
    assert_eq!(Tile::Bomb.console_output(), " \u{1b}[91m*\u{1b}[0m");
    assert_eq!(Tile::BombNeighbor(1).console_output(), " \u{1b}[36m1\u{1b}[0m");
    assert_eq!(Tile::Empty.console_output(), "  ");
    colored::control::set_override(false);
    assert_eq!(Tile::Bomb.console_output(), " *");
    assert_eq!(Tile::BombNeighbor(5).console_output(), " 5");
    colored::control::unset_override();
}

#[test]
fn map_console_output_frames_the_grid() {
    colored::control::set_override(false);
    let mut rng = StdRng::seed_from_u64(2);
    let mut m = TileMap::empty((2, 2)).unwrap();
    m.set_bombs(4, &mut rng).unwrap();
    assert_eq!(
        m.console_output(),
        "Map [2x2] with 4 bombs:\n------\n| * *|\n| * *|\n------"
    );
    colored::control::unset_override();
}

#[test]
fn bomb_neighbour_holds_count() {
    assert_eq!(BombNeighbour::new(3), BombNeighbour::new(3));
    assert_ne!(BombNeighbour::new(3), BombNeighbour::new(4));
}

#[test]
fn bounds_include_edges() {
    let b = Bounds::new(Point { x: -10, y: 0 }, Point { x: 20, y: 5 });
    assert!(b.in_bounds(Point { x: -10, y: 0 }));
    assert!(b.in_bounds(Point { x: 10, y: 5 }));
    assert!(!b.in_bounds(Point { x: 11, y: 5 }));
    assert!(!b.in_bounds(Point { x: 0, y: -1 }));
}

#[test]
fn adaptive_tile_size_fits_and_clamps() {
    assert_eq!(adaptative_tile_size((1200, 800), (10, 50), (20, 20)), 40);
    assert_eq!(adaptative_tile_size((1200, 800), (10, 30), (20, 20)), 30);
    assert_eq!(adaptative_tile_size((100, 800), (10, 50), (20, 20)), 10);
    assert_eq!(adaptative_tile_size((1000, 700), (1, 500), (10, 7)), 100);
}

#[test]
fn default_options() {
    let o = BoardOptions::default();
    assert_eq!(o.map_size, (15, 15));
    assert_eq!(o.bomb_count, 30);
    assert_eq!(o.position, BoardPosition::Centered(Point3 { x: 0, y: 0, z: 0 }));
    assert_eq!(o.tile_size, TileSize::Adaptive { min: 10, max: 50 });
    assert_eq!(o.tile_padding, 0);
    assert!(!o.safe_start);
}

#[test]
fn create_board_lays_out_and_seeds() {
    let mut rng = StdRng::seed_from_u64(9);
    let options = BoardOptions { map_size: (20, 20), bomb_count: 100, ..BoardOptions::default() };
    let setup = create_board(&options, (1200, 800), &mut rng).unwrap();
    assert_eq!(setup.tile_size, 40);
    assert_eq!(setup.bounds.size, Point { x: 800, y: 800 });
    assert_eq!(setup.bounds.mins, Point { x: -400, y: -400 });
    assert_eq!(setup.depth, 0);
    assert_eq!(count_bombs(&setup.tile_map), 100);

    let options = BoardOptions {
        map_size: (3, 5),
        bomb_count: 1,
        position: BoardPosition::Offset(Point3 { x: 7, y: -8, z: 2 }),
        tile_size: TileSize::Fixed(11),
        ..BoardOptions::default()
    };
    let setup = create_board(&options, (1200, 800), &mut rng).unwrap();
    assert_eq!(setup.bounds.mins, Point { x: 7, y: -8 });
    assert_eq!(setup.bounds.size, Point { x: 33, y: 55 });
    assert_eq!(setup.depth, 2);

    let options = BoardOptions {
        map_size: (3, 5),
        bomb_count: 1,
        position: BoardPosition::Centered(Point3 { x: 1, y: 1, z: 0 }),
        tile_size: TileSize::Fixed(11),
        ..BoardOptions::default()
    };
    let setup = create_board(&options, (1200, 800), &mut rng).unwrap();
    assert_eq!(setup.bounds.mins, Point { x: 1 - 16, y: 1 - 27 });
}

#[test]
fn create_board_errors() {
    let mut rng = StdRng::seed_from_u64(9);
    let options = BoardOptions { map_size: (0, 20), ..BoardOptions::default() };
    assert!(matches!(create_board(&options, (1200, 800), &mut rng), Err(BoardError::InvalidDimensions)));
    let options = BoardOptions { map_size: (5, 5), bomb_count: 26, ..BoardOptions::default() };
    assert!(matches!(create_board(&options, (1200, 800), &mut rng), Err(BoardError::TooManyMines)));
}

#[test]
fn app_state_follows_keys() {
    assert_eq!(AppState::InGame.on_keys(true, false), Some(AppState::Out));
    assert_eq!(AppState::Out.on_keys(false, true), Some(AppState::InGame));
    assert_eq!(AppState::InGame.on_keys(false, true), None);
    assert_eq!(AppState::Out.on_keys(true, false), None);
    assert_eq!(AppState::Out.on_keys(false, false), None);
}
