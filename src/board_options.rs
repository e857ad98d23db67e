use rand::rngs::StdRng;
use vstd::prelude::*;

use crate::bounds::{Bounds, Point, Point3};
use crate::error::BoardError;
use crate::tile_map::TileMap;

verus! {

/// How large a tile is drawn.
#[derive(Debug, Copy, Clone, PartialEq, Eq, Structural)]
pub enum TileSize {
    /// Always this edge length.
    Fixed(u32),
    /// As large as the window allows, kept between `min` and `max`.
    Adaptive { min: u32, max: u32 },
}

impl Default for TileSize {
    fn default() -> (r: Self)
        ensures
            r == (TileSize::Adaptive { min: 10, max: 50 }),
    {
        TileSize::Adaptive { min: 10, max: 50 }
    }
}

/// Where the board is placed in the world.
#[derive(Debug, Copy, Clone, PartialEq, Eq, Structural)]
pub enum BoardPosition {
    /// Centred on the origin, then moved by the offset.
    Centered(Point3),
    /// Lower left corner at this point.
    Offset(Point3),
}

impl Default for BoardPosition {
    fn default() -> (r: Self)
        ensures
            r == BoardPosition::Centered(Point3 { x: 0, y: 0, z: 0 }),
    {
        BoardPosition::Centered(Point3 { x: 0, y: 0, z: 0 })
    }
}

/// Settings for a new game.
#[derive(Debug, Copy, Clone)]
pub struct BoardOptions {
    /// Columns and rows.
    pub map_size: (u16, u16),
    pub bomb_count: u16,
    pub position: BoardPosition,
    pub tile_size: TileSize,
    /// Gap between neighbouring tiles, taken off each tile's drawn size.
    pub tile_padding: u32,
    /// Whether the first empty cell is uncovered for the player at the start.
    pub safe_start: bool,
}

impl Default for BoardOptions {
    fn default() -> (r: Self)
        ensures
            r == (BoardOptions {
                map_size: (15, 15),
                bomb_count: 30,
                position: BoardPosition::Centered(Point3 { x: 0, y: 0, z: 0 }),
                tile_size: TileSize::Adaptive { min: 10, max: 50 },
                tile_padding: 0,
                safe_start: false,
            }),
    {
        BoardOptions {
            map_size: (15, 15),
            bomb_count: 30,
            position: BoardPosition::default(),
            tile_size: TileSize::default(),
            tile_padding: 0,
            safe_start: false,
        }
    }
}

/// The tile edge that fits `columns` by `rows` tiles in the window, kept between
/// `min` and `max`.
pub open spec fn fitted_tile_size(window: (u32, u32), min: u32, max: u32, columns: u16, rows: u16) -> int {
    let by_width = window.0 as int / columns as int;
    let by_height = window.1 as int / rows as int;
    let fit = if by_width < by_height { by_width } else { by_height };
    if fit < min { min as int } else if fit > max { max as int } else { fit }
}

/// The largest tile edge that fits the board in the window, clamped to `[min, max]`.
pub fn adaptative_tile_size(window: (u32, u32), bounds: (u32, u32), board: (u16, u16)) -> (r: u32)
    requires
        bounds.0 <= bounds.1,
        board.0 > 0,
        board.1 > 0,
    ensures
        r == fitted_tile_size(window, bounds.0, bounds.1, board.0, board.1),
{
    let max_width = window.0 / board.0 as u32;
    let max_height = window.1 / board.1 as u32;
    let fit = if max_width < max_height { max_width } else { max_height };
    if fit < bounds.0 {
        bounds.0
    } else if fit > bounds.1 {
        bounds.1
    } else {
        fit
    }
}

/// Everything a new game needs besides the host's handles: the generated grid, the
/// tile edge, the rectangle the board covers and the depth it is drawn at.
pub struct BoardSetup {
    pub tile_map: TileMap,
    pub tile_size: u32,
    pub bounds: Bounds,
    pub depth: i64,
}

/// The tile edge that `options` give for a board of `columns` by `rows` in the window.
pub open spec fn chosen_tile_size(options: BoardOptions, window: (u32, u32), columns: u16, rows: u16) -> int {
    match options.tile_size {
        TileSize::Fixed(v) => v as int,
        TileSize::Adaptive { min, max } => fitted_tile_size(window, min, max, columns, rows),
    }
}

/// The lower left corner of a board of size `size` placed as `position` says; half the
/// size is rounded down, so a centred board of odd size sits half a unit to the right
/// or above.
pub open spec fn board_corner(position: BoardPosition, size: Point) -> Point3 {
    match position {
        BoardPosition::Centered(o) => Point3 { x: (o.x - size.x / 2) as i64, y: (o.y - size.y / 2) as i64, z: o.z },
        BoardPosition::Offset(p) => p,
    }
}

/// Generates a board as `options` say: an empty grid of the configured size, seeded with
/// the configured number of bombs from `rng`, and its placement in a window of the
/// given size. Fails when a dimension is zero or the bombs do not fit.
pub fn create_board(options: &BoardOptions, window: (u32, u32), rng: &mut StdRng) -> (r: Result<BoardSetup, BoardError>)
    requires
        options.tile_size is Adaptive ==> options.tile_size->min <= options.tile_size->max,
        options.position is Centered ==> i32::MIN <= options.position->Centered_0.x <= i32::MAX,
        options.position is Centered ==> i32::MIN <= options.position->Centered_0.y <= i32::MAX,
    ensures
        (options.map_size.0 == 0 || options.map_size.1 == 0 || 2 * options.map_size.0 * options.map_size.1 > isize::MAX) <==> r == Err::<BoardSetup, BoardError>(BoardError::InvalidDimensions),
        (options.map_size.0 > 0 && options.map_size.1 > 0 && 2 * options.map_size.0 * options.map_size.1 <= isize::MAX && options.bomb_count > options.map_size.0 * options.map_size.1) ==> r == Err::<BoardSetup, BoardError>(BoardError::TooManyMines),
        (options.map_size.0 > 0 && options.map_size.1 > 0 && 2 * options.map_size.0 * options.map_size.1 <= isize::MAX && options.bomb_count <= options.map_size.0 * options.map_size.1) ==> r is Ok,
        r is Ok ==> {
            let s = r->Ok_0;
            let size = Point { x: (options.map_size.0 * s.tile_size) as i64, y: (options.map_size.1 * s.tile_size) as i64 };
            let corner = board_corner(options.position, size);
            &&& s.tile_map.wf()
            &&& s.tile_map.is_generated()
            &&& s.tile_map.spec_width() == options.map_size.0
            &&& s.tile_map.spec_height() == options.map_size.1
            &&& s.tile_map.spec_bomb_count() == options.bomb_count
            &&& s.tile_size == chosen_tile_size(*options, window, options.map_size.0, options.map_size.1)
            &&& s.bounds == (Bounds { mins: Point { x: corner.x, y: corner.y }, size })
            &&& s.depth == corner.z
        },
{
    let mut tile_map = match TileMap::empty(options.map_size) {
        Ok(m) => m,
        Err(e) => return Err(e),
    };
    match tile_map.set_bombs(options.bomb_count, rng) {
        Ok(()) => {},
        Err(e) => return Err(e),
    }
    let tile_size = match options.tile_size {
        TileSize::Fixed(v) => v,
        TileSize::Adaptive { min, max } => adaptative_tile_size(window, (min, max), options.map_size),
    };
    proof {
        assert(options.map_size.0 * tile_size <= 0xFFFF * 0xFFFF_FFFFu64) by (nonlinear_arith)
            requires
                options.map_size.0 <= 0xFFFF,
                tile_size <= 0xFFFF_FFFFu64,
        ;
        assert(options.map_size.1 * tile_size <= 0xFFFF * 0xFFFF_FFFFu64) by (nonlinear_arith)
            requires
                options.map_size.1 <= 0xFFFF,
                tile_size <= 0xFFFF_FFFFu64,
        ;
    }
    let size = Point {
        x: options.map_size.0 as i64 * tile_size as i64,
        y: options.map_size.1 as i64 * tile_size as i64,
    };
    let corner = match options.position {
        BoardPosition::Centered(o) => Point3 { x: o.x - size.x / 2, y: o.y - size.y / 2, z: o.z },
        BoardPosition::Offset(p) => p,
    };
    Ok(BoardSetup { tile_map, tile_size, bounds: Bounds { mins: Point { x: corner.x, y: corner.y }, size }, depth: corner.z })
}

} // verus!
