use ndarray::Array2;
use rand::rngs::StdRng;
use rand::Rng;
use vstd::prelude::*;
use vstd::string::*;

use crate::coordinates::{adjacent, lemma_push_contains, lemma_square_seq, push_some, shifted, square_seq, Coordinates};
use crate::error::BoardError;
use crate::grid_index::{cell_of_index, index_of_cell, lemma_cell_to_index, lemma_index_to_cell};
use crate::tile::{decimal, decimal_of, shows_tile, Tile};

verus! {

#[verifier::external_type_specification]
#[verifier::external_body]
pub struct ExStdRng(StdRng);

/// Relies on rand's `Rng::gen_range` over the half-open range `0..bound`: the value lies
/// in the range; the call panics on an empty range, which `bound > 0` rules out.
#[verifier::external_body]
fn draw_below(rng: &mut StdRng, bound: usize) -> (r: usize)
    requires
        bound > 0,
    ensures
        r < bound,
{
    rng.gen_range(0..bound)
}

/// Dense storage for the tiles of a grid, indexed by `(column, row)`.
#[verifier::external_body]
pub struct TileArray {
    cells: Array2<Tile>,
}

/// The tiles held by a `TileArray`, by `(column, row)` index.
pub uninterp spec fn array_cells(a: TileArray) -> Map<(usize, usize), Tile>;

impl TileArray {
    /// Relies on ndarray's `Array2::from_elem`: an array of shape `(cols, rows)` with a
    /// copy of `elem` at every index. It panics when the product of the non-zero axis
    /// lengths overflows `isize`, or when the storage, two bytes a tile, does; with both
    /// lengths at least one, the precondition rules out both.
    #[verifier::external_body]
    fn filled(cols: usize, rows: usize, elem: Tile) -> (r: TileArray)
        requires
            cols >= 1,
            rows >= 1,
            2 * cols * rows <= isize::MAX,
        ensures
            array_cells(r) == Map::new(
                |k: (usize, usize)| k.0 < cols && k.1 < rows,
                |k: (usize, usize)| elem,
            ),
    {
        TileArray { cells: Array2::from_elem((cols, rows), elem) }
    }

    /// Relies on ndarray's `Index` for `(usize, usize)`: the element at that index;
    /// it panics outside the shape, which the precondition rules out.
    #[verifier::external_body]
    fn get(&self, i: usize, j: usize) -> (r: Tile)
        requires
            array_cells(*self).dom().contains((i, j)),
        ensures
            r == array_cells(*self)[(i, j)],
    {
        self.cells[(i, j)]
    }

    /// Relies on ndarray's `IndexMut` for `(usize, usize)`: the element at that index is
    /// replaced and no other; it panics outside the shape, which the precondition rules out.
    #[verifier::external_body]
    fn set(&mut self, i: usize, j: usize, t: Tile)
        requires
            array_cells(*old(self)).dom().contains((i, j)),
        ensures
            array_cells(*final(self)) == array_cells(*old(self)).insert((i, j), t),
    {
        self.cells[(i, j)] = t;
    }
}

/// Number of bombs in a sequence of tiles.
pub open spec fn count_bombs(s: Seq<Tile>) -> nat
    decreases s.len(),
{
    if s.len() == 0 {
        0
    } else {
        count_bombs(s.drop_last()) + if s.last() is Bomb {
            1nat
        } else {
            0nat
        }
    }
}

proof fn lemma_count_bombs_bound(s: Seq<Tile>)
    ensures
        count_bombs(s) <= s.len(),
    decreases s.len(),
{
    if s.len() > 0 {
        lemma_count_bombs_bound(s.drop_last());
    }
}

proof fn lemma_count_bombs_update(s: Seq<Tile>, i: int, t: Tile)
    requires
        0 <= i < s.len(),
    ensures
        count_bombs(s.update(i, t)) + (if s[i] is Bomb {
            1int
        } else {
            0int
        }) == count_bombs(s) + (if t is Bomb {
            1int
        } else {
            0int
        }),
    decreases s.len(),
{
    let u = s.update(i, t);
    if i < s.len() - 1 {
        assert(u.drop_last() =~= s.drop_last().update(i, t));
        lemma_count_bombs_update(s.drop_last(), i, t);
    } else {
        assert(u.drop_last() =~= s.drop_last());
    }
}

proof fn lemma_count_bombs_take(s: Seq<Tile>, i: int)
    requires
        0 <= i < s.len(),
    ensures
        count_bombs(s.take(i + 1)) == count_bombs(s.take(i)) + if s[i] is Bomb {
            1nat
        } else {
            0nat
        },
{
    assert(s.take(i + 1).drop_last() =~= s.take(i));
}

proof fn lemma_no_bombs(s: Seq<Tile>)
    requires
        forall|j: int| 0 <= j < s.len() ==> !(#[trigger] s[j] is Bomb),
    ensures
        count_bombs(s) == 0,
    decreases s.len(),
{
    if s.len() > 0 {
        lemma_no_bombs(s.drop_last());
    }
}

fn push_offset(v: &mut Vec<Coordinates>, c: Coordinates, dx: i8, dy: i8)
    ensures
        final(v)@ == push_some(old(v)@, shifted(c, dx as int, dy as int)),
{
    match c.offset(dx, dy) {
        Some(q) => v.push(q),
        None => {},
    }
}

/// The texts in `parts`, one after another.
pub open spec fn concat_all(parts: Seq<Seq<char>>) -> Seq<char>
    decreases parts.len(),
{
    if parts.len() == 0 {
        Seq::empty()
    } else {
        concat_all(parts.drop_last()) + parts.last()
    }
}

/// The console lines of the given rows of tile texts: each row framed by bars and
/// ended by a newline.
pub open spec fn rows_text(rows: Seq<Seq<Seq<char>>>) -> Seq<char>
    decreases rows.len(),
{
    if rows.len() == 0 {
        Seq::empty()
    } else {
        rows_text(rows.drop_last()) + "|"@ + concat_all(rows.last()) + "|\n"@
    }
}

/// `n` copies of the two-character dash `--`.
pub open spec fn dash_rule(n: nat) -> Seq<char>
    decreases n,
{
    if n == 0 {
        Seq::empty()
    } else {
        dash_rule((n - 1) as nat) + "--"@
    }
}

/// A horizontal rule of `n` dash pairs.
fn rule(n: usize) -> (r: String)
    ensures
        r@ == dash_rule(n as nat),
{
    proof {
        reveal_strlit("--");
    }
    let mut r = String::new();
    for i in 0..n
        invariant
            r@ == dash_rule(i as nat),
    {
        r.append("--");
    }
    r
}

/// A rectangular grid of tiles together with the number of bombs it was seeded with.
pub struct TileMap {
    bomb_count: u16,
    width: u16,
    height: u16,
    map: TileArray,
}

impl TileMap {
    /// The representable neighbours of `c`, in the fixed offset order; grid bounds
    /// are left to the caller.
    pub fn safe_square_at(c: Coordinates) -> (r: Vec<Coordinates>)
        ensures
            r@ == square_seq(c),
    {
        let mut v: Vec<Coordinates> = Vec::new();
        push_offset(&mut v, c, -1, -1);
        push_offset(&mut v, c, 0, -1);
        push_offset(&mut v, c, 1, -1);
        push_offset(&mut v, c, -1, 0);
        push_offset(&mut v, c, 1, 0);
        push_offset(&mut v, c, -1, 1);
        push_offset(&mut v, c, 0, 1);
        push_offset(&mut v, c, 1, 1);
        v
    }

    /// Number of columns.
    pub closed spec fn spec_width(self) -> int {
        self.width as int
    }

    /// Number of rows.
    pub closed spec fn spec_height(self) -> int {
        self.height as int
    }

    /// The number of bombs the grid was seeded with.
    pub closed spec fn spec_bomb_count(self) -> int {
        self.bomb_count as int
    }

    /// The tile at an in-bounds cell.
    pub closed spec fn tile(self, c: Coordinates) -> Tile {
        array_cells(self.map)[(c.x as usize, c.y as usize)]
    }

    /// The grid has at least one row and one column, and its storage has exactly its shape.
    pub closed spec fn wf(self) -> bool {
        &&& self.width >= 1
        &&& self.height >= 1
        &&& forall|k: (usize, usize)|
            #[trigger] array_cells(self.map).dom().contains(k) <==> (k.0 < self.width && k.1
                < self.height)
    }

    pub open spec fn in_bounds(self, c: Coordinates) -> bool {
        c.x < self.spec_width() && c.y < self.spec_height()
    }

    pub open spec fn cell_count(self) -> int {
        self.spec_width() * self.spec_height()
    }

    /// A bomb lies at `c`; never true off the grid.
    pub open spec fn is_mine(self, c: Coordinates) -> bool {
        self.in_bounds(c) && self.tile(c) is Bomb
    }

    /// Number of bombs at the cells listed in `s`.
    pub open spec fn mines_among(self, s: Seq<Coordinates>) -> nat
        decreases s.len(),
    {
        if s.len() == 0 {
            0
        } else {
            self.mines_among(s.drop_last()) + if self.is_mine(s.last()) {
                1nat
            } else {
                0nat
            }
        }
    }

    /// Number of bombs among the eight neighbours of `c`.
    pub open spec fn mine_neighbours(self, c: Coordinates) -> nat {
        self.mines_among(square_seq(c))
    }

    /// The tile that generation leaves at `c`: a bomb stays a bomb, any other cell
    /// shows its number of neighbouring bombs, or is empty when that number is zero.
    pub open spec fn label(self, c: Coordinates) -> Tile {
        if self.tile(c) is Bomb {
            Tile::Bomb
        } else if self.mine_neighbours(c) == 0 {
            Tile::Empty
        } else {
            Tile::BombNeighbor(self.mine_neighbours(c) as u8)
        }
    }

    /// The tiles in row-by-row scan order.
    pub open spec fn flat(self) -> Seq<Tile> {
        Seq::new(
            self.cell_count() as nat,
            |i: int| self.tile(cell_of_index(self.spec_width(), i)),
        )
    }

    /// Number of bombs on the grid.
    pub open spec fn mine_total(self) -> nat {
        count_bombs(self.flat())
    }

    /// No bomb placed yet: every tile is empty.
    pub open spec fn is_blank(self) -> bool {
        &&& self.spec_bomb_count() == 0
        &&& forall|c: Coordinates| self.in_bounds(c) ==> #[trigger] self.tile(c) == Tile::Empty
    }

    /// Generation is done: the grid holds exactly the configured number of bombs, and
    /// every other tile shows its count of neighbouring bombs.
    pub open spec fn is_generated(self) -> bool {
        &&& self.mine_total() == self.spec_bomb_count()
        &&& forall|c: Coordinates| self.in_bounds(c) ==> #[trigger] self.tile(c) == self.label(c)
    }

    pub proof fn lemma_shape(self)
        requires
            self.wf(),
        ensures
            1 <= self.spec_width() <= u16::MAX,
            1 <= self.spec_height() <= u16::MAX,
            0 <= self.spec_bomb_count() <= u16::MAX,
    {
    }

    /// An all-empty grid of `map_size.0` columns and `map_size.1` rows, with no bombs.
    /// A zero dimension is refused, and so is a grid too large to address on this
    /// machine (beyond `isize::MAX` bytes, which only narrow targets reach).
    pub fn empty(map_size: (u16, u16)) -> (r: Result<TileMap, BoardError>)
        ensures
            map_size.0 == 0 || map_size.1 == 0 || 2 * map_size.0 * map_size.1 > isize::MAX <==> r
                == Err::<TileMap, BoardError>(BoardError::InvalidDimensions),
            r is Ok || r == Err::<TileMap, BoardError>(BoardError::InvalidDimensions),
            r is Ok ==> {
                let m = r->Ok_0;
                &&& m.spec_width() == map_size.0
                &&& m.spec_height() == map_size.1
                &&& m.is_blank()
                &&& m.is_generated()
                &&& m.wf()
            },
    {
        if map_size.0 == 0 || map_size.1 == 0 {
            return Err(BoardError::InvalidDimensions);
        }
        proof {
            assert(2 * map_size.0 * map_size.1 <= 2 * 0xFFFF * 0xFFFFu64) by (nonlinear_arith)
                requires
                    map_size.0 <= 0xFFFF,
                    map_size.1 <= 0xFFFF,
            ;
        }
        if 2 * (map_size.0 as u64) * (map_size.1 as u64) > isize::MAX as u64 {
            return Err(BoardError::InvalidDimensions);
        }
        let map = TileArray::filled(map_size.0 as usize, map_size.1 as usize, Tile::Empty);
        let m = TileMap { bomb_count: 0, width: map_size.0, height: map_size.1, map };
        proof {
            let f = m.flat();
            assert forall|j: int| 0 <= j < f.len() implies !(#[trigger] f[j] is Bomb) by {
                lemma_index_to_cell(m.spec_width(), m.spec_height(), j);
            }
            lemma_no_bombs(f);
            assert forall|c: Coordinates| m.in_bounds(c) implies #[trigger] m.tile(c) == m.label(c) by {
                m.lemma_mines_among_none(square_seq(c));
            }
        }
        Ok(m)
    }

    pub fn width(&self) -> (r: usize)
        requires
            self.wf(),
        ensures
            r == self.spec_width(),
    {
        self.width as usize
    }

    pub fn height(&self) -> (r: usize)
        requires
            self.wf(),
        ensures
            r == self.spec_height(),
    {
        self.height as usize
    }

    pub fn bomb_count(&self) -> (r: u16)
        ensures
            r == self.spec_bomb_count(),
    {
        self.bomb_count
    }

    /// The tile at `c`, or `None` off the grid.
    pub fn tile_at(&self, c: Coordinates) -> (r: Option<Tile>)
        requires
            self.wf(),
        ensures
            r == if self.in_bounds(c) {
                Some(self.tile(c))
            } else {
                None::<Tile>
            },
    {
        if c.x < self.width && c.y < self.height {
            Some(self.map.get(c.x as usize, c.y as usize))
        } else {
            None
        }
    }

    /// Whether a bomb lies at `c`; `false` off the grid.
    pub fn is_bomb_at(&self, c: Coordinates) -> (r: bool)
        requires
            self.wf(),
        ensures
            r == self.is_mine(c),
    {
        match self.tile_at(c) {
            Some(t) => t.is_bomb(),
            None => false,
        }
    }

    /// The neighbours of `c` that lie on the grid, each once, in the fixed offset order.
    pub fn in_bounds_neighbors(&self, c: Coordinates) -> (r: Vec<Coordinates>)
        requires
            self.wf(),
        ensures
            r@.no_duplicates(),
            forall|q: Coordinates| #[trigger] r@.contains(q) <==> (adjacent(c, q) && self.in_bounds(q)),
    {
        let square = Self::safe_square_at(c);
        proof {
            lemma_square_seq(c);
        }
        let mut r: Vec<Coordinates> = Vec::new();
        for k in 0..square.len()
            invariant
                square@ == square_seq(c),
                square@.no_duplicates(),
                r@.no_duplicates(),
                forall|q: Coordinates| #[trigger] r@.contains(q) <==> (square@.take(k as int).contains(q) && self.in_bounds(q)),
        {
            let q = square[k];
            let ghost t0 = square@.take(k as int);
            let ghost t1 = square@.take(k + 1);
            let ghost r0 = r@;
            proof {
                assert forall|p: Coordinates| t1.contains(p) <==> (t0.contains(p) || p == q) by {
                    if t1.contains(p) {
                        let j = choose|j: int| 0 <= j < t1.len() && #[trigger] t1[j] == p;
                        if j < k {
                            assert(t0[j] == p);
                        }
                    }
                    if t0.contains(p) {
                        let j = choose|j: int| 0 <= j < t0.len() && #[trigger] t0[j] == p;
                        assert(t1[j] == p);
                    }
                    if p == q {
                        assert(t1[k as int] == p);
                    }
                }
                if t0.contains(q) {
                    let j = choose|j: int| 0 <= j < t0.len() && #[trigger] t0[j] == q;
                    assert(square@[j] == square@[k as int]);
                }
            }
            if q.x < self.width && q.y < self.height {
                proof {
                    assert forall|p: Coordinates| r@.push(q).contains(p) <==> (r@.contains(p) || p == q) by {
                        if r@.push(q).contains(p) {
                            let j = choose|j: int| 0 <= j < r@.len() + 1 && #[trigger] r@.push(q)[j] == p;
                            if j < r@.len() {
                                assert(r@[j] == p);
                            }
                        }
                        if r@.contains(p) {
                            let j = choose|j: int| 0 <= j < r@.len() && #[trigger] r@[j] == p;
                            assert(r@.push(q)[j] == p);
                        }
                        assert(r@.push(q)[r@.len() as int] == q);
                    }
                    assert forall|i: int, j: int| 0 <= i < j < r@.len() + 1 implies r@.push(q)[i] != r@.push(q)[j] by {
                        if j == r@.len() {
                            assert(r@.contains(r@[i]));
                        }
                    }
                }
                r.push(q);
            }
            assert forall|p: Coordinates| #[trigger] r@.contains(p) <==> (t1.contains(p) && self.in_bounds(p)) by {
                if self.in_bounds(q) {
                    assert(r@ == r0.push(q));
                    lemma_push_contains(r0, q, p);
                } else {
                    assert(r@ == r0);
                }
            }
        }
        proof {
            assert(square@.take(square@.len() as int) =~= square@);
        }
        r
    }

    /// Number of bombs among the neighbours of `c`; zero when `c` is itself a bomb.
    pub fn bomb_count_at(&self, c: Coordinates) -> (r: u8)
        requires
            self.wf(),
        ensures
            r == if self.is_mine(c) {
                0
            } else {
                self.mine_neighbours(c)
            },
            r <= 8,
    {
        if self.is_bomb_at(c) {
            return 0;
        }
        let square = Self::safe_square_at(c);
        proof {
            lemma_square_seq(c);
        }
        let mut n: u8 = 0;
        for k in 0..square.len()
            invariant
                self.wf(),
                square@ == square_seq(c),
                square@.len() <= 8,
                n == self.mines_among(square@.take(k as int)),
                n <= k,
        {
            proof {
                assert(square@.take(k + 1).drop_last() =~= square@.take(k as int));
            }
            if self.is_bomb_at(square[k]) {
                n = n + 1;
            }
        }
        proof {
            assert(square@.take(square@.len() as int) =~= square@);
        }
        n
    }

    fn total_cells(&self) -> (r: usize)
        requires
            self.wf(),
        ensures
            r == self.cell_count(),
    {
        let w: usize = self.width as usize;
        let h: usize = self.height as usize;
        proof {
            assert(w * h <= 0xFFFF_FFFFusize) by (nonlinear_arith)
                requires
                    w <= 0xFFFF,
                    h <= 0xFFFF,
            ;
        }
        w * h
    }

    /// Replacing the tile at `c` changes the scan at `c`'s position and nowhere else.
    proof fn lemma_set_tile(self, next: TileMap, c: Coordinates, t: Tile)
        requires
            self.wf(),
            self.in_bounds(c),
            next.width == self.width,
            next.height == self.height,
            array_cells(next.map) == array_cells(self.map).insert((c.x as usize, c.y as usize), t),
        ensures
            next.wf(),
            forall|q: Coordinates| #[trigger] next.tile(q) == if q == c { t } else { self.tile(q) },
            next.flat() =~= self.flat().update(index_of_cell(self.spec_width(), c), t),
    {
        let w = self.spec_width();
        let h = self.spec_height();
        assert forall|k: (usize, usize)| #[trigger] array_cells(next.map).dom().contains(k) <==> (k.0 < next.width && k.1 < next.height) by {
            assert(array_cells(self.map).dom().contains((c.x as usize, c.y as usize)));
        }
        lemma_cell_to_index(w, h, c);
        assert forall|j: int| 0 <= j < w * h implies #[trigger] next.flat()[j] == self.flat().update(index_of_cell(w, c), t)[j] by {
            lemma_index_to_cell(w, h, j);
        }
    }

    proof fn lemma_mines_among_agree(self, other: TileMap, s: Seq<Coordinates>)
        requires
            forall|c: Coordinates| #[trigger] self.is_mine(c) == other.is_mine(c),
        ensures
            self.mines_among(s) == other.mines_among(s),
        decreases s.len(),
    {
        if s.len() > 0 {
            self.lemma_mines_among_agree(other, s.drop_last());
        }
    }

    /// The `k`-th cell, in scan order, that holds no bomb.
    fn nth_free(&self, k: usize) -> (r: Coordinates)
        requires
            self.wf(),
            k + count_bombs(self.flat()) < self.cell_count(),
        ensures
            self.in_bounds(r),
            !(self.tile(r) is Bomb),
    {
        let w: usize = self.width as usize;
        let total: usize = self.total_cells();
        let mut seen: usize = 0;
        let mut i: usize = 0;
        proof {
            lemma_count_bombs_bound(self.flat());
        }
        while i < total
            invariant
                self.wf(),
                w == self.spec_width(),
                total == self.cell_count(),
                k + count_bombs(self.flat()) < total,
                i <= total,
                seen + count_bombs(self.flat().take(i as int)) == i,
                seen <= k,
            decreases total - i,
        {
            proof {
                lemma_index_to_cell(w as int, self.spec_height(), i as int);
            }
            let c = Coordinates { x: (i % w) as u16, y: (i / w) as u16 };
            proof {
                lemma_count_bombs_take(self.flat(), i as int);
                assert(c == cell_of_index(w as int, i as int));
            }
            if !self.is_bomb_at(c) {
                if seen == k {
                    return c;
                }
                seen = seen + 1;
            }
            i = i + 1;
        }
        proof {
            assert(self.flat().take(total as int) =~= self.flat());
        }
        Coordinates { x: 0, y: 0 }
    }

    /// Numbers every non-bomb cell by its neighbouring bombs; bombs stay where they are.
    fn label_cells(&mut self)
        requires
            old(self).wf(),
            forall|c: Coordinates| old(self).in_bounds(c) ==> (#[trigger] old(self).tile(c) is Bomb || old(self).tile(c) is Empty),
        ensures
            final(self).wf(),
            final(self).spec_width() == old(self).spec_width(),
            final(self).spec_height() == old(self).spec_height(),
            final(self).spec_bomb_count() == old(self).spec_bomb_count(),
            final(self).mine_total() == old(self).mine_total(),
            forall|c: Coordinates| final(self).in_bounds(c) ==> #[trigger] final(self).tile(c) == final(self).label(c),
    {
        let ghost placed = *self;
        let w: usize = self.width as usize;
        let total: usize = self.total_cells();
        for i in 0..total
            invariant
                self.wf(),
                w == self.spec_width(),
                total == self.cell_count(),
                self.width == placed.width,
                self.height == placed.height,
                self.bomb_count == placed.bomb_count,
                forall|c: Coordinates| #[trigger] self.is_mine(c) == placed.is_mine(c),
                count_bombs(self.flat()) == count_bombs(placed.flat()),
                forall|c: Coordinates| placed.in_bounds(c) ==> (#[trigger] placed.tile(c) is Bomb || placed.tile(c) is Empty),
                forall|j: int| 0 <= j < i ==> #[trigger] self.tile(cell_of_index(w as int, j)) == self.label(cell_of_index(w as int, j)),
                forall|j: int| i <= j < total ==> #[trigger] self.tile(cell_of_index(w as int, j)) == placed.tile(cell_of_index(w as int, j)),
        {
            proof {
                lemma_index_to_cell(w as int, self.spec_height(), i as int);
            }
            let c = Coordinates { x: (i % w) as u16, y: (i / w) as u16 };
            proof {
                assert(c == cell_of_index(w as int, i as int));
            }
            if !self.is_bomb_at(c) {
                let n = self.bomb_count_at(c);
                if n != 0 {
                    let ghost before = *self;
                    self.map.set(c.x as usize, c.y as usize, Tile::BombNeighbor(n));
                    proof {
                        before.lemma_set_tile(*self, c, Tile::BombNeighbor(n));
                        lemma_cell_to_index(w as int, self.spec_height(), c);
                        lemma_count_bombs_update(before.flat(), index_of_cell(w as int, c), Tile::BombNeighbor(n));
                        assert forall|q: Coordinates| #[trigger] self.is_mine(q) == placed.is_mine(q) by {
                            assert(before.is_mine(q) == placed.is_mine(q));
                        }
                        assert forall|q: Coordinates| #[trigger] self.mine_neighbours(q) == before.mine_neighbours(q) by {
                            self.lemma_mines_among_agree(before, square_seq(q));
                        }
                        assert forall|j: int| 0 <= j < i + 1 implies #[trigger] self.tile(cell_of_index(w as int, j)) == self.label(cell_of_index(w as int, j)) by {
                            lemma_index_to_cell(w as int, self.spec_height(), j);
                            lemma_index_to_cell(w as int, self.spec_height(), i as int);
                            if j < i {
                                assert(before.tile(cell_of_index(w as int, j)) == before.label(cell_of_index(w as int, j)));
                            }
                        }
                        assert forall|j: int| i + 1 <= j < total implies #[trigger] self.tile(cell_of_index(w as int, j)) == placed.tile(cell_of_index(w as int, j)) by {
                            lemma_index_to_cell(w as int, self.spec_height(), j);
                            lemma_index_to_cell(w as int, self.spec_height(), i as int);
                        }
                    }
                } else {
                    proof {
                        assert(placed.tile(c) is Empty);
                    }
                }
            }
        }
        proof {
            assert forall|c: Coordinates| self.in_bounds(c) implies #[trigger] self.tile(c) == self.label(c) by {
                lemma_cell_to_index(w as int, self.spec_height(), c);
                assert(self.tile(cell_of_index(w as int, index_of_cell(w as int, c))) == self.label(cell_of_index(w as int, index_of_cell(w as int, c))));
            }
        }
    }

    /// Seeds the grid with `bomb_count` bombs and numbers every other cell by its
    /// neighbouring bombs. Each bomb goes to a cell drawn uniformly from `rng`; when that
    /// cell already holds a bomb, the bomb goes instead to a cell drawn uniformly among
    /// the free ones, so every placement takes one step.
    pub fn set_bombs(&mut self, bomb_count: u16, rng: &mut StdRng) -> (r: Result<(), BoardError>)
        requires
            old(self).wf(),
            old(self).is_blank(),
        ensures
            final(self).wf(),
            final(self).spec_width() == old(self).spec_width(),
            final(self).spec_height() == old(self).spec_height(),
            bomb_count > old(self).cell_count() <==> r == Err::<(), BoardError>(BoardError::TooManyMines),
            bomb_count <= old(self).cell_count() ==> r is Ok,
            r is Err ==> *final(self) == *old(self),
            r is Ok ==> final(self).spec_bomb_count() == bomb_count && final(self).is_generated(),
    {
        let w: usize = self.width as usize;
        let total: usize = self.total_cells();
        if bomb_count as usize > total {
            return Err(BoardError::TooManyMines);
        }
        proof {
            assert(count_bombs(self.flat()) == 0) by {
                let f = self.flat();
                assert forall|j: int| 0 <= j < f.len() implies !(#[trigger] f[j] is Bomb) by {
                    lemma_index_to_cell(w as int, self.spec_height(), j);
                }
                lemma_no_bombs(f);
            }
        }
        let ghost blank = *self;
        self.bomb_count = bomb_count;
        proof {
            assert(self.flat() =~= blank.flat());
            assert forall|c: Coordinates| self.in_bounds(c) implies (#[trigger] self.tile(c) is Bomb || self.tile(c) is Empty) by {
                assert(blank.tile(c) == Tile::Empty);
            }
        }
        let mut remaining: u16 = bomb_count;
        while remaining > 0
            invariant
                self.wf(),
                w == self.spec_width(),
                total == self.cell_count(),
                self.width == old(self).width,
                self.height == old(self).height,
                self.bomb_count == bomb_count,
                bomb_count <= total,
                remaining <= bomb_count,
                count_bombs(self.flat()) + remaining == bomb_count,
                forall|c: Coordinates| self.in_bounds(c) ==> (#[trigger] self.tile(c) is Bomb || self.tile(c) is Empty),
            decreases remaining,
        {
            let x = draw_below(rng, self.width as usize);
            let y = draw_below(rng, self.height as usize);
            let drawn = Coordinates { x: x as u16, y: y as u16 };
            let placed: usize = (bomb_count - remaining) as usize;
            let target = if self.is_bomb_at(drawn) {
                let k = draw_below(rng, total - placed);
                self.nth_free(k)
            } else {
                drawn
            };
            let ghost before = *self;
            self.map.set(target.x as usize, target.y as usize, Tile::Bomb);
            proof {
                before.lemma_set_tile(*self, target, Tile::Bomb);
                lemma_cell_to_index(w as int, self.spec_height(), target);
                lemma_count_bombs_update(before.flat(), index_of_cell(w as int, target), Tile::Bomb);
            }
            remaining = remaining - 1;
        }
        self.label_cells();
        Ok(())
    }

    /// A generated grid holds exactly the configured number of bombs; every numbered
    /// cell is no bomb and shows, between one and eight, how many of its neighbours
    /// on the grid are bombs; every empty cell is no bomb and has no bomb next to it.
    pub proof fn lemma_generated_grid(self)
        requires
            self.wf(),
            self.is_generated(),
        ensures
            self.mine_total() == self.spec_bomb_count(),
            forall|c: Coordinates| #[trigger] self.tile(c) is BombNeighbor && self.in_bounds(c) ==> {
                &&& !self.is_mine(c)
                &&& self.tile(c)->BombNeighbor_0 == self.mine_neighbours(c)
                &&& 1 <= self.mine_neighbours(c) <= 8
            },
            forall|c: Coordinates| #[trigger] self.tile(c) is Empty && self.in_bounds(c) ==> {
                &&& !self.is_mine(c)
                &&& self.mine_neighbours(c) == 0
            },
            forall|c: Coordinates, q: Coordinates| #[trigger] square_seq(c).contains(q) <==> #[trigger] adjacent(c, q),
    {
        assert forall|c: Coordinates| self.in_bounds(c) implies self.mine_neighbours(c) <= 8 by {
            lemma_square_seq(c);
            self.lemma_mines_among_bound(square_seq(c));
        }
        assert forall|c: Coordinates, q: Coordinates| #[trigger] square_seq(c).contains(q) <==> #[trigger] adjacent(c, q) by {
            lemma_square_seq(c);
        }
    }

    proof fn lemma_mines_among_bound(self, s: Seq<Coordinates>)
        ensures
            self.mines_among(s) <= s.len(),
        decreases s.len(),
    {
        if s.len() > 0 {
            self.lemma_mines_among_bound(s.drop_last());
        }
    }

    /// The first line of the console dump: size and bomb count.
    pub open spec fn header_of(self) -> Seq<char> {
        "Map ["@ + decimal_of(self.spec_width() as nat) + "x"@ + decimal_of(self.spec_height() as nat) + "] with "@
            + decimal_of(self.spec_bomb_count() as nat) + " bombs:\n"@
    }

    /// A dump of the grid for a terminal: the header, a rule, one framed line per row
    /// with every tile's coloured symbol, and the rule again. How each tile is coloured
    /// depends on the terminal, so the tiles' texts are stated through `shows_tile`.
    pub fn console_output(&self) -> (r: String)
        requires
            self.wf(),
        ensures
            exists|rows: Seq<Seq<Seq<char>>>|
                {
                    &&& rows.len() == self.spec_height()
                    &&& forall|y: int| 0 <= y < rows.len() ==> #[trigger] rows[y].len() == self.spec_width()
                    &&& forall|y: int, x: int|
                        0 <= y < self.spec_height() && 0 <= x < self.spec_width() ==> shows_tile(
                            self.tile(Coordinates { x: x as u16, y: y as u16 }),
                            #[trigger] rows[y][x],
                        )
                    &&& r@ == self.header_of() + dash_rule(self.spec_width() as nat + 1) + "\n"@
                        + rows_text(rows) + dash_rule(self.spec_width() as nat + 1)
                },
    {
        proof {
            reveal_strlit("Map [");
            reveal_strlit("x");
            reveal_strlit("] with ");
            reveal_strlit(" bombs:\n");
            reveal_strlit("\n");
            reveal_strlit("|");
            reveal_strlit("|\n");
            self.lemma_shape();
        }
        let mut buffer = String::from_str("Map [");
        buffer.append(decimal(self.width as u64).as_str());
        buffer.append("x");
        buffer.append(decimal(self.height as u64).as_str());
        buffer.append("] with ");
        buffer.append(decimal(self.bomb_count as u64).as_str());
        buffer.append(" bombs:\n");
        proof {
            assert(buffer@ =~= self.header_of());
        }
        let line = rule(self.width as usize + 1);
        buffer.append(line.as_str());
        buffer.append("\n");
        let ghost opening = buffer@;
        let ghost mut rows: Seq<Seq<Seq<char>>> = Seq::empty();
        proof {
            assert(opening =~= self.header_of() + line@ + "\n"@);
            assert(buffer@ =~= opening + rows_text(rows));
        }
        for y in 0..self.height
            invariant
                self.wf(),
                opening == self.header_of() + line@ + "\n"@,
                rows.len() == y,
                forall|j: int| 0 <= j < rows.len() ==> #[trigger] rows[j].len() == self.spec_width(),
                forall|j: int, x: int|
                    0 <= j < rows.len() && 0 <= x < self.spec_width() ==> shows_tile(
                        self.tile(Coordinates { x: x as u16, y: j as u16 }),
                        #[trigger] rows[j][x],
                    ),
                buffer@ == opening + rows_text(rows),
        {
            buffer.append("|");
            let ghost mut cur: Seq<Seq<char>> = Seq::empty();
            proof {
                assert(buffer@ =~= opening + rows_text(rows) + "|"@ + concat_all(cur));
            }
            for x in 0..self.width
                invariant
                    self.wf(),
                    y < self.height,
                    cur.len() == x,
                    forall|i: int| 0 <= i < cur.len() ==> shows_tile(
                        self.tile(Coordinates { x: i as u16, y: y }),
                        #[trigger] cur[i],
                    ),
                    buffer@ == opening + rows_text(rows) + "|"@ + concat_all(cur),
            {
                let t = self.map.get(x as usize, y as usize);
                let shown = t.console_output();
                let ghost before = buffer@;
                buffer.append(shown.as_str());
                proof {
                    let next = cur.push(shown@);
                    assert(next.drop_last() =~= cur);
                    assert(buffer@ =~= opening + rows_text(rows) + "|"@ + concat_all(next));
                    assert forall|i: int| 0 <= i < next.len() implies shows_tile(
                        self.tile(Coordinates { x: i as u16, y: y }),
                        #[trigger] next[i],
                    ) by {
                        if i < cur.len() {
                            assert(next[i] == cur[i]);
                        }
                    }
                    cur = next;
                }
            }
            buffer.append("|\n");
            proof {
                let next = rows.push(cur);
                assert(next.drop_last() =~= rows);
                assert(buffer@ =~= opening + rows_text(next));
                assert forall|j: int| 0 <= j < next.len() implies #[trigger] next[j].len() == self.spec_width() by {
                    if j < rows.len() {
                        assert(next[j] == rows[j]);
                    }
                }
                assert forall|j: int, x: int|
                    0 <= j < next.len() && 0 <= x < self.spec_width() implies shows_tile(
                        self.tile(Coordinates { x: x as u16, y: j as u16 }),
                        #[trigger] next[j][x],
                    ) by {
                    if j < rows.len() {
                        assert(next[j] == rows[j]);
                    } else {
                        assert(next[j] == cur);
                    }
                }
                rows = next;
            }
        }
        buffer.append(line.as_str());
        proof {
            assert(buffer@ =~= self.header_of() + line@ + "\n"@ + rows_text(rows) + line@);
        }
        buffer
    }

    proof fn lemma_mines_among_none(self, s: Seq<Coordinates>)
        requires
            forall|c: Coordinates| !#[trigger] self.is_mine(c),
        ensures
            self.mines_among(s) == 0,
        decreases s.len(),
    {
        if s.len() > 0 {
            self.lemma_mines_among_none(s.drop_last());
        }
    }

    proof fn lemma_mines_among_zero(self, s: Seq<Coordinates>, q: Coordinates)
        requires
            self.mines_among(s) == 0,
            s.contains(q),
        ensures
            !self.is_mine(q),
        decreases s.len(),
    {
        if s.last() != q {
            let i = choose|i: int| 0 <= i < s.len() && s[i] == q;
            assert(s.drop_last()[i] == q);
            self.lemma_mines_among_zero(s.drop_last(), q);
        }
    }

    /// On a generated grid no neighbour of an empty cell holds a bomb.
    pub proof fn lemma_empty_has_no_mine_neighbour(self, p: Coordinates, q: Coordinates)
        requires
            self.is_generated(),
            self.in_bounds(p),
            self.tile(p) is Empty,
            adjacent(p, q),
        ensures
            !self.is_mine(q),
    {
        assert(self.tile(p) == self.label(p));
        lemma_square_seq(p);
        assert(square_seq(p).contains(q));
        self.lemma_mines_among_zero(square_seq(p), q);
    }
}

} // verus!
