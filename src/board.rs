use vstd::prelude::*;

use crate::bounds::{contains_doubled, Bounds, Point};
use crate::coordinates::{adjacent, lemma_push_contains, lemma_square_seq, square_seq, Coordinates};
use crate::error::BoardError;
use crate::grid_index::{cell_of_index, index_of_cell, lemma_cell_to_index, lemma_index_to_cell};
use crate::tile::Tile;
use crate::tile_map::TileMap;

verus! {

/// Number of `Some` entries in a sequence.
pub open spec fn count_some<H>(s: Seq<Option<H>>) -> nat
    decreases s.len(),
{
    if s.len() == 0 {
        0
    } else {
        count_some(s.drop_last()) + if s.last() is Some {
            1nat
        } else {
            0nat
        }
    }
}

proof fn lemma_count_some_clear<H>(s: Seq<Option<H>>, i: int)
    requires
        0 <= i < s.len(),
        s[i] is Some,
    ensures
        count_some(s.update(i, None)) + 1 == count_some(s),
    decreases s.len(),
{
    let u = s.update(i, None);
    if i < s.len() - 1 {
        assert(u.drop_last() =~= s.drop_last().update(i, None));
        lemma_count_some_clear(s.drop_last(), i);
    } else {
        assert(u.drop_last() =~= s.drop_last());
    }
}

proof fn lemma_count_some_all<H>(s: Seq<Option<H>>)
    requires
        forall|i: int| 0 <= i < s.len() ==> #[trigger] s[i] is Some,
    ensures
        count_some(s) == s.len(),
    decreases s.len(),
{
    if s.len() > 0 {
        lemma_count_some_all(s.drop_last());
    }
}

proof fn lemma_count_some_bound<H>(s: Seq<Option<H>>)
    ensures
        count_some(s) <= s.len(),
    decreases s.len(),
{
    if s.len() > 0 {
        lemma_count_some_bound(s.drop_last());
    }
}

/// Removing one entry of a sequence without repeats removes exactly that member.
proof fn lemma_remove_distinct(s: Seq<Coordinates>, i: int)
    requires
        0 <= i < s.len(),
        s.no_duplicates(),
    ensures
        s.remove(i).no_duplicates(),
        s.remove(i).to_set() == s.to_set().remove(s[i]),
{
    let t = s.remove(i);
    assert forall|a: int, b: int| 0 <= a < b < t.len() implies t[a] != t[b] by {
        let sa = if a < i { a } else { a + 1 };
        let sb = if b < i { b } else { b + 1 };
        assert(t[a] == s[sa] && t[b] == s[sb]);
    }
    assert forall|q: Coordinates| #[trigger] t.to_set().contains(q) <==> s.to_set().remove(s[i]).contains(q) by {
        if t.contains(q) {
            let a = choose|a: int| 0 <= a < t.len() && #[trigger] t[a] == q;
            let sa = if a < i { a } else { a + 1 };
            assert(s[sa] == q);
        }
        if s.contains(q) && q != s[i] {
            let a = choose|a: int| 0 <= a < s.len() && #[trigger] s[a] == q;
            if a < i {
                assert(t[a] == q);
            } else {
                assert(t[a - 1] == q);
            }
        }
    }
    assert(t.to_set() =~= s.to_set().remove(s[i]));
}

/// Where the game stands.
#[derive(Debug, Copy, Clone, PartialEq, Eq, Structural)]
pub enum GameStatus {
    Ongoing,
    /// Every cell without a bomb is uncovered.
    Won,
    /// A bomb was uncovered.
    Lost,
}

/// What one reveal did.
#[derive(Debug, PartialEq, Eq)]
pub enum RevealOutcome {
    /// The cell was already uncovered, or lies off the grid.
    NoOp,
    /// The cell is flagged; nothing changed.
    Blocked,
    /// The cell held a bomb; it is now uncovered and the game is lost.
    Detonated(Coordinates),
    /// These cells, and no others, were uncovered.
    Uncovered(Vec<Coordinates>),
}

/// A game in progress: the generated grid, which cells are still covered (with the
/// host's handle for each cover), which are flagged, and where the board lies in the world.
pub struct Board<H> {
    entity: H,
    tile_map: TileMap,
    covered_tiles: Vec<Option<H>>,
    covered_count: usize,
    bounds: Bounds,
    tile_size: u32,
    marked_tiles: Vec<Coordinates>,
    safe_start: Option<Coordinates>,
    exploded: Option<Coordinates>,
}

impl<H: Copy> Board<H> {
    pub closed spec fn grid(self) -> TileMap {
        self.tile_map
    }

    /// The host's handle for the board as a whole.
    pub closed spec fn spec_entity(self) -> H {
        self.entity
    }

    /// The rectangle the board covers in the world.
    pub closed spec fn spec_bounds(self) -> Bounds {
        self.bounds
    }

    /// The edge length of a tile in world units.
    pub closed spec fn spec_tile_size(self) -> u32 {
        self.tile_size
    }

    /// The covered cells, each with the handle of its cover.
    pub closed spec fn covers(self) -> Map<Coordinates, H> {
        Map::new(
            |c: Coordinates|
                self.tile_map.in_bounds(c) && self.covered_tiles@[index_of_cell(
                    self.tile_map.spec_width(),
                    c,
                )] is Some,
            |c: Coordinates|
                self.covered_tiles@[index_of_cell(self.tile_map.spec_width(), c)]->Some_0,
        )
    }

    /// Number of covered cells.
    pub closed spec fn covered_len(self) -> nat {
        count_some(self.covered_tiles@)
    }

    /// The flagged cells.
    pub closed spec fn flagged(self) -> Set<Coordinates> {
        self.marked_tiles@.to_set()
    }

    /// The cell kept aside as a guaranteed-safe first reveal.
    pub closed spec fn spec_safe_start(self) -> Option<Coordinates> {
        self.safe_start
    }

    /// The bomb that went off, if any.
    pub closed spec fn spec_exploded(self) -> Option<Coordinates> {
        self.exploded
    }

    pub closed spec fn wf(self) -> bool {
        &&& self.tile_map.wf()
        &&& self.tile_map.is_generated()
        &&& self.covered_tiles@.len() == self.tile_map.cell_count()
        &&& self.covered_count == count_some(self.covered_tiles@)
        &&& self.marked_tiles@.no_duplicates()
        &&& forall|i: int|
            0 <= i < self.marked_tiles@.len() ==> self.covers().dom().contains(
                #[trigger] self.marked_tiles@[i],
            )
    }

    /// `self` has the grid, board handle, rectangle and tile size of `other`.
    pub open spec fn keeps_layout(self, other: Self) -> bool {
        &&& self.grid() == other.grid()
        &&& self.spec_entity() == other.spec_entity()
        &&& self.spec_bounds() == other.spec_bounds()
        &&& self.spec_tile_size() == other.spec_tile_size()
    }

    /// The cell is covered and not flagged: a reveal may uncover it.
    pub open spec fn revealable(self, q: Coordinates) -> bool {
        self.covers().dom().contains(q) && !self.flagged().contains(q)
    }

    pub open spec fn spec_status(self) -> GameStatus {
        if self.spec_exploded() is Some {
            GameStatus::Lost
        } else if self.covered_len() == self.grid().spec_bomb_count() {
            GameStatus::Won
        } else {
            GameStatus::Ongoing
        }
    }

    /// `c` is the first empty cell of `m` in row-by-row scan order.
    pub open spec fn is_first_empty(m: TileMap, c: Coordinates) -> bool {
        &&& m.in_bounds(c)
        &&& m.tile(c) is Empty
        &&& forall|j: int|
            0 <= j < index_of_cell(m.spec_width(), c) ==> !(#[trigger] m.tile(
                cell_of_index(m.spec_width(), j),
            ) is Empty)
    }

    proof fn lemma_wf_shape(self)
        requires
            self.wf(),
        ensures
            1 <= self.grid().spec_width() <= u16::MAX,
            1 <= self.grid().spec_height() <= u16::MAX,
            self.covered_len() <= self.grid().cell_count(),
    {
        self.tile_map.lemma_shape();
        lemma_count_some_bound(self.covered_tiles@);
    }

    fn cell_index(&self, c: Coordinates) -> (r: usize)
        requires
            self.wf(),
            self.grid().in_bounds(c),
        ensures
            r == index_of_cell(self.grid().spec_width(), c),
            r < self.covered_tiles@.len(),
    {
        proof {
            self.tile_map.lemma_shape();
            lemma_cell_to_index(self.tile_map.spec_width(), self.tile_map.spec_height(), c);
        }
        let w = self.tile_map.width();
        proof {
            let h = self.tile_map.spec_height();
            assert(c.y * w + c.x <= 0xFFFF_FFFF) by (nonlinear_arith)
                requires
                    c.y < h <= 0xFFFF,
                    c.x < w <= 0xFFFF,
            ;
        }
        c.y as usize * w + c.x as usize
    }

    /// The handle of the cover over `c`, or `None` when `c` is not covered.
    fn covered_handle(&self, c: Coordinates) -> (r: Option<H>)
        requires
            self.wf(),
        ensures
            r == if self.covers().dom().contains(c) {
                Some(self.covers()[c])
            } else {
                None::<H>
            },
    {
        if c.x as usize >= self.tile_map.width() || c.y as usize >= self.tile_map.height() {
            return None;
        }
        let i = self.cell_index(c);
        self.covered_tiles[i]
    }

    /// Starts a game on a generated grid; `covers` holds the handle of each cell's cover,
    /// in row-by-row scan order. Every cell starts covered and unflagged, and the first
    /// empty cell is kept aside as a safe start.
    pub fn new(entity: H, tile_map: TileMap, covers: Vec<H>, bounds: Bounds, tile_size: u32) -> (r: Self)
        requires
            tile_map.wf(),
            tile_map.is_generated(),
            covers@.len() == tile_map.cell_count(),
        ensures
            r.wf(),
            r.grid() == tile_map,
            r.spec_entity() == entity,
            r.spec_bounds() == bounds,
            r.spec_tile_size() == tile_size,
            forall|c: Coordinates| #[trigger] r.covers().dom().contains(c) <==> tile_map.in_bounds(c),
            forall|c: Coordinates|
                tile_map.in_bounds(c) ==> #[trigger] r.covers()[c] == covers@[index_of_cell(
                    tile_map.spec_width(),
                    c,
                )],
            r.covered_len() == tile_map.cell_count(),
            r.flagged() == Set::<Coordinates>::empty(),
            r.spec_exploded() is None,
            match r.spec_safe_start() {
                Some(c) => Self::is_first_empty(tile_map, c),
                None => forall|c: Coordinates| tile_map.in_bounds(c) ==> !(#[trigger] tile_map.tile(c) is Empty),
            },
    {
        let w: usize = tile_map.width();
        let ghost h = tile_map.spec_height();
        proof {
            tile_map.lemma_shape();
        }
        let mut covered_tiles: Vec<Option<H>> = Vec::new();
        let mut safe_start: Option<Coordinates> = None;
        let n = covers.len();
        for i in 0..n
            invariant
                tile_map.wf(),
                w == tile_map.spec_width(),
                h == tile_map.spec_height(),
                1 <= w <= u16::MAX,
                1 <= h <= u16::MAX,
                n == covers@.len(),
                n == tile_map.cell_count(),
                covered_tiles@.len() == i,
                forall|j: int| 0 <= j < i ==> #[trigger] covered_tiles@[j] == Some(covers@[j]),
                match safe_start {
                    Some(c) => Self::is_first_empty(tile_map, c) && index_of_cell(w as int, c) < i,
                    None => forall|j: int| 0 <= j < i ==> !(#[trigger] tile_map.tile(cell_of_index(w as int, j)) is Empty),
                },
        {
            covered_tiles.push(Some(covers[i]));
            if safe_start.is_none() {
                proof {
                    lemma_index_to_cell(w as int, h, i as int);
                }
                let c = Coordinates { x: (i % w) as u16, y: (i / w) as u16 };
                if let Some(Tile::Empty) = tile_map.tile_at(c) {
                    safe_start = Some(c);
                }
            }
        }
        proof {
            lemma_count_some_all(covered_tiles@);
            if safe_start is None {
                assert forall|c: Coordinates| tile_map.in_bounds(c) implies !(#[trigger] tile_map.tile(c) is Empty) by {
                    lemma_cell_to_index(w as int, h, c);
                    assert(!(tile_map.tile(cell_of_index(w as int, index_of_cell(w as int, c))) is Empty));
                }
            }
        }
        let r = Board {
            entity,
            tile_map,
            covered_tiles,
            covered_count: n,
            bounds,
            tile_size,
            marked_tiles: Vec::new(),
            safe_start,
            exploded: None,
        };
        proof {
            assert(r.flagged() =~= Set::<Coordinates>::empty());
            assert forall|c: Coordinates| tile_map.in_bounds(c) implies #[trigger] r.covers()[c] == covers@[index_of_cell(w as int, c)] by {
                lemma_cell_to_index(w as int, h, c);
            }
            assert forall|c: Coordinates| #[trigger] r.covers().dom().contains(c) <==> tile_map.in_bounds(c) by {
                if tile_map.in_bounds(c) {
                    lemma_cell_to_index(w as int, h, c);
                }
            }
        }
        r
    }

    /// The host's handle for the board as a whole.
    pub fn entity(&self) -> (r: H)
        ensures
            r == self.spec_entity(),
    {
        self.entity
    }

    /// The rectangle the board covers in the world.
    pub fn bounds(&self) -> (r: Bounds)
        ensures
            r == self.spec_bounds(),
    {
        self.bounds
    }

    /// The edge length of a tile in world units.
    pub fn tile_size(&self) -> (r: u32)
        ensures
            r == self.spec_tile_size(),
    {
        self.tile_size
    }

    /// The generated grid.
    pub fn tile_map(&self) -> (r: &TileMap)
        ensures
            *r == self.grid(),
    {
        &self.tile_map
    }

    /// Hands out the safe start cell once; later calls get `None`.
    pub fn consume_safe_start(&mut self) -> (r: Option<Coordinates>)
        requires
            old(self).wf(),
        ensures
            final(self).wf(),
            r == old(self).spec_safe_start(),
            final(self).spec_safe_start() is None,
            final(self).keeps_layout(*old(self)),
            final(self).covers() == old(self).covers(),
            final(self).covered_len() == old(self).covered_len(),
            final(self).flagged() == old(self).flagged(),
            final(self).spec_exploded() == old(self).spec_exploded(),
    {
        let r = self.safe_start;
        self.safe_start = None;
        r
    }

    /// All cells without a bomb are uncovered: as many cells stay covered as there are bombs.
    pub fn is_completed(&self) -> (r: bool)
        requires
            self.wf(),
        ensures
            r == (self.covered_len() == self.grid().spec_bomb_count()),
    {
        self.tile_map.bomb_count() as usize == self.covered_count
    }

    /// Lost once a bomb went off; won once every other cell is uncovered.
    pub fn status(&self) -> (r: GameStatus)
        requires
            self.wf(),
        ensures
            r == self.spec_status(),
    {
        if self.exploded.is_some() {
            GameStatus::Lost
        } else if self.is_completed() {
            GameStatus::Won
        } else {
            GameStatus::Ongoing
        }
    }

    /// Whether `c` is flagged.
    pub fn is_marked(&self, c: Coordinates) -> (r: bool)
        ensures
            r == self.flagged().contains(c),
    {
        let mut i: usize = 0;
        while i < self.marked_tiles.len()
            invariant
                i <= self.marked_tiles@.len(),
                forall|j: int| 0 <= j < i ==> #[trigger] self.marked_tiles@[j] != c,
            decreases self.marked_tiles@.len() - i,
        {
            if self.marked_tiles[i] == c {
                proof {
                    assert(self.marked_tiles@.contains(c));
                }
                return true;
            }
            i = i + 1;
        }
        false
    }

    /// Removes `coords` from the flags; `None` when it was not flagged.
    fn unmark_tile(&mut self, coords: Coordinates) -> (r: Option<Coordinates>)
        requires
            old(self).wf(),
        ensures
            final(self).wf(),
            r == if old(self).flagged().contains(coords) {
                Some(coords)
            } else {
                None::<Coordinates>
            },
            final(self).flagged() == old(self).flagged().remove(coords),
            final(self).grid() == old(self).grid(),
            final(self).covers() == old(self).covers(),
            final(self).covered_len() == old(self).covered_len(),
            final(self).spec_safe_start() == old(self).spec_safe_start(),
            final(self).spec_exploded() == old(self).spec_exploded(),
            final(self).spec_entity() == old(self).spec_entity(),
            final(self).spec_bounds() == old(self).spec_bounds(),
            final(self).spec_tile_size() == old(self).spec_tile_size(),
    {
        let mut i: usize = 0;
        while i < self.marked_tiles.len()
            invariant
                self.wf(),
                *self == *old(self),
                i <= self.marked_tiles@.len(),
                forall|j: int| 0 <= j < i ==> #[trigger] self.marked_tiles@[j] != coords,
            decreases self.marked_tiles@.len() - i,
        {
            if self.marked_tiles[i] == coords {
                let ghost before = self.marked_tiles@;
                let r = self.marked_tiles.remove(i);
                proof {
                    lemma_remove_distinct(before, i as int);
                    assert forall|j: int| 0 <= j < self.marked_tiles@.len() implies self.covers().dom().contains(#[trigger] self.marked_tiles@[j]) by {
                        if j < i {
                            assert(self.marked_tiles@[j] == before[j]);
                        } else {
                            assert(self.marked_tiles@[j] == before[j + 1]);
                        }
                    }
                }
                return Some(r);
            }
            i = i + 1;
        }
        proof {
            assert(!self.marked_tiles@.contains(coords));
            assert(self.flagged() =~= self.flagged().remove(coords));
        }
        None
    }

    /// Flips the flag on a covered cell and returns its cover's handle with the new flag
    /// state. `None`, and no change, once the game is over or when `coords` is not covered.
    pub fn try_toggle_mark(&mut self, coords: Coordinates) -> (r: Option<(H, bool)>)
        requires
            old(self).wf(),
        ensures
            final(self).wf(),
            old(self).spec_status() != GameStatus::Ongoing || !old(self).covers().dom().contains(coords) ==> r is None && *final(self) == *old(self),
            old(self).spec_status() == GameStatus::Ongoing && old(self).covers().dom().contains(coords) ==> {
                &&& r == Some((old(self).covers()[coords], !old(self).flagged().contains(coords)))
                &&& final(self).flagged() == if old(self).flagged().contains(coords) {
                    old(self).flagged().remove(coords)
                } else {
                    old(self).flagged().insert(coords)
                }
                &&& final(self).keeps_layout(*old(self))
                &&& final(self).covers() == old(self).covers()
                &&& final(self).covered_len() == old(self).covered_len()
                &&& final(self).spec_safe_start() == old(self).spec_safe_start()
                &&& final(self).spec_exploded() == old(self).spec_exploded()
            },
    {
        match self.status() {
            GameStatus::Ongoing => {},
            _ => return None,
        }
        let entity = match self.covered_handle(coords) {
            Some(e) => e,
            None => return None,
        };
        let mark = if self.is_marked(coords) {
            let _ = self.unmark_tile(coords);
            false
        } else {
            let ghost before = self.marked_tiles@;
            self.marked_tiles.push(coords);
            proof {
                assert forall|i: int, j: int| 0 <= i < j < self.marked_tiles@.len() implies self.marked_tiles@[i] != self.marked_tiles@[j] by {
                    if j == before.len() {
                        assert(before.contains(before[i]));
                    }
                }
                assert forall|j: int| 0 <= j < self.marked_tiles@.len() implies self.covers().dom().contains(#[trigger] self.marked_tiles@[j]) by {
                    if j < before.len() {
                        assert(self.marked_tiles@[j] == before[j]);
                    }
                }
                assert forall|q: Coordinates| #[trigger] self.flagged().contains(q) <==> before.to_set().insert(coords).contains(q) by {
                    lemma_push_contains(before, coords, q);
                }
                assert(self.flagged() =~= before.to_set().insert(coords));
            }
            true
        };
        Some((entity, mark))
    }

    /// The handle of the cover over `coords` when a reveal may take it: covered and not flagged.
    pub fn tile_to_uncover(&self, coords: Coordinates) -> (r: Option<H>)
        requires
            self.wf(),
        ensures
            r == if self.revealable(coords) {
                Some(self.covers()[coords])
            } else {
                None::<H>
            },
    {
        if self.is_marked(coords) {
            None
        } else {
            self.covered_handle(coords)
        }
    }

    /// Takes the cover off one covered, unflagged cell and returns its handle; a bomb
    /// there loses the game. `None`, and no change, once the game is over, on a flagged
    /// cell, or on a cell that is not covered.
    pub fn try_uncover_tile(&mut self, coords: Coordinates) -> (r: Option<H>)
        requires
            old(self).wf(),
        ensures
            final(self).wf(),
            old(self).spec_status() != GameStatus::Ongoing || !old(self).revealable(coords) ==> r is None && *final(self) == *old(self),
            old(self).spec_status() == GameStatus::Ongoing && old(self).revealable(coords) ==> {
                &&& r == Some(old(self).covers()[coords])
                &&& final(self).covers() == old(self).covers().remove(coords)
                &&& final(self).covered_len() + 1 == old(self).covered_len()
                &&& final(self).flagged() == old(self).flagged()
                &&& final(self).keeps_layout(*old(self))
                &&& final(self).spec_safe_start() == old(self).spec_safe_start()
                &&& final(self).spec_exploded() == if old(self).grid().is_mine(coords) {
                    Some(coords)
                } else {
                    None::<Coordinates>
                }
            },
    {
        match self.status() {
            GameStatus::Ongoing => {},
            _ => return None,
        }
        if self.is_marked(coords) {
            return None;
        }
        let r = self.covered_handle(coords);
        if r.is_some() {
            self.uncover(coords);
            if self.tile_map.is_bomb_at(coords) {
                self.exploded = Some(coords);
            }
        }
        r
    }

    /// Takes the cover off a covered, unflagged cell.
    fn uncover(&mut self, c: Coordinates)
        requires
            old(self).wf(),
            old(self).covers().dom().contains(c),
            !old(self).flagged().contains(c),
        ensures
            final(self).wf(),
            final(self).covers() == old(self).covers().remove(c),
            final(self).covered_len() + 1 == old(self).covered_len(),
            final(self).flagged() == old(self).flagged(),
            final(self).grid() == old(self).grid(),
            final(self).spec_safe_start() == old(self).spec_safe_start(),
            final(self).spec_exploded() == old(self).spec_exploded(),
            final(self).spec_entity() == old(self).spec_entity(),
            final(self).spec_bounds() == old(self).spec_bounds(),
            final(self).spec_tile_size() == old(self).spec_tile_size(),
    {
        let i = self.cell_index(c);
        let ghost before = *self;
        self.covered_tiles.set(i, None);
        proof {
            lemma_count_some_clear(before.covered_tiles@, i as int);
            let w = self.tile_map.spec_width();
            let h = self.tile_map.spec_height();
            self.tile_map.lemma_shape();
            assert forall|q: Coordinates| #[trigger] self.covers().dom().contains(q) <==> before.covers().remove(c).dom().contains(q) by {
                if self.tile_map.in_bounds(q) {
                    lemma_cell_to_index(w, h, q);
                    lemma_cell_to_index(w, h, c);
                    if q != c {
                        assert(index_of_cell(w, q) != index_of_cell(w, c));
                    }
                }
            }
            assert forall|q: Coordinates| #[trigger] self.covers().dom().contains(q) implies self.covers()[q] == before.covers()[q] by {
                lemma_cell_to_index(w, h, q);
                lemma_cell_to_index(w, h, c);
            }
            assert(self.covers() =~= before.covers().remove(c));
            assert forall|j: int| 0 <= j < self.marked_tiles@.len() implies self.covers().dom().contains(#[trigger] self.marked_tiles@[j]) by {
                assert(before.covers().dom().contains(self.marked_tiles@[j]));
                if self.marked_tiles@[j] == c {
                    assert(before.flagged().contains(c));
                }
            }
        }
        self.covered_count = self.covered_count - 1;
    }

    /// The handles of the covered cells among the neighbours of `coord`, in the fixed offset order.
    pub fn adjacent_covered_tiles(&self, coord: Coordinates) -> (r: Vec<H>)
        requires
            self.wf(),
        ensures
            r@ == self.handles_of(square_seq(coord)),
    {
        let square = TileMap::safe_square_at(coord);
        let mut r: Vec<H> = Vec::new();
        for k in 0..square.len()
            invariant
                self.wf(),
                r@ == self.handles_of(square@.take(k as int)),
        {
            proof {
                assert(square@.take(k + 1).drop_last() =~= square@.take(k as int));
            }
            match self.covered_handle(square[k]) {
                Some(e) => r.push(e),
                None => {},
            }
        }
        proof {
            assert(square@.take(square@.len() as int) =~= square@);
        }
        r
    }

    /// The cover handles of the covered cells listed in `s`, in the same order.
    pub open spec fn handles_of(self, s: Seq<Coordinates>) -> Seq<H>
        decreases s.len(),
    {
        if s.len() == 0 {
            Seq::empty()
        } else if self.covers().dom().contains(s.last()) {
            self.handles_of(s.drop_last()).push(self.covers()[s.last()])
        } else {
            self.handles_of(s.drop_last())
        }
    }

    /// Every revealable neighbour of an empty cell of `s` is in `s` too.
    pub open spec fn fill_closed(self, s: Set<Coordinates>) -> bool {
        forall|p: Coordinates, q: Coordinates|
            #[trigger] s.contains(p) && #[trigger] adjacent(p, q) && self.grid().tile(p) is Empty
                && self.revealable(q) ==> s.contains(q)
    }

    /// `r` lists, each once, what a flood fill from `start` uncovers: the least set that
    /// holds `start` and every revealable neighbour of each empty cell in it.
    pub open spec fn is_flood_fill(self, start: Coordinates, r: Seq<Coordinates>) -> bool {
        &&& r.no_duplicates()
        &&& r.contains(start)
        &&& forall|i: int| 0 <= i < r.len() ==> self.revealable(#[trigger] r[i])
        &&& self.fill_closed(r.to_set())
        &&& forall|s: Set<Coordinates>|
            #[trigger] self.fill_closed(s) && s.contains(start) ==> r.to_set().subset_of(s)
    }

    /// Uncovers `start` and, breadth first, every revealable neighbour of each empty
    /// cell uncovered on the way; returns the uncovered cells.
    fn flood_fill(&mut self, start: Coordinates) -> (r: Vec<Coordinates>)
        requires
            old(self).wf(),
            old(self).revealable(start),
            !old(self).grid().is_mine(start),
        ensures
            final(self).wf(),
            old(self).is_flood_fill(start, r@),
            forall|i: int| 0 <= i < r@.len() ==> !old(self).grid().is_mine(#[trigger] r@[i]),
            final(self).covers() == old(self).covers().remove_keys(r@.to_set()),
            final(self).covered_len() + r@.len() == old(self).covered_len(),
            final(self).grid() == old(self).grid(),
            final(self).flagged() == old(self).flagged(),
            final(self).spec_safe_start() == old(self).spec_safe_start(),
            final(self).spec_exploded() == old(self).spec_exploded(),
            final(self).spec_entity() == old(self).spec_entity(),
            final(self).spec_bounds() == old(self).spec_bounds(),
            final(self).spec_tile_size() == old(self).spec_tile_size(),
    {
        let ghost pre = *self;
        self.uncover(start);
        let mut queue: Vec<Coordinates> = Vec::new();
        queue.push(start);
        proof {
            assert forall|x: Coordinates| #[trigger] queue@.to_set().contains(x) <==> set![start].contains(x) by {
                lemma_push_contains(Seq::<Coordinates>::empty(), start, x);
                assert(queue@ == Seq::<Coordinates>::empty().push(start));
            }
            assert(queue@.to_set() =~= set![start]);
            assert(self.covers() =~= pre.covers().remove_keys(queue@.to_set()));
            lemma_count_some_bound(pre.covered_tiles@);
        }
        let mut head: usize = 0;
        while head < queue.len()
            invariant
                self.wf(),
                pre.wf(),
                self.grid() == pre.grid(),
                self.flagged() == pre.flagged(),
                self.spec_safe_start() == pre.spec_safe_start(),
                self.spec_exploded() == pre.spec_exploded(),
                self.spec_entity() == pre.spec_entity(),
                self.spec_bounds() == pre.spec_bounds(),
                self.spec_tile_size() == pre.spec_tile_size(),
                queue@.len() >= 1,
                queue@[0] == start,
                head <= queue@.len(),
                queue@.no_duplicates(),
                forall|i: int| 0 <= i < queue@.len() ==> pre.revealable(#[trigger] queue@[i]),
                forall|i: int| 0 <= i < queue@.len() ==> !pre.grid().is_mine(#[trigger] queue@[i]),
                self.covers() == pre.covers().remove_keys(queue@.to_set()),
                self.covered_len() + queue@.len() == pre.covered_len(),
                forall|i: int, q: Coordinates|
                    0 <= i < head && pre.grid().tile(#[trigger] queue@[i]) is Empty && #[trigger] adjacent(queue@[i], q)
                        && pre.revealable(q) ==> queue@.contains(q),
                forall|s: Set<Coordinates>|
                    #[trigger] pre.fill_closed(s) && s.contains(start) ==> forall|i: int|
                        0 <= i < queue@.len() ==> s.contains(#[trigger] queue@[i]),
            decreases pre.covered_len() - head,
        {
            let p = queue[head];
            if let Some(Tile::Empty) = self.tile_map.tile_at(p) {
                let nbrs = self.tile_map.in_bounds_neighbors(p);
                for k in 0..nbrs.len()
                    invariant
                        self.wf(),
                        pre.wf(),
                        self.grid() == pre.grid(),
                        self.flagged() == pre.flagged(),
                        self.spec_safe_start() == pre.spec_safe_start(),
                        self.spec_exploded() == pre.spec_exploded(),
                        self.spec_entity() == pre.spec_entity(),
                        self.spec_bounds() == pre.spec_bounds(),
                        self.spec_tile_size() == pre.spec_tile_size(),
                        p == queue@[head as int],
                        pre.grid().tile(p) is Empty,
                        pre.grid().in_bounds(p),
                        nbrs@.no_duplicates(),
                        forall|q: Coordinates| #[trigger] nbrs@.contains(q) <==> (adjacent(p, q) && pre.grid().in_bounds(q)),
                        queue@.len() >= 1,
                        queue@[0] == start,
                        head < queue@.len(),
                        queue@.no_duplicates(),
                        forall|i: int| 0 <= i < queue@.len() ==> pre.revealable(#[trigger] queue@[i]),
                        forall|i: int| 0 <= i < queue@.len() ==> !pre.grid().is_mine(#[trigger] queue@[i]),
                forall|i: int| 0 <= i < queue@.len() ==> !pre.grid().is_mine(#[trigger] queue@[i]),
                        self.covers() == pre.covers().remove_keys(queue@.to_set()),
                        self.covered_len() + queue@.len() == pre.covered_len(),
                        forall|i: int, q: Coordinates|
                            0 <= i < head && pre.grid().tile(#[trigger] queue@[i]) is Empty && #[trigger] adjacent(queue@[i], q)
                                && pre.revealable(q) ==> queue@.contains(q),
                        forall|j: int| 0 <= j < k ==> pre.revealable(#[trigger] nbrs@[j]) ==> queue@.contains(nbrs@[j]),
                        forall|s: Set<Coordinates>|
                            #[trigger] pre.fill_closed(s) && s.contains(start) ==> forall|i: int|
                                0 <= i < queue@.len() ==> s.contains(#[trigger] queue@[i]),
                {
                    let q = nbrs[k];
                    proof {
                        assert(nbrs@.contains(q));
                    }
                    if self.covered_handle(q).is_some() && !self.is_marked(q) {
                        let ghost q0 = queue@;
                        proof {
                            assert(!q0.contains(q)) by {
                                if q0.contains(q) {
                                    assert(q0.to_set().contains(q));
                                }
                            }
                        }
                        self.uncover(q);
                        queue.push(q);
                        proof {
                            assert(pre.revealable(q));
                            pre.grid().lemma_empty_has_no_mine_neighbour(p, q);
                            assert forall|i: int| 0 <= i < queue@.len() implies !pre.grid().is_mine(#[trigger] queue@[i]) by {
                                if i < q0.len() {
                                    assert(q0[i] == queue@[i]);
                                }
                            }
                            assert forall|x: Coordinates| #[trigger] queue@.to_set().contains(x) <==> q0.to_set().insert(q).contains(x) by {
                                lemma_push_contains(q0, q, x);
                            }
                            assert(queue@.to_set() =~= q0.to_set().insert(q));
                            assert(self.covers() =~= pre.covers().remove_keys(queue@.to_set()));
                            assert forall|a: int, b: int| 0 <= a < b < queue@.len() implies queue@[a] != queue@[b] by {
                                if b == q0.len() {
                                    assert(q0.contains(q0[a]));
                                }
                            }
                            assert forall|i: int, x: Coordinates|
                                0 <= i < head && pre.grid().tile(#[trigger] queue@[i]) is Empty && #[trigger] adjacent(queue@[i], x)
                                    && pre.revealable(x) implies queue@.contains(x) by {
                                assert(q0[i] == queue@[i]);
                                assert(q0.contains(x));
                                lemma_push_contains(q0, q, x);
                            }
                            assert forall|j: int| 0 <= j < k + 1 && pre.revealable(#[trigger] nbrs@[j]) implies queue@.contains(nbrs@[j]) by {
                                lemma_push_contains(q0, q, nbrs@[j]);
                            }
                            assert forall|s: Set<Coordinates>|
                                #[trigger] pre.fill_closed(s) && s.contains(start) implies forall|i: int|
                                    0 <= i < queue@.len() ==> s.contains(#[trigger] queue@[i]) by {
                                assert(s.contains(q0[head as int]));
                                assert(s.contains(p) && adjacent(p, q));
                                assert(s.contains(q));
                                assert forall|i: int| 0 <= i < queue@.len() implies s.contains(#[trigger] queue@[i]) by {
                                    if i < q0.len() {
                                        assert(q0[i] == queue@[i]);
                                    }
                                }
                            }
                        }
                    } else {
                        proof {
                            if pre.revealable(q) {
                                assert(!self.covers().dom().contains(q));
                                assert(queue@.to_set().contains(q));
                            }
                        }
                    }
                }
                proof {
                    assert forall|i: int, x: Coordinates|
                        0 <= i < head + 1 && pre.grid().tile(#[trigger] queue@[i]) is Empty && #[trigger] adjacent(queue@[i], x)
                            && pre.revealable(x) implies queue@.contains(x) by {
                        if i == head {
                            assert(pre.grid().in_bounds(x));
                            assert(nbrs@.contains(x));
                            let j = choose|j: int| 0 <= j < nbrs@.len() && nbrs@[j] == x;
                            assert(pre.revealable(nbrs@[j]));
                        }
                    }
                }
            } else {
                proof {
                    assert forall|i: int, x: Coordinates|
                        0 <= i < head + 1 && pre.grid().tile(#[trigger] queue@[i]) is Empty && #[trigger] adjacent(queue@[i], x)
                            && pre.revealable(x) implies queue@.contains(x) by {
                        if i == head {
                            assert(pre.grid().in_bounds(p));
                        }
                    }
                }
            }
            head = head + 1;
        }
        proof {
            assert forall|a: Coordinates, b: Coordinates|
                #[trigger] queue@.to_set().contains(a) && #[trigger] adjacent(a, b) && pre.grid().tile(a) is Empty
                    && pre.revealable(b) implies queue@.to_set().contains(b) by {
                let i = choose|i: int| 0 <= i < queue@.len() && queue@[i] == a;
                assert(queue@.contains(b));
            }
            assert(queue@.contains(start)) by {
                assert(queue@[0] == start);
            }
            assert forall|s: Set<Coordinates>| #[trigger] pre.fill_closed(s) && s.contains(start) implies queue@.to_set().subset_of(s) by {
                assert forall|x: Coordinates| queue@.to_set().contains(x) implies s.contains(x) by {
                    let i = choose|i: int| 0 <= i < queue@.len() && queue@[i] == x;
                }
            }
        }
        queue
    }

    /// Reveals `coords`. Refused once the game is over; blocked on a flag; nothing
    /// happens on an uncovered or off-grid cell; a bomb goes off and loses the game;
    /// otherwise a flood fill uncovers the cell and the region it opens.
    pub fn reveal_at(&mut self, coords: Coordinates) -> (r: Result<RevealOutcome, BoardError>)
        requires
            old(self).wf(),
        ensures
            final(self).wf(),
            final(self).keeps_layout(*old(self)),
            final(self).flagged() == old(self).flagged(),
            final(self).spec_safe_start() == old(self).spec_safe_start(),
            old(self).spec_status() != GameStatus::Ongoing ==> r == Err::<RevealOutcome, BoardError>(BoardError::GameOver) && *final(self) == *old(self),
            old(self).spec_status() == GameStatus::Ongoing ==> {
                if old(self).flagged().contains(coords) {
                    r == Ok::<RevealOutcome, BoardError>(RevealOutcome::Blocked) && *final(self) == *old(self)
                } else if !old(self).covers().dom().contains(coords) {
                    r == Ok::<RevealOutcome, BoardError>(RevealOutcome::NoOp) && *final(self) == *old(self)
                } else if old(self).grid().tile(coords) is Bomb {
                    &&& r == Ok::<RevealOutcome, BoardError>(RevealOutcome::Detonated(coords))
                    &&& final(self).covers() == old(self).covers().remove(coords)
                    &&& final(self).covered_len() + 1 == old(self).covered_len()
                    &&& final(self).spec_exploded() == Some(coords)
                } else {
                    &&& r is Ok && r->Ok_0 is Uncovered
                    &&& old(self).is_flood_fill(coords, r->Ok_0->Uncovered_0@)
                    &&& forall|i: int| 0 <= i < r->Ok_0->Uncovered_0@.len() ==> !old(self).grid().is_mine(#[trigger] r->Ok_0->Uncovered_0@[i])
                    &&& final(self).covers() == old(self).covers().remove_keys(r->Ok_0->Uncovered_0@.to_set())
                    &&& final(self).covered_len() + r->Ok_0->Uncovered_0@.len() == old(self).covered_len()
                    &&& final(self).spec_exploded() is None
                }
            },
    {
        match self.status() {
            GameStatus::Ongoing => {},
            _ => return Err(BoardError::GameOver),
        }
        if self.is_marked(coords) {
            return Ok(RevealOutcome::Blocked);
        }
        if self.covered_handle(coords).is_none() {
            return Ok(RevealOutcome::NoOp);
        }
        if self.tile_map.is_bomb_at(coords) {
            self.uncover(coords);
            self.exploded = Some(coords);
            return Ok(RevealOutcome::Detonated(coords));
        }
        let cells = self.flood_fill(coords);
        Ok(RevealOutcome::Uncovered(cells))
    }

    /// Flips the flag on a covered cell and returns whether it is now flagged. Refused
    /// once the game is over, and on a cell that is not covered.
    pub fn toggle_flag(&mut self, coords: Coordinates) -> (r: Result<bool, BoardError>)
        requires
            old(self).wf(),
        ensures
            final(self).wf(),
            final(self).keeps_layout(*old(self)),
            final(self).spec_safe_start() == old(self).spec_safe_start(),
            final(self).covers() == old(self).covers(),
            final(self).covered_len() == old(self).covered_len(),
            final(self).spec_exploded() == old(self).spec_exploded(),
            old(self).spec_status() != GameStatus::Ongoing ==> r == Err::<bool, BoardError>(BoardError::GameOver),
            old(self).spec_status() == GameStatus::Ongoing && !old(self).covers().dom().contains(coords) ==> r == Err::<bool, BoardError>(BoardError::NotCovered),
            r is Err ==> final(self).flagged() == old(self).flagged(),
            old(self).spec_status() == GameStatus::Ongoing && old(self).covers().dom().contains(coords) ==> {
                &&& r == Ok::<bool, BoardError>(!old(self).flagged().contains(coords))
                &&& final(self).flagged() == if old(self).flagged().contains(coords) {
                    old(self).flagged().remove(coords)
                } else {
                    old(self).flagged().insert(coords)
                }
            },
    {
        match self.status() {
            GameStatus::Ongoing => {},
            _ => return Err(BoardError::GameOver),
        }
        match self.try_toggle_mark(coords) {
            Some((_, marked)) => Ok(marked),
            None => Err(BoardError::NotCovered),
        }
    }

    /// The cell under a screen point: the window of `window_width` by `window_height`
    /// has its centre at the world origin; the point is given from the window's lower
    /// left corner. `None` when the point falls outside the board's rectangle or past the
    /// last row or column, or when tiles have no size.
    pub open spec fn screen_cell(self, window_width: int, window_height: int, position: Point) -> Option<Coordinates> {
        let px2 = 2 * position.x - window_width;
        let py2 = 2 * position.y - window_height;
        let b = self.spec_bounds();
        let t = self.spec_tile_size() as int;
        let cx = (px2 - 2 * b.mins.x) / (2 * t);
        let cy = (py2 - 2 * b.mins.y) / (2 * t);
        if t > 0 && contains_doubled(b, px2, py2) && cx < self.grid().spec_width() && cy < self.grid().spec_height() {
            Some(Coordinates { x: cx as u16, y: cy as u16 })
        } else {
            None
        }
    }

    /// Translates a pointer position on the window into the cell under it.
    pub fn mouse_position(&self, window_width: u32, window_height: u32, position: Point) -> (r: Option<Coordinates>)
        requires
            self.wf(),
        ensures
            r == self.screen_cell(window_width as int, window_height as int, position),
            r is Some ==> self.grid().in_bounds(r->Some_0),
    {
        let px2: i128 = 2 * position.x as i128 - window_width as i128;
        let py2: i128 = 2 * position.y as i128 - window_height as i128;
        let b = self.bounds;
        if self.tile_size == 0 {
            return None;
        }
        if !(2 * b.mins.x as i128 <= px2 && px2 <= 2 * (b.mins.x as i128 + b.size.x as i128)
            && 2 * b.mins.y as i128 <= py2 && py2 <= 2 * (b.mins.y as i128 + b.size.y as i128)) {
            return None;
        }
        let t2: i128 = 2 * self.tile_size as i128;
        let cx: i128 = (px2 - 2 * b.mins.x as i128) / t2;
        let cy: i128 = (py2 - 2 * b.mins.y as i128) / t2;
        proof {
            self.lemma_wf_shape();
            assert(cx >= 0 && cy >= 0) by (nonlinear_arith)
                requires
                    px2 - 2 * b.mins.x >= 0,
                    py2 - 2 * b.mins.y >= 0,
                    t2 > 0,
                    cx == (px2 - 2 * b.mins.x) / (t2 as int),
                    cy == (py2 - 2 * b.mins.y) / (t2 as int),
            ;
        }
        if cx < self.tile_map.width() as i128 && cy < self.tile_map.height() as i128 {
            Some(Coordinates { x: cx as u16, y: cy as u16 })
        } else {
            None
        }
    }

    /// A flood fill never uncovers a flagged cell.
    pub proof fn lemma_fill_avoids_flags(self, start: Coordinates, cells: Seq<Coordinates>)
        requires
            self.is_flood_fill(start, cells),
        ensures
            forall|q: Coordinates| #[trigger] cells.contains(q) ==> !self.flagged().contains(q),
    {
        assert forall|q: Coordinates| #[trigger] cells.contains(q) implies !self.flagged().contains(q) by {
            let i = choose|i: int| 0 <= i < cells.len() && cells[i] == q;
            assert(self.revealable(cells[i]));
        }
    }

    /// Once a flood fill has uncovered `cells`, revealing any of them again, before any
    /// other move, finds it neither flagged nor covered, so `reveal_at` does nothing
    /// and reports `NoOp` while the game goes on.
    pub proof fn lemma_fill_is_idempotent(before: Self, after: Self, start: Coordinates, cells: Seq<Coordinates>)
        requires
            before.is_flood_fill(start, cells),
            after.covers() == before.covers().remove_keys(cells.to_set()),
            after.flagged() == before.flagged(),
        ensures
            forall|q: Coordinates| #[trigger] cells.contains(q) ==> !after.flagged().contains(q) && !after.covers().dom().contains(q),
    {
        before.lemma_fill_avoids_flags(start, cells);
        assert forall|q: Coordinates| #[trigger] cells.contains(q) implies !after.flagged().contains(q) && !after.covers().dom().contains(q) by {
            assert(cells.to_set().contains(q));
        }
    }

    /// On a board laid out with one tile edge per cell, the screen point at the centre of
    /// an in-grid cell maps back to that cell.
    pub proof fn lemma_center_maps_back(self, window_width: int, window_height: int, position: Point, c: Coordinates)
        requires
            self.wf(),
            self.spec_tile_size() > 0,
            self.spec_bounds().size.x == self.grid().spec_width() * self.spec_tile_size(),
            self.spec_bounds().size.y == self.grid().spec_height() * self.spec_tile_size(),
            self.grid().in_bounds(c),
            2 * position.x - window_width == 2 * self.spec_bounds().mins.x + (2 * c.x + 1) * self.spec_tile_size(),
            2 * position.y - window_height == 2 * self.spec_bounds().mins.y + (2 * c.y + 1) * self.spec_tile_size(),
        ensures
            self.screen_cell(window_width, window_height, position) == Some(c),
    {
        let t = self.spec_tile_size() as int;
        let w = self.grid().spec_width();
        let h = self.grid().spec_height();
        let b = self.spec_bounds();
        let px2 = 2 * position.x - window_width;
        let py2 = 2 * position.y - window_height;
        assert((px2 - 2 * b.mins.x) / (2 * t) == c.x) by {
            assert(px2 - 2 * b.mins.x == c.x * (2 * t) + t) by (nonlinear_arith)
                requires
                    px2 - 2 * b.mins.x == (2 * c.x + 1) * t,
            ;
            vstd::arithmetic::div_mod::lemma_fundamental_div_mod_converse(px2 - 2 * b.mins.x, 2 * t, c.x as int, t);
        }
        assert((py2 - 2 * b.mins.y) / (2 * t) == c.y) by {
            assert(py2 - 2 * b.mins.y == c.y * (2 * t) + t) by (nonlinear_arith)
                requires
                    py2 - 2 * b.mins.y == (2 * c.y + 1) * t,
            ;
            vstd::arithmetic::div_mod::lemma_fundamental_div_mod_converse(py2 - 2 * b.mins.y, 2 * t, c.y as int, t);
        }
        assert(contains_doubled(b, px2, py2)) by {
            assert((2 * c.x + 1) * t <= 2 * (w * t)) by (nonlinear_arith)
                requires
                    c.x < w,
                    t > 0,
            ;
            assert((2 * c.y + 1) * t <= 2 * (h * t)) by (nonlinear_arith)
                requires
                    c.y < h,
                    t > 0,
            ;
            assert((2 * c.x + 1) * t >= 0) by (nonlinear_arith)
                requires
                    c.x >= 0,
                    t > 0,
            ;
            assert((2 * c.y + 1) * t >= 0) by (nonlinear_arith)
                requires
                    c.y >= 0,
                    t > 0,
            ;
        }
    }
}

} // verus!
