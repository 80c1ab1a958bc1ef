use crate::coordinates::Coordinates;
use crate::counting::{count_true, lemma_count_bounded, lemma_count_lower, lemma_count_push};
use crate::tile_map::{
    flat_index, layout_after, lemma_index_in_range, lemma_square_cells, square, Tile, TileMap,
};
use vstd::prelude::*;

verus! {

/// Where a game stands.
#[derive(Debug, Copy, Clone, PartialEq, Eq, Structural)]
pub enum GameStatus {
    InProgress,
    Won,
    Lost,
}

/// Why a request on the board was refused. Nothing changes when one is returned.
#[derive(Debug, Copy, Clone, PartialEq, Eq, Structural)]
pub enum BoardError {
    /// The coordinate lies outside the grid.
    OutOfBounds,
    /// The game is already won or lost.
    SessionTerminated,
}

/// The outcome of toggling a mark.
#[derive(Debug, Copy, Clone, PartialEq, Eq, Structural)]
pub enum MarkResult {
    /// The cell is now marked.
    Marked,
    /// The cell is no longer marked.
    Unmarked,
    /// The cell is already revealed; nothing changed.
    NotCovered,
}

/// The outcome of a reveal request.
#[derive(Debug, Clone, PartialEq, Eq)]
pub enum RevealResult {
    /// The cells revealed by this request, in the order they were revealed.
    Revealed(Vec<(Coordinates, Tile)>),
    /// The cell is marked; nothing changed.
    Blocked,
    /// The cell was revealed before; nothing changed.
    AlreadyRevealed,
}

/// The status of a game with `mine_count` mines, `covered` cells still covered and
/// whether a mine was revealed.
pub open spec fn evaluate(mine_count: nat, covered: nat, mine_hit: bool) -> GameStatus {
    if mine_hit {
        GameStatus::Lost
    } else if covered == mine_count {
        GameStatus::Won
    } else {
        GameStatus::InProgress
    }
}

/// Some cell revealed before the `k`-th entry of `list` is empty and has it as a
/// neighbour.
pub open spec fn reached_from_empty(before: Board, list: Seq<(Coordinates, Tile)>, k: int) -> bool {
    exists|j: int|
        0 <= j < k && #[trigger] list[j].1 == Tile::Empty && before.neighbours(list[j].0).contains(
            list[k].0,
        )
}

/// One game: a grid, the cells still covered, the marks, and whether a mine went off.
/// Cells are indexed row-major, as in the grid.
#[derive(Debug, Clone)]
pub struct Board {
    pub tile_map: TileMap,
    pub covered_tiles: Vec<bool>,
    pub marked_tiles: Vec<bool>,
    pub covered_count: usize,
    pub mine_hit: bool,
}

impl Board {
    pub open spec fn contains(&self, c: Coordinates) -> bool {
        self.tile_map.contains(c)
    }

    pub open spec fn index_of(&self, c: Coordinates) -> int {
        flat_index(self.tile_map.width as int, c.x as int, c.y as int)
    }

    pub open spec fn is_covered(&self, c: Coordinates) -> bool {
        self.covered_tiles@[self.index_of(c)]
    }

    pub open spec fn is_marked(&self, c: Coordinates) -> bool {
        self.marked_tiles@[self.index_of(c)]
    }

    pub open spec fn tile_of(&self, c: Coordinates) -> Tile {
        self.tile_map.tile(c.x as int, c.y as int)
    }

    pub open spec fn neighbours(&self, c: Coordinates) -> Seq<Coordinates> {
        square(self.tile_map.width as int, self.tile_map.height as int, c.x as int, c.y as int)
    }

    pub open spec fn spec_status(&self) -> GameStatus {
        evaluate(self.tile_map.bomb_count as nat, self.covered_count as nat, self.mine_hit)
    }

    pub open spec fn wf(&self) -> bool {
        &&& self.tile_map.wf()
        &&& self.covered_tiles.len() == self.tile_map.map.len()
        &&& self.marked_tiles.len() == self.tile_map.map.len()
        &&& forall|i: int|
            0 <= i < self.marked_tiles.len() ==> #[trigger] self.marked_tiles@[i]
                ==> self.covered_tiles@[i]
        &&& self.covered_count == count_true(self.covered_tiles@)
        &&& self.mine_hit == self.mine_revealed()
    }

    /// Some cell of the grid that holds a mine is revealed.
    pub open spec fn mine_revealed(self) -> bool {
        exists|c: Coordinates|
            self.contains(c) && #[trigger] self.tile_of(c) is Mine && !self.is_covered(c)
    }

    /// Revealing one more cell reveals a mine exactly when it holds one or one was
    /// revealed already.
    proof fn lemma_reveal_one(before: Board, after: Board, p: Coordinates)
        requires
            before.tile_map.wf(),
            before.covered_tiles.len() == before.tile_map.map.len(),
            before.contains(p),
            before.is_covered(p),
            after.tile_map == before.tile_map,
            after.covered_tiles@ == before.covered_tiles@.update(before.index_of(p), false),
        ensures
            after.mine_revealed() == (before.mine_revealed() || before.tile_of(p) is Mine),
    {
        let w = before.tile_map.width as int;
        lemma_index_in_range(w, before.tile_map.height as int, p.x as int, p.y as int);
        assert forall|c: Coordinates| before.contains(c) && c != p implies after.is_covered(c)
            == before.is_covered(c) by {
            lemma_index_in_range(w, before.tile_map.height as int, c.x as int, c.y as int);
            if before.index_of(c) == before.index_of(p) {
                crate::tile_map::lemma_index_unique(w, c.x as int, c.y as int, p.x as int, p.y as int);
            }
        }
        if before.mine_revealed() {
            let c = choose|c: Coordinates|
                before.contains(c) && #[trigger] before.tile_of(c) is Mine && !before.is_covered(c);
            assert(after.tile_of(c) is Mine);
        }
        if before.tile_of(p) is Mine {
            assert(after.tile_of(p) is Mine);
        }
        if after.mine_revealed() {
            let c = choose|c: Coordinates|
                after.contains(c) && #[trigger] after.tile_of(c) is Mine && !after.is_covered(c);
            if c != p {
                assert(before.tile_of(c) is Mine);
            }
        }
    }

    /// A board whose covered cells and grid are those of `other` has revealed a mine
    /// exactly when `other` has.
    proof fn lemma_same_reveals(self, other: Board)
        requires
            self.tile_map == other.tile_map,
            self.covered_tiles@ == other.covered_tiles@,
        ensures
            self.mine_revealed() == other.mine_revealed(),
    {
        if self.mine_revealed() {
            let c = choose|c: Coordinates|
                self.contains(c) && #[trigger] self.tile_of(c) is Mine && !self.is_covered(c);
            assert(other.tile_of(c) is Mine);
        }
        if other.mine_revealed() {
            let c = choose|c: Coordinates|
                other.contains(c) && #[trigger] other.tile_of(c) is Mine && !other.is_covered(c);
            assert(self.tile_of(c) is Mine);
        }
    }

    /// Every cell stands in the grid's flat storage.
    pub proof fn lemma_index(&self, c: Coordinates)
        requires
            self.wf(),
            self.contains(c),
        ensures
            0 <= self.index_of(c) < self.covered_tiles.len(),
            self.index_of(c) < 4294836225,
    {
        lemma_index_in_range(
            self.tile_map.width as int,
            self.tile_map.height as int,
            c.x as int,
            c.y as int,
        );
    }

    fn index(&self, c: Coordinates) -> (i: usize)
        requires
            self.wf(),
            self.contains(c),
        ensures
            i == self.index_of(c),
            i < self.covered_tiles.len(),
    {
        proof {
            self.lemma_index(c);
        }
        c.y as usize * self.tile_map.width as usize + c.x as usize
    }

    /// Starts a game on `tile_map`: every cell covered, none marked.
    pub fn new(tile_map: TileMap) -> (b: Board)
        requires
            tile_map.wf(),
        ensures
            b.wf(),
            b.tile_map == tile_map,
            forall|c: Coordinates| b.contains(c) ==> b.is_covered(c) && !b.is_marked(c),
            b.covered_count == tile_map.map.len(),
            !b.mine_hit,
    {
        let n = tile_map.map.len();
        let mut covered_tiles: Vec<bool> = Vec::new();
        let mut marked_tiles: Vec<bool> = Vec::new();
        while covered_tiles.len() < n
            invariant
                covered_tiles.len() <= n,
                marked_tiles.len() == covered_tiles.len(),
                forall|i: int| 0 <= i < covered_tiles.len() ==> covered_tiles@[i],
                forall|i: int| 0 <= i < marked_tiles.len() ==> !marked_tiles@[i],
                count_true(covered_tiles@) == covered_tiles.len(),
            decreases n - covered_tiles.len(),
        {
            proof {
                lemma_count_push(covered_tiles@, true);
            }
            covered_tiles.push(true);
            marked_tiles.push(false);
        }
        let b = Board { tile_map, covered_tiles, marked_tiles, covered_count: n, mine_hit: false };
        proof {
            assert forall|c: Coordinates| b.contains(c) implies b.is_covered(c) && !b.is_marked(
                c,
            ) by {
                lemma_index_in_range(
                    b.tile_map.width as int,
                    b.tile_map.height as int,
                    c.x as int,
                    c.y as int,
                );
            }
        }
        b
    }

    /// Generates a grid from `seed` and starts a game on it.
    pub fn generate(width: u16, height: u16, mine_count: usize, seed: u64) -> (r: Result<
        Board,
        crate::tile_map::GenerationError,
    >)
        ensures
            r is Err <==> mine_count >= width * height,
            r matches Ok(b) ==> {
                &&& b.wf()
                &&& b.tile_map.width == width
                &&& b.tile_map.height == height
                &&& b.tile_map.bomb_count == mine_count
                &&& b.tile_map.mines() == layout_after(
                    (width * height) as nat,
                    seed,
                    mine_count as nat,
                )
                &&& b.is_fresh()
                &&& b.covered_count == width * height
                &&& b.spec_status() == GameStatus::InProgress
            },
    {
        match TileMap::generate(width, height, mine_count, seed) {
            Ok(m) => Ok(Board::new(m)),
            Err(e) => Err(e),
        }
    }

    /// Starts a game on a grid generated from `seed`. With `safe_start`, the first
    /// `Empty` cell in row-major order, if the grid has one, is revealed at once, so the
    /// opening move is never a mine.
    pub fn create_board(
        width: u16,
        height: u16,
        mine_count: usize,
        seed: u64,
        safe_start: bool,
    ) -> (r: Result<Board, crate::tile_map::GenerationError>)
        ensures
            r is Err <==> mine_count >= width * height,
            r matches Ok(b) ==> {
                &&& b.wf()
                &&& b.tile_map.width == width
                &&& b.tile_map.height == height
                &&& b.tile_map.bomb_count == mine_count
                &&& b.tile_map.mines() == layout_after(
                    (width * height) as nat,
                    seed,
                    mine_count as nat,
                )
                &&& !b.mine_hit
                &&& forall|c: Coordinates| b.contains(c) ==> !b.is_marked(c)
                &&& if safe_start && exists|c: Coordinates| b.tile_map.is_first_empty(c) {
                    exists|c: Coordinates, b0: Board, list: Seq<(Coordinates, Tile)>|
                        b.tile_map.is_first_empty(c) && b0.is_fresh() && b0.tile_map == b.tile_map
                            && b.floods_from(b0, c, list)
                } else {
                    b.is_fresh()
                }
            },
    {
        let m = match TileMap::generate(width, height, mine_count, seed) {
            Ok(m) => m,
            Err(e) => return Err(e),
        };
        let start = m.pick_safe_start();
        let mut b = Board::new(m);
        let ghost b0 = b;
        proof {
            assert forall|c: Coordinates| b.tile_map.is_first_empty(c) implies start is Some by {
                b.lemma_index(c);
            }
        }
        if safe_start {
            if let Some(c) = start {
                let r = b.reveal_at(c);
                proof {
                    let list = r->Ok_0->Revealed_0@;
                    assert(b.floods_from(b0, c, list));
                    assert(b.reveals(b0, list[0]));
                    assert forall|d: Coordinates| b.contains(d) implies !b.is_marked(d) by {
                        assert(!b0.is_marked(d));
                        assert(b.tile_map == b0.tile_map);
                        assert(b.marked_tiles@ == b0.marked_tiles@);
                    }
                }
            }
        }
        Ok(b)
    }

    /// A game not yet played: every cell covered, none marked, no mine gone off.
    pub open spec fn is_fresh(self) -> bool {
        &&& self.wf()
        &&& forall|c: Coordinates| self.contains(c) ==> self.is_covered(c) && !self.is_marked(c)
        &&& self.covered_count == self.tile_map.map.len()
        &&& !self.mine_hit
    }

    /// Where the game stands.
    pub fn status(&self) -> (s: GameStatus)
        ensures
            s == self.spec_status(),
    {
        if self.mine_hit {
            GameStatus::Lost
        } else if self.covered_count == self.tile_map.bomb_count {
            GameStatus::Won
        } else {
            GameStatus::InProgress
        }
    }

    /// How many cells are still covered.
    pub fn remaining_covered_count(&self) -> (n: usize)
        ensures
            n == self.covered_count,
    {
        self.covered_count
    }

    /// Whether the game is won: no mine went off and exactly the mine count of cells is
    /// left covered.
    pub fn is_completed(&self) -> (r: bool)
        ensures
            r == (self.spec_status() == GameStatus::Won),
    {
        !self.mine_hit && self.tile_map.bomb_count == self.covered_count
    }

    /// Whether `c` may be revealed: it is covered and not marked.
    pub fn tile_to_uncover(&self, c: Coordinates) -> (r: bool)
        requires
            self.wf(),
        ensures
            r == (self.contains(c) && self.is_covered(c) && !self.is_marked(c)),
    {
        if c.x < self.tile_map.width && c.y < self.tile_map.height {
            let i = self.index(c);
            self.covered_tiles[i] && !self.marked_tiles[i]
        } else {
            false
        }
    }

    /// A reveal of `c` would change the board: `c` is in the grid, covered and
    /// unmarked, and the game is still in progress.
    pub open spec fn may_reveal(self, c: Coordinates) -> bool {
        &&& self.contains(c)
        &&& self.spec_status() == GameStatus::InProgress
        &&& self.is_covered(c)
        &&& !self.is_marked(c)
    }

    /// Whether a flood may go on into `d`: it is covered and unmarked.
    pub open spec fn open_cell(self) -> spec_fn(Coordinates) -> bool {
        |d: Coordinates| self.is_covered(d) && !self.is_marked(d)
    }

    /// `self` is `before` with the mark of `c` flipped and nothing else changed.
    pub open spec fn toggles_mark(self, before: Board, c: Coordinates) -> bool {
        &&& self.marked_tiles@ == before.marked_tiles@.update(
            before.index_of(c),
            !before.is_marked(c),
        )
        &&& self.tile_map == before.tile_map
        &&& self.covered_tiles == before.covered_tiles
        &&& self.covered_count == before.covered_count
        &&& self.mine_hit == before.mine_hit
    }

    /// Marks a covered cell, or removes its mark.
    pub fn try_toggle_mark(&mut self, c: Coordinates) -> (r: Result<MarkResult, BoardError>)
        requires
            old(self).wf(),
        ensures
            final(self).wf(),
            !old(self).contains(c) ==> r == Err::<MarkResult, BoardError>(BoardError::OutOfBounds),
            old(self).contains(c) && old(self).spec_status() != GameStatus::InProgress ==> r
                == Err::<MarkResult, BoardError>(BoardError::SessionTerminated),
            old(self).contains(c) && old(self).spec_status() == GameStatus::InProgress
                && !old(self).is_covered(c) ==> r == Ok::<MarkResult, BoardError>(
                MarkResult::NotCovered,
            ),
            r is Err || r == Ok::<MarkResult, BoardError>(MarkResult::NotCovered) ==> *final(self)
                == *old(self),
            old(self).contains(c) && old(self).spec_status() == GameStatus::InProgress
                && old(self).is_covered(c) ==> {
                &&& r == if old(self).is_marked(c) {
                    Ok::<MarkResult, BoardError>(MarkResult::Unmarked)
                } else {
                    Ok::<MarkResult, BoardError>(MarkResult::Marked)
                }
                &&& final(self).toggles_mark(*old(self), c)
            },
    {
        if !(c.x < self.tile_map.width && c.y < self.tile_map.height) {
            return Err(BoardError::OutOfBounds);
        }
        if self.status() != GameStatus::InProgress {
            return Err(BoardError::SessionTerminated);
        }
        let i = self.index(c);
        if !self.covered_tiles[i] {
            return Ok(MarkResult::NotCovered);
        }
        if self.marked_tiles[i] {
            self.unmark_tile(c);
            Ok(MarkResult::Unmarked)
        } else {
            let ghost before = *self;
            self.marked_tiles[i] = true;
            proof {
                self.lemma_same_reveals(before);
            }
            Ok(MarkResult::Marked)
        }
    }

    /// Removes the mark of `c`.
    fn unmark_tile(&mut self, c: Coordinates)
        requires
            old(self).wf(),
            old(self).contains(c),
        ensures
            final(self).wf(),
            final(self).marked_tiles@ == old(self).marked_tiles@.update(old(self).index_of(c), false),
            final(self).tile_map == old(self).tile_map,
            final(self).covered_tiles == old(self).covered_tiles,
            final(self).covered_count == old(self).covered_count,
            final(self).mine_hit == old(self).mine_hit,
    {
        let i = self.index(c);
        let ghost before = *self;
        self.marked_tiles[i] = false;
        proof {
            self.lemma_same_reveals(before);
        }
    }

    /// Reveals `c` alone, without flooding, and gives its tile. Nothing changes and
    /// `None` comes back when `c` lies outside the grid, the game is over, or `c` is
    /// already revealed or marked.
    pub fn try_uncover_tile(&mut self, c: Coordinates) -> (r: Option<Tile>)
        requires
            old(self).wf(),
        ensures
            final(self).wf(),
            !old(self).may_reveal(c) ==> r is None && *final(self) == *old(self),
            old(self).may_reveal(c) ==> {
                &&& r == Some(old(self).tile_of(c))
                &&& final(self).tile_map == old(self).tile_map
                &&& final(self).marked_tiles == old(self).marked_tiles
                &&& final(self).covered_tiles@ == old(self).covered_tiles@.update(
                    old(self).index_of(c),
                    false,
                )
                &&& final(self).covered_count + 1 == old(self).covered_count
                &&& final(self).mine_hit == (old(self).tile_of(c) is Mine)
            },
    {
        if !(c.x < self.tile_map.width && c.y < self.tile_map.height) {
            return None;
        }
        if self.status() != GameStatus::InProgress {
            return None;
        }
        let i = self.index(c);
        if !self.covered_tiles[i] || self.marked_tiles[i] {
            return None;
        }
        let t = self.tile_map.tile_at(c);
        let ghost before = *self;
        proof {
            lemma_count_lower(self.covered_tiles@, i as int);
        }
        self.covered_tiles[i] = false;
        self.covered_count = self.covered_count - 1;
        if t == Tile::Mine {
            self.mine_hit = true;
        }
        proof {
            Board::lemma_reveal_one(before, *self, c);
        }
        Some(t)
    }

    /// The covered, unmarked cells among the grid-clipped neighbours of `c`, in
    /// row-major order: those a flood from `c` goes on into.
    pub fn adjacent_covered_tiles(&self, c: Coordinates) -> (r: Vec<Coordinates>)
        requires
            self.wf(),
        ensures
            r@ == self.neighbours(c).filter(self.open_cell()),
            forall|k: int|
                0 <= k < r.len() ==> self.neighbours(c).contains(#[trigger] r@[k])
                    && self.is_covered(r@[k]) && !self.is_marked(r@[k]),
            forall|d: Coordinates|
                self.neighbours(c).contains(d) && self.is_covered(d) && !self.is_marked(d)
                    ==> r@.contains(d),
    {
        let sq = self.tile_map.safe_square_at(c);
        proof {
            lemma_square_cells(
                self.tile_map.mines(),
                self.tile_map.width as int,
                self.tile_map.height as int,
                c.x as int,
                c.y as int,
                8,
            );
        }
        let mut r: Vec<Coordinates> = Vec::new();
        let mut k: usize = 0;
        while k < sq.len()
            invariant
                k <= sq.len(),
                self.wf(),
                sq@ == self.neighbours(c),
                forall|j: int| 0 <= j < sq.len() ==> self.contains(#[trigger] sq@[j]),
                r@ == sq@.take(k as int).filter(self.open_cell()),
                forall|j: int|
                    0 <= j < r.len() ==> self.neighbours(c).contains(#[trigger] r@[j])
                        && self.is_covered(r@[j]) && !self.is_marked(r@[j]),
                forall|j: int|
                    0 <= j < k && self.is_covered(#[trigger] sq@[j]) && !self.is_marked(sq@[j])
                        ==> r@.contains(sq@[j]),
            decreases sq.len() - k,
        {
            let d = sq[k];
            let i = self.index(d);
            let ghost old_r = r@;
            proof {
                let t = sq@.take(k + 1);
                assert(t.drop_last() =~= sq@.take(k as int));
                assert(t.last() == d);
                reveal(Seq::filter);
            }
            if self.covered_tiles[i] && !self.marked_tiles[i] {
                r.push(d);
                proof {
                    assert(r@[r.len() - 1] == d);
                }
            }
            proof {
                assert forall|j: int|
                    0 <= j < k + 1 && self.is_covered(#[trigger] sq@[j]) && !self.is_marked(sq@[j])
                        implies r@.contains(
                    sq@[j],
                ) by {
                    if j < k {
                        let m = choose|m: int| 0 <= m < old_r.len() && old_r[m] == sq@[j];
                        assert(r@[m] == old_r[m]);
                    }
                }
            }
            k = k + 1;
        }
        proof {
            assert(sq@.take(sq.len() as int) =~= sq@);
            assert forall|d: Coordinates|
                self.neighbours(c).contains(d) && self.is_covered(d) && !self.is_marked(
                    d,
                ) implies r@.contains(d) by {
                let j = choose|j: int| 0 <= j < sq.len() && sq@[j] == d;
                assert(self.is_covered(sq@[j]));
            }
        }
        r
    }

    /// `e` is a cell that was covered and unmarked in `before`, is revealed in
    /// `self`, and carries its tile.
    pub open spec fn reveals(self, before: Board, e: (Coordinates, Tile)) -> bool {
        &&& before.contains(e.0)
        &&& before.is_covered(e.0)
        &&& !before.is_marked(e.0)
        &&& !self.is_covered(e.0)
        &&& e.1 == before.tile_of(e.0)
    }

    /// One flood-fill level, through the first `done` cells of `pending`, took `before`
    /// to `self`: those cells still covered and unmarked were revealed, in order, as the entries that `r1` adds to `r0`; the
    /// covered neighbours of the revealed empty cells make up `next`.
    pub open spec fn level_done(
        self,
        before: Board,
        pending: Seq<Coordinates>,
        done: int,
        r0: Seq<(Coordinates, Tile)>,
        r1: Seq<(Coordinates, Tile)>,
        next: Seq<Coordinates>,
    ) -> bool {
        &&& forall|c: Coordinates|
            before.contains(c) && self.is_covered(c) ==> before.is_covered(c)
        &&& r1.len() >= r0.len()
        &&& self.covered_count + r1.len() == before.covered_count + r0.len()
        &&& forall|k: int|
            0 <= k < r0.len() ==> #[trigger] r1[k] == r0[k]
        &&& forall|k: int|
            r0.len() <= k < r1.len() ==> self.reveals(
                before,
                #[trigger] r1[k],
            ) && pending.contains(r1[k].0)
        &&& forall|k1: int, k2: int|
            r0.len() <= k1 < k2 < r1.len() ==> #[trigger] r1[k1].0 != #[trigger] r1[k2].0
        &&& forall|c: Coordinates|
            before.contains(c) && before.is_covered(c) && !self.is_covered(c)
                ==> exists|k: int|
                r0.len() <= k < r1.len() && #[trigger] r1[k].0 == c
        &&& forall|j: int|
            0 <= j < done ==> !self.is_covered(#[trigger] pending[j])
                || before.is_marked(pending[j])
        &&& self.mine_hit == (before.mine_hit || exists|k: int|
            r0.len() <= k < r1.len() && #[trigger] r1[k].1 is Mine)
        &&& forall|j: int|
            0 <= j < next.len() ==> {
                &&& before.contains(#[trigger] next[j])
                &&& !(before.tile_of(next[j]) is Mine)
                &&& exists|k: int|
                    r0.len() <= k < r1.len() && #[trigger] r1[k].1 == Tile::Empty && before.neighbours(
                        r1[k].0,
                    ).contains(next[j])
            }
        &&& forall|k: int, d: Coordinates|
            r0.len() <= k < r1.len() && #[trigger] r1[k].1 == Tile::Empty && #[trigger] before.neighbours(
                r1[k].0,
            ).contains(d) ==> !self.is_covered(d) || before.is_marked(d) || next.contains(d)
        &&& next.len() > 0 ==> r1.len() > r0.len()
    }

    /// Reveals one breadth-first level of a flood fill. Each cell of `pending` that is
    /// still covered and unmarked is revealed and appended to `revealed`; the covered
    /// neighbours of those that are `Empty` form the returned next level. A cell is
    /// revealed at most once, whatever `pending` holds.
    pub fn uncover_tiles(
        &mut self,
        pending: &Vec<Coordinates>,
        revealed: &mut Vec<(Coordinates, Tile)>,
    ) -> (next: Vec<Coordinates>)
        requires
            old(self).wf(),
            forall|j: int| 0 <= j < pending.len() ==> old(self).contains(#[trigger] pending@[j]),
            forall|k: int|
                0 <= k < old(revealed).len() ==> old(self).contains(#[trigger] old(revealed)@[k].0)
                    && !old(self).is_covered(old(revealed)@[k].0),
        ensures
            final(self).wf(),
            final(self).tile_map == old(self).tile_map,
            final(self).marked_tiles@ == old(self).marked_tiles@,
            final(self).level_done(
                *old(self),
                pending@,
                pending.len() as int,
                old(revealed)@,
                final(revealed)@,
                next@,
            ),
    {
        let ghost b0 = *self;
        let ghost r0 = revealed@;
        let mut next: Vec<Coordinates> = Vec::new();
        let mut j: usize = 0;
        while j < pending.len()
            invariant
                j <= pending.len(),
                self.wf(),
                self.tile_map == b0.tile_map,
                self.marked_tiles@ == b0.marked_tiles@,
                b0.wf(),
                forall|jj: int| 0 <= jj < pending.len() ==> b0.contains(#[trigger] pending@[jj]),
                forall|k: int|
                    0 <= k < r0.len() ==> b0.contains(#[trigger] r0[k].0) && !b0.is_covered(
                        r0[k].0,
                    ),
                forall|k: int|
                    0 <= k < revealed.len() ==> b0.contains(#[trigger] revealed@[k].0)
                        && !self.is_covered(revealed@[k].0),
                self.level_done(b0, pending@, j as int, r0, revealed@, next@),
            decreases pending.len() - j,
        {
            let p = pending[j];
            let i = self.index(p);
            if self.covered_tiles[i] && !self.marked_tiles[i] {
                let ghost before = *self;
                let ghost rv = revealed@;
                let ghost nx = next@;
                let t = self.tile_map.tile_at(p);
                let ghost mut added: Seq<Coordinates> = Seq::empty();
                proof {
                    lemma_count_lower(self.covered_tiles@, i as int);
                    lemma_count_bounded(self.covered_tiles@);
                }
                self.covered_tiles[i] = false;
                self.covered_count = self.covered_count - 1;
                if t == Tile::Mine {
                    self.mine_hit = true;
                }
                proof {
                    Board::lemma_reveal_one(before, *self, p);
                }
                revealed.push((p, t));
                proof {
                    assert forall|c: Coordinates| b0.contains(c) && c != p implies self.is_covered(c)
                        == before.is_covered(c) by {
                        if self.index_of(c) == i {
                            crate::tile_map::lemma_index_unique(
                                self.tile_map.width as int,
                                c.x as int,
                                c.y as int,
                                p.x as int,
                                p.y as int,
                            );
                        }
                        b0.lemma_index(c);
                    }
                    assert(revealed@[revealed.len() - 1] == (p, t));
                    assert(pending@[j as int] == p);
                    if t is Mine {
                        assert(revealed@[revealed.len() - 1].1 is Mine);
                    } else {
                        if exists|k: int|
                            r0.len() <= k < revealed.len() && #[trigger] revealed@[k].1 is Mine {
                            let k = choose|k: int|
                                r0.len() <= k < revealed.len() && #[trigger] revealed@[k].1 is Mine;
                            assert(revealed@[k] == rv[k]);
                        }
                        if exists|k: int| r0.len() <= k < rv.len() && #[trigger] rv[k].1 is Mine {
                            let k = choose|k: int| r0.len() <= k < rv.len() && #[trigger] rv[k].1 is Mine;
                            assert(revealed@[k] == rv[k]);
                        }
                    }
                    assert forall|c: Coordinates|
                        b0.contains(c) && b0.is_covered(c) && !self.is_covered(c) implies exists|
                        k: int,
                    | r0.len() <= k < revealed.len() && #[trigger] revealed@[k].0 == c by {
                        if c == p {
                            assert(revealed@[revealed.len() - 1].0 == p);
                        } else {
                            let k = choose|k: int| r0.len() <= k < rv.len() && #[trigger] rv[k].0 == c;
                            assert(revealed@[k] == rv[k]);
                        }
                    }
                }
                if t == Tile::Empty {
                    let mut adj = self.adjacent_covered_tiles(p);
                    proof {
                        let tm = self.tile_map;
                        assert(tm.tile_is_consistent(p.x as int, p.y as int));
                        lemma_square_cells(
                            tm.mines(),
                            tm.width as int,
                            tm.height as int,
                            p.x as int,
                            p.y as int,
                            8,
                        );
                        assert forall|a: int| 0 <= a < adj.len() implies b0.contains(
                            #[trigger] adj@[a],
                        ) && !(b0.tile_of(adj@[a]) is Mine) by {
                            let sq = b0.neighbours(p);
                            let m = choose|m: int| 0 <= m < sq.len() && sq[m] == adj@[a];
                            assert(sq[m] == adj@[a]);
                            b0.lemma_index(adj@[a]);
                        }
                    }
                    let ghost nx2 = next@;
                    let ghost adj0 = adj@;
                    next.append(&mut adj);
                    proof {
                        added = adj0;
                        let k_new = revealed.len() - 1;
                        assert forall|jj: int| 0 <= jj < next.len() implies {
                            &&& b0.contains(#[trigger] next@[jj])
                            &&& !(b0.tile_of(next@[jj]) is Mine)
                            &&& exists|k: int|
                                r0.len() <= k < revealed.len() && #[trigger] revealed@[k].1
                                    == Tile::Empty && b0.neighbours(revealed@[k].0).contains(
                                    next@[jj],
                                )
                        } by {
                            if jj < nx2.len() {
                                assert(next@[jj] == nx2[jj]);
                                let k = choose|k: int|
                                    r0.len() <= k < rv.len() && #[trigger] rv[k].1 == Tile::Empty
                                        && b0.neighbours(rv[k].0).contains(nx2[jj]);
                                assert(revealed@[k] == rv[k]);
                            } else {
                                assert(next@[jj] == adj0[jj - nx2.len()]);
                                assert(revealed@[k_new].1 == Tile::Empty);
                            }
                        }
                    }
                }
                proof {
                    assert(next@ =~= nx + added);
                    assert forall|k: int, d: Coordinates|
                        r0.len() <= k < revealed.len() && #[trigger] revealed@[k].1 == Tile::Empty
                            && #[trigger] b0.neighbours(revealed@[k].0).contains(
                            d,
                        ) implies !self.is_covered(d) || b0.is_marked(d) || next@.contains(d) by {
                        let e = revealed@[k].0;
                        let sq = b0.neighbours(e);
                        lemma_square_cells(
                            b0.tile_map.mines(),
                            b0.tile_map.width as int,
                            b0.tile_map.height as int,
                            e.x as int,
                            e.y as int,
                            8,
                        );
                        let m = choose|m: int| 0 <= m < sq.len() && sq[m] == d;
                        assert(sq[m] == d);
                        assert(b0.contains(d));
                        if self.is_covered(d) && !b0.is_marked(d) {
                            if k < rv.len() {
                                assert(revealed@[k] == rv[k]);
                                assert(before.is_covered(d));
                                let m2 = choose|m2: int| 0 <= m2 < nx.len() && nx[m2] == d;
                                assert(next@[m2] == d);
                            } else {
                                let m2 = choose|m2: int| 0 <= m2 < added.len() && added[m2] == d;
                                assert(next@[nx.len() + m2] == d);
                            }
                        }
                    }
                }
            }
            j = j + 1;
        }
        next
    }

    /// `list` is what a complete flood from `c` revealed on the way from `before` to
    /// `self`: it starts with `c`, names each newly revealed cell once with its tile,
    /// holds no mine but possibly `c`, reaches every other cell through an earlier
    /// empty cell, and leaves no covered unmarked neighbour of a revealed empty cell.
    pub open spec fn floods_from(
        self,
        before: Board,
        c: Coordinates,
        list: Seq<(Coordinates, Tile)>,
    ) -> bool {
        self.flood_state(before, c, list, Seq::empty())
    }

    /// A flood from `c` is under way from `before` to `self`: `list` holds what it has
    /// revealed so far and `pending` what it has still to look at.
    pub open spec fn flood_state(
        self,
        before: Board,
        c: Coordinates,
        list: Seq<(Coordinates, Tile)>,
        pending: Seq<Coordinates>,
    ) -> bool {
        &&& self.wf()
        &&& before.wf()
        &&& self.tile_map == before.tile_map
        &&& self.marked_tiles@ == before.marked_tiles@
        &&& before.contains(c)
        &&& before.is_covered(c)
        &&& !before.is_marked(c)
        &&& !before.mine_hit
        &&& list.len() >= 1
        &&& list[0] == (c, before.tile_of(c))
        &&& forall|k: int| 0 <= k < list.len() ==> self.reveals(before, #[trigger] list[k])
        &&& forall|k1: int, k2: int|
            0 <= k1 < k2 < list.len() ==> #[trigger] list[k1].0 != #[trigger] list[k2].0
        &&& forall|d: Coordinates|
            before.contains(d) && before.is_covered(d) && !self.is_covered(d) ==> exists|k: int|
                0 <= k < list.len() && #[trigger] list[k].0 == d
        &&& forall|d: Coordinates| before.contains(d) && self.is_covered(d) ==> before.is_covered(d)
        &&& self.covered_count + list.len() == before.covered_count
        &&& self.mine_hit == (before.tile_of(c) is Mine)
        &&& forall|k: int| 1 <= k < list.len() ==> !(#[trigger] list[k].1 is Mine)
        &&& forall|k: int| 1 <= k < list.len() ==> #[trigger] reached_from_empty(before, list, k)
        &&& forall|jj: int|
            0 <= jj < pending.len() ==> {
                &&& before.contains(#[trigger] pending[jj])
                &&& !(before.tile_of(pending[jj]) is Mine)
                &&& exists|j: int|
                    0 <= j < list.len() && #[trigger] list[j].1 == Tile::Empty && before.neighbours(
                        list[j].0,
                    ).contains(pending[jj])
            }
        &&& forall|k: int, d: Coordinates|
            0 <= k < list.len() && #[trigger] list[k].1 == Tile::Empty && #[trigger] before.neighbours(
                list[k].0,
            ).contains(d) ==> !self.is_covered(d) || before.is_marked(d) || pending.contains(d)
    }

    /// The neighbours of a cell lie in the grid.
    proof fn lemma_neighbours_in_grid(self, e: Coordinates, d: Coordinates)
        requires
            self.wf(),
            self.neighbours(e).contains(d),
        ensures
            self.contains(d),
    {
        let sq = self.neighbours(e);
        lemma_square_cells(
            self.tile_map.mines(),
            self.tile_map.width as int,
            self.tile_map.height as int,
            e.x as int,
            e.y as int,
            8,
        );
        let m = choose|m: int| 0 <= m < sq.len() && sq[m] == d;
        assert(sq[m] == d);
    }

    /// The first `uncover_tiles` level of a flood from a covered, unmarked `c`, in a game
    /// in progress, reveals `c` alone and starts a flood.
    pub proof fn lemma_flood_start(
        self,
        before: Board,
        c: Coordinates,
        list: Seq<(Coordinates, Tile)>,
        next: Seq<Coordinates>,
    )
        requires
            before.wf(),
            before.contains(c),
            before.is_covered(c),
            !before.is_marked(c),
            !before.mine_hit,
            self.wf(),
            self.tile_map == before.tile_map,
            self.marked_tiles@ == before.marked_tiles@,
            self.level_done(before, seq![c], 1, seq![], list, next),
        ensures
            self.flood_state(before, c, list, next),
    {
        let first = seq![c];
        assert(first[0] == c);
        assert(!self.is_covered(first[0]));
        assert(first.contains(c));
        assert forall|k: int| 0 <= k < list.len() implies #[trigger] list[k].0 == c by {
            assert(first.contains(list[k].0));
        }
        if list.len() > 1 {
            assert(list[0].0 == list[1].0);
        }
        assert(list[0].0 == c);
        assert(self.reveals(before, list[0]));
        if exists|k: int| 0 <= k < list.len() && #[trigger] list[k].1 is Mine {
            let k = choose|k: int| 0 <= k < list.len() && #[trigger] list[k].1 is Mine;
            assert(k == 0);
        }
    }

    /// Each further `uncover_tiles` level on what is pending keeps the flood under way:
    /// whatever it reveals is free of mines and neighbours an empty cell revealed
    /// earlier, and the covered count shrinks whenever something is left pending.
    #[verifier::rlimit(50)]
    pub proof fn lemma_flood_step(
        self,
        before: Board,
        mid: Board,
        c: Coordinates,
        rv: Seq<(Coordinates, Tile)>,
        pd: Seq<Coordinates>,
        list: Seq<(Coordinates, Tile)>,
        next: Seq<Coordinates>,
    )
        requires
            mid.flood_state(before, c, rv, pd),
            self.wf(),
            self.tile_map == mid.tile_map,
            self.marked_tiles@ == mid.marked_tiles@,
            self.level_done(mid, pd, pd.len() as int, rv, list, next),
        ensures
            self.flood_state(before, c, list, next),
            self.covered_count <= mid.covered_count,
            next.len() > 0 ==> self.covered_count < mid.covered_count,
    {
        let b0 = before;
        assert forall|k: int| rv.len() <= k < list.len() implies !(#[trigger] list[k].1 is Mine)
            && exists|j: int|
            0 <= j < rv.len() && #[trigger] rv[j].1 == Tile::Empty && b0.neighbours(
                rv[j].0,
            ).contains(list[k].0) by {
            let e = list[k];
            assert(self.reveals(mid, e));
            assert(pd.contains(e.0));
            let m = choose|m: int| 0 <= m < pd.len() && pd[m] == e.0;
            assert(b0.contains(pd[m]));
        }
        if exists|k: int| rv.len() <= k < list.len() && #[trigger] list[k].1 is Mine {
            let k = choose|k: int| rv.len() <= k < list.len() && #[trigger] list[k].1 is Mine;
            assert(!(list[k].1 is Mine));
        }
        assert forall|k: int| 0 <= k < list.len() implies self.reveals(b0, #[trigger] list[k]) by {
            if k < rv.len() {
                assert(list[k] == rv[k]);
                assert(mid.reveals(b0, rv[k]));
            } else {
                assert(self.reveals(mid, list[k]));
            }
        }
        assert forall|k1: int, k2: int|
            0 <= k1 < k2 < list.len() implies #[trigger] list[k1].0 != #[trigger] list[k2].0 by {
            if k2 < rv.len() {
                assert(list[k1] == rv[k1]);
                assert(list[k2] == rv[k2]);
            } else if k1 < rv.len() {
                assert(list[k1] == rv[k1]);
                assert(mid.reveals(b0, rv[k1]));
                assert(self.reveals(mid, list[k2]));
            }
        }
        assert forall|d: Coordinates|
            b0.contains(d) && b0.is_covered(d) && !self.is_covered(d) implies exists|k: int|
            0 <= k < list.len() && #[trigger] list[k].0 == d by {
            if !mid.is_covered(d) {
                let k = choose|k: int| 0 <= k < rv.len() && #[trigger] rv[k].0 == d;
                assert(list[k] == rv[k]);
            } else {
                let k = choose|k: int| rv.len() <= k < list.len() && #[trigger] list[k].0 == d;
            }
        }
        assert forall|k: int| 1 <= k < list.len() implies !(#[trigger] list[k].1 is Mine) by {
            if k < rv.len() {
                assert(list[k] == rv[k]);
            }
        }
        assert forall|k: int| 1 <= k < list.len() implies #[trigger] reached_from_empty(
            b0,
            list,
            k,
        ) by {
            if k < rv.len() {
                assert(list[k] == rv[k]);
                assert(reached_from_empty(b0, rv, k));
                let j = choose|j: int|
                    0 <= j < k && #[trigger] rv[j].1 == Tile::Empty && b0.neighbours(
                        rv[j].0,
                    ).contains(rv[k].0);
                assert(list[j] == rv[j]);
            } else {
                let j = choose|j: int|
                    0 <= j < rv.len() && #[trigger] rv[j].1 == Tile::Empty && b0.neighbours(
                        rv[j].0,
                    ).contains(list[k].0);
                assert(list[j] == rv[j]);
            }
        }
        assert forall|jj: int| 0 <= jj < next.len() implies {
            &&& b0.contains(#[trigger] next[jj])
            &&& !(b0.tile_of(next[jj]) is Mine)
            &&& exists|j: int|
                0 <= j < list.len() && #[trigger] list[j].1 == Tile::Empty && b0.neighbours(
                    list[j].0,
                ).contains(next[jj])
        } by {
            assert(mid.contains(next[jj]));
            let k = choose|k: int|
                rv.len() <= k < list.len() && #[trigger] list[k].1 == Tile::Empty && mid.neighbours(
                    list[k].0,
                ).contains(next[jj]);
        }
        assert forall|k: int, d: Coordinates|
            0 <= k < list.len() && #[trigger] list[k].1 == Tile::Empty && #[trigger] b0.neighbours(
                list[k].0,
            ).contains(d) implies !self.is_covered(d) || b0.is_marked(d) || next.contains(d) by {
            if k < rv.len() {
                assert(list[k] == rv[k]);
                b0.lemma_neighbours_in_grid(rv[k].0, d);
                if pd.contains(d) {
                    let m2 = choose|m2: int| 0 <= m2 < pd.len() && pd[m2] == d;
                    assert(!self.is_covered(pd[m2]) || mid.is_marked(pd[m2]));
                }
            } else {
                assert(mid.neighbours(list[k].0) == b0.neighbours(list[k].0));
                assert(mid.neighbours(list[k].0).contains(d));
            }
        }
    }

    /// A flood with nothing left pending is complete.
    pub proof fn lemma_flood_end(
        self,
        before: Board,
        c: Coordinates,
        list: Seq<(Coordinates, Tile)>,
        pending: Seq<Coordinates>,
    )
        requires
            self.flood_state(before, c, list, pending),
            pending.len() == 0,
        ensures
            self.floods_from(before, c, list),
    {
        assert(pending =~= Seq::<Coordinates>::empty());
    }

    /// Reveals `c`. When its tile is `Empty`, the reveal floods level by level through
    /// the connected empty cells and their numbered border, skipping marked cells,
    /// until no covered neighbour of a revealed empty cell is left unmarked.
    pub fn reveal_at(&mut self, c: Coordinates) -> (r: Result<RevealResult, BoardError>)
        requires
            old(self).wf(),
        ensures
            final(self).wf(),
            final(self).tile_map == old(self).tile_map,
            final(self).marked_tiles@ == old(self).marked_tiles@,
            !old(self).contains(c) ==> r == Err::<RevealResult, BoardError>(BoardError::OutOfBounds)
                && *final(self) == *old(self),
            old(self).contains(c) && old(self).spec_status() != GameStatus::InProgress ==> r
                == Err::<RevealResult, BoardError>(BoardError::SessionTerminated) && *final(self)
                == *old(self),
            old(self).contains(c) && old(self).spec_status() == GameStatus::InProgress
                && old(self).is_marked(c) ==> r == Ok::<RevealResult, BoardError>(
                RevealResult::Blocked,
            ) && *final(self) == *old(self),
            old(self).contains(c) && old(self).spec_status() == GameStatus::InProgress
                && !old(self).is_covered(c) ==> r == Ok::<RevealResult, BoardError>(
                RevealResult::AlreadyRevealed,
            ) && *final(self) == *old(self),
            old(self).contains(c) && old(self).spec_status() == GameStatus::InProgress
                && old(self).is_covered(c) && !old(self).is_marked(c) ==> (r matches Ok(
                RevealResult::Revealed(list),
            ) && final(self).floods_from(*old(self), c, list@)),
    {
        if !(c.x < self.tile_map.width && c.y < self.tile_map.height) {
            return Err(BoardError::OutOfBounds);
        }
        if self.status() != GameStatus::InProgress {
            return Err(BoardError::SessionTerminated);
        }
        let i = self.index(c);
        if self.marked_tiles[i] {
            return Ok(RevealResult::Blocked);
        }
        if !self.covered_tiles[i] {
            return Ok(RevealResult::AlreadyRevealed);
        }
        let ghost b0 = *self;
        let mut revealed: Vec<(Coordinates, Tile)> = Vec::new();
        let first = vec![c];
        proof {
            assert(first@ =~= seq![c]);
            assert(revealed@ =~= Seq::<(Coordinates, Tile)>::empty());
        }
        let mut pending = self.uncover_tiles(&first, &mut revealed);
        proof {
            self.lemma_flood_start(b0, c, revealed@, pending@);
        }
        while pending.len() > 0
            invariant
                self.flood_state(b0, c, revealed@, pending@),
            decreases self.covered_count + if pending.len() > 0 {
                1int
            } else {
                0int
            },
        {
            let ghost mid = *self;
            let ghost rv = revealed@;
            let current = pending;
            proof {
                assert forall|k: int| 0 <= k < revealed.len() implies self.contains(
                    #[trigger] revealed@[k].0,
                ) && !self.is_covered(revealed@[k].0) by {
                    assert(self.reveals(b0, revealed@[k]));
                }
            }
            pending = self.uncover_tiles(&current, &mut revealed);
            proof {
                self.lemma_flood_step(b0, mid, c, rv, current@, revealed@, pending@);
            }
        }
        proof {
            self.lemma_flood_end(b0, c, revealed@, pending@);
        }
        Ok(RevealResult::Revealed(revealed))
    }
}

/// A reveal uncovers each cell it lists exactly once: every listed cell was covered
/// before and is not after, no cell is listed twice, the requested cell is listed and
/// left revealed (so asking for it again finds it already revealed), and the covered
/// count drops by the number of cells listed.
pub proof fn lemma_reveal_once(
    before: Board,
    after: Board,
    c: Coordinates,
    list: Seq<(Coordinates, Tile)>,
)
    requires
        after.floods_from(before, c, list),
    ensures
        list[0].0 == c,
        !after.is_covered(c),
        forall|k: int|
            0 <= k < list.len() ==> before.is_covered(#[trigger] list[k].0) && !after.is_covered(
                list[k].0,
            ),
        forall|k1: int, k2: int|
            0 <= k1 < k2 < list.len() ==> #[trigger] list[k1].0 != #[trigger] list[k2].0,
        after.covered_count + list.len() == before.covered_count,
{
    assert(after.reveals(before, list[0]));
    assert forall|k: int|
        0 <= k < list.len() implies before.is_covered(#[trigger] list[k].0) && !after.is_covered(
        list[k].0,
    ) by {
        assert(after.reveals(before, list[k]));
    }
}

/// A flood never reveals a mine by itself: every cell it reveals after the requested
/// one holds no mine and neighbours an empty cell that it revealed earlier.
pub proof fn lemma_flood_avoids_mines(
    before: Board,
    after: Board,
    c: Coordinates,
    list: Seq<(Coordinates, Tile)>,
)
    requires
        after.floods_from(before, c, list),
    ensures
        forall|k: int|
            1 <= k < list.len() ==> {
                &&& !(before.tile_of(#[trigger] list[k].0) is Mine)
                &&& reached_from_empty(before, list, k)
            },
{
    assert forall|k: int| 1 <= k < list.len() implies {
        &&& !(before.tile_of(#[trigger] list[k].0) is Mine)
        &&& reached_from_empty(before, list, k)
    } by {
        assert(after.reveals(before, list[k]));
        assert(!(list[k].1 is Mine));
    }
}

/// `Won` holds exactly when as many cells are covered as there are mines and no mine
/// was ever revealed; `Lost` exactly when a mine was revealed, whatever is still
/// covered.
pub proof fn lemma_status(b: Board)
    requires
        b.wf(),
    ensures
        b.spec_status() == GameStatus::Won <==> (b.covered_count == b.tile_map.bomb_count
            && !b.mine_revealed()),
        b.spec_status() == GameStatus::Lost <==> b.mine_revealed(),
        b.spec_status() == GameStatus::InProgress <==> (b.covered_count != b.tile_map.bomb_count
            && !b.mine_revealed()),
{
}

/// Marking a cell and then unmarking it gives back the board it started from.
pub proof fn lemma_toggle_twice(b0: Board, b1: Board, b2: Board, c: Coordinates)
    requires
        b0.wf(),
        b0.contains(c),
        b1.toggles_mark(b0, c),
        b2.toggles_mark(b1, c),
    ensures
        b2.marked_tiles@ == b0.marked_tiles@,
        b2.is_marked(c) == b0.is_marked(c),
        b2.tile_map == b0.tile_map,
        b2.covered_tiles == b0.covered_tiles,
        b2.covered_count == b0.covered_count,
        b2.mine_hit == b0.mine_hit,
{
    b0.lemma_index(c);
    assert(b2.marked_tiles@ =~= b0.marked_tiles@);
}

} // verus!
