use crate::coordinates::Coordinates;
use crate::counting::{count_true, lemma_count_bounded, lemma_count_push, lemma_count_raise};
use vstd::prelude::*;

verus! {

/// What lies under a cell of the grid. Fixed once the grid is generated.
#[derive(Debug, Copy, Clone, PartialEq, Eq, Structural)]
pub enum Tile {
    Mine,
    /// A safe cell touching this many mines (1 to 8).
    Neighbor(u8),
    /// A safe cell touching no mine.
    Empty,
}

/// Why a grid could not be generated.
#[derive(Debug, Copy, Clone, PartialEq, Eq, Structural)]
pub enum GenerationError {
    /// The mine count is not below the number of cells.
    InvalidGenerationParameters,
}

/// Column offset of the `k`-th neighbour, in row-major order around a cell.
pub open spec fn delta_x(k: int) -> int {
    if k == 0 || k == 3 || k == 5 {
        -1
    } else if k == 1 || k == 6 {
        0
    } else {
        1
    }
}

/// Row offset of the `k`-th neighbour, in row-major order around a cell.
pub open spec fn delta_y(k: int) -> int {
    if k <= 2 {
        -1
    } else if k <= 4 {
        0
    } else {
        1
    }
}

pub open spec fn in_grid(w: int, h: int, x: int, y: int) -> bool {
    0 <= x < w && 0 <= y < h
}

/// Position of cell `(x, y)` in the row-major flat storage.
pub open spec fn flat_index(w: int, x: int, y: int) -> int {
    y * w + x
}

/// 1 when `(x, y)` lies in the grid and holds a mine, else 0.
pub open spec fn mine_at(mines: Seq<bool>, w: int, h: int, x: int, y: int) -> nat {
    if in_grid(w, h, x, y) && mines[flat_index(w, x, y)] {
        1
    } else {
        0
    }
}

/// Mines among the first `k` neighbours of `(x, y)`.
pub open spec fn mines_among(mines: Seq<bool>, w: int, h: int, x: int, y: int, k: int) -> nat
    decreases k,
{
    if k <= 0 {
        0
    } else {
        mines_among(mines, w, h, x, y, k - 1) + mine_at(
            mines,
            w,
            h,
            x + delta_x(k - 1),
            y + delta_y(k - 1),
        )
    }
}

/// Mines among the up to eight grid-clipped neighbours of `(x, y)`.
pub open spec fn adjacent_mines(mines: Seq<bool>, w: int, h: int, x: int, y: int) -> nat {
    mines_among(mines, w, h, x, y, 8)
}

/// The tile a safe cell shows for a given number of adjacent mines.
pub open spec fn tile_for(n: nat) -> Tile {
    if n == 0 {
        Tile::Empty
    } else {
        Tile::Neighbor(n as u8)
    }
}

/// The in-grid cells among the first `k` neighbours of `(x, y)`, in order.
pub open spec fn square_from(w: int, h: int, x: int, y: int, k: int) -> Seq<Coordinates>
    decreases k,
{
    if k <= 0 {
        seq![]
    } else {
        let prev = square_from(w, h, x, y, k - 1);
        let nx = x + delta_x(k - 1);
        let ny = y + delta_y(k - 1);
        if in_grid(w, h, nx, ny) {
            prev.push(Coordinates { x: nx as u16, y: ny as u16 })
        } else {
            prev
        }
    }
}

/// The grid-clipped neighbours of `(x, y)`, in row-major order.
pub open spec fn square(w: int, h: int, x: int, y: int) -> Seq<Coordinates> {
    square_from(w, h, x, y, 8)
}

pub proof fn lemma_index_in_range(w: int, h: int, x: int, y: int)
    requires
        in_grid(w, h, x, y),
        w <= 65535,
        h <= 65535,
    ensures
        0 <= y * w <= flat_index(w, x, y) < w * h <= 4294836225,
{
    assert(0 <= y * w) by (nonlinear_arith)
        requires
            0 <= y,
            0 <= w,
    ;
    assert(y * w + x < w * h) by (nonlinear_arith)
        requires
            0 <= x < w,
            0 <= y < h,
    ;
    assert(w * h <= 4294836225) by (nonlinear_arith)
        requires
            0 <= w <= 65535,
            0 <= h <= 65535,
    ;
}

pub proof fn lemma_index_unique(w: int, x1: int, y1: int, x2: int, y2: int)
    requires
        0 <= x1 < w,
        0 <= x2 < w,
        0 <= y1,
        0 <= y2,
        flat_index(w, x1, y1) == flat_index(w, x2, y2),
    ensures
        x1 == x2,
        y1 == y2,
{
    if y1 < y2 {
        assert(y1 * w + w <= y2 * w) by (nonlinear_arith)
            requires
                y1 < y2,
                0 <= w,
        ;
    } else if y2 < y1 {
        assert(y2 * w + w <= y1 * w) by (nonlinear_arith)
            requires
                y2 < y1,
                0 <= w,
        ;
    }
}

/// Every cell of a neighbourhood lies in the grid; around a cell with no adjacent
/// mine, none of them holds a mine.
pub proof fn lemma_square_cells(mines: Seq<bool>, w: int, h: int, x: int, y: int, k: int)
    requires
        0 <= k <= 8,
        w <= 65535,
        h <= 65535,
    ensures
        forall|i: int|
            0 <= i < square_from(w, h, x, y, k).len() ==> {
                let c = #[trigger] square_from(w, h, x, y, k)[i];
                &&& in_grid(w, h, c.x as int, c.y as int)
                &&& (mines_among(mines, w, h, x, y, k) == 0 ==> !mines[flat_index(
                    w,
                    c.x as int,
                    c.y as int,
                )])
            },
    decreases k,
{
    if k > 0 {
        lemma_square_cells(mines, w, h, x, y, k - 1);
        let prev = square_from(w, h, x, y, k - 1);
        let cur = square_from(w, h, x, y, k);
        assert forall|i: int| 0 <= i < prev.len() implies #[trigger] cur[i] == prev[i] by {}
        assert forall|i: int| 0 <= i < cur.len() implies {
            let c = #[trigger] cur[i];
            &&& in_grid(w, h, c.x as int, c.y as int)
            &&& (mines_among(mines, w, h, x, y, k) == 0 ==> !mines[flat_index(
                w,
                c.x as int,
                c.y as int,
            )])
        } by {
            if i < prev.len() {
                assert(cur[i] == prev[i]);
            }
        }
    }
}

/// The neighbour offset of index `k`, `k < 8`.
fn delta(k: usize) -> (d: (i32, i32))
    requires
        k < 8,
    ensures
        d.0 == delta_x(k as int),
        d.1 == delta_y(k as int),
{
    if k == 0 {
        (-1, -1)
    } else if k == 1 {
        (0, -1)
    } else if k == 2 {
        (1, -1)
    } else if k == 3 {
        (-1, 0)
    } else if k == 4 {
        (1, 0)
    } else if k == 5 {
        (-1, 1)
    } else if k == 6 {
        (0, 1)
    } else {
        (1, 1)
    }
}

/// Counts the mines of `layout` among the grid-clipped neighbours of `(x, y)`.
pub fn count_adjacent(layout: &Vec<bool>, width: u16, height: u16, x: u16, y: u16) -> (n: u8)
    requires
        layout.len() == width * height,
        x < width,
        y < height,
    ensures
        n as nat == adjacent_mines(layout@, width as int, height as int, x as int, y as int),
        n <= 8,
{
    let mut n: u8 = 0;
    let mut k: usize = 0;
    while k < 8
        invariant
            k <= 8,
            n <= k,
            layout.len() == width * height,
            n as nat == mines_among(layout@, width as int, height as int, x as int, y as int, k as int),
        decreases 8 - k,
    {
        let d = delta(k);
        let nx: i32 = x as i32 + d.0;
        let ny: i32 = y as i32 + d.1;
        if 0 <= nx && nx < width as i32 && 0 <= ny && ny < height as i32 {
            proof {
                lemma_index_in_range(width as int, height as int, nx as int, ny as int);
            }
            let i: usize = ny as usize * width as usize + nx as usize;
            if layout[i] {
                n = n + 1;
            }
        }
        k = k + 1;
    }
    n
}

/// Multiplier of the generator that drives mine placement.
pub const LCG_MUL: u64 = 6364136223846793005;

/// Increment of the generator that drives mine placement.
pub const LCG_INC: u64 = 1442695040888963407;

/// One step of the 64-bit linear congruential generator.
pub open spec fn next_state(s: u64) -> u64 {
    vstd::wrapping::u64_specs::wrapping_add(
        vstd::wrapping::u64_specs::wrapping_mul(s, LCG_MUL),
        LCG_INC,
    )
}

/// The generator's state after `k` steps from `seed`.
pub open spec fn state_at(seed: u64, k: nat) -> u64
    decreases k,
{
    if k == 0 {
        seed
    } else {
        next_state(state_at(seed, (k - 1) as nat))
    }
}

/// The `k`-th number drawn from `seed`: the high 31 bits of the state after `k + 1` steps.
pub open spec fn draw(seed: u64, k: nat) -> nat {
    (state_at(seed, k + 1) / 8589934592) as nat
}

/// Index of the `r`-th cell without a mine at or after `j` (counting from 0), or the
/// length when there are not that many.
pub open spec fn nth_free_from(s: Seq<bool>, j: int, r: int) -> int
    decreases s.len() - j,
{
    if j >= s.len() || j < 0 {
        s.len() as int
    } else if !s[j] {
        if r == 0 {
            j
        } else {
            nth_free_from(s, j + 1, r - 1)
        }
    } else {
        nth_free_from(s, j + 1, r)
    }
}

/// The mine layout over `n` cells after placing `k` mines from `seed`: the `i`-th mine
/// goes on the `r`-th free cell, with `r` the `i`-th draw modulo the number of free cells.
#[verifier::opaque]
pub open spec fn layout_after(n: nat, seed: u64, k: nat) -> Seq<bool>
    decreases k,
{
    if k == 0 {
        Seq::new(n, |i: int| false)
    } else {
        let prev = layout_after(n, seed, (k - 1) as nat);
        let r = draw(seed, (k - 1) as nat) % (n - (k - 1)) as nat;
        prev.update(nth_free_from(prev, 0, r as int), true)
    }
}

/// Finds the `r`-th cell without a mine, counting from 0 in index order.
fn nth_free(layout: &Vec<bool>, r: usize) -> (j: usize)
    requires
        r + count_true(layout@) < layout.len(),
    ensures
        j == nth_free_from(layout@, 0, r as int),
        j < layout.len(),
        !layout@[j as int],
{
    let mut j: usize = 0;
    let mut seen: usize = 0;
    while j < layout.len()
        invariant
            j <= layout.len(),
            seen <= r,
            r + count_true(layout@) < layout.len(),
            seen + count_true(layout@.take(j as int)) == j,
            nth_free_from(layout@, 0, r as int) == nth_free_from(layout@, j as int, r - seen),
        decreases layout.len() - j,
    {
        proof {
            assert(layout@.take(j + 1) =~= layout@.take(j as int).push(layout@[j as int]));
            lemma_count_push(layout@.take(j as int), layout@[j as int]);
        }
        if !layout[j] {
            if seen == r {
                return j;
            }
            seen = seen + 1;
        }
        j = j + 1;
    }
    proof {
        assert(layout@.take(j as int) =~= layout@);
    }
    0
}

/// Chooses `mine_count` distinct cells among `n`, driven by `seed`: each mine goes to a
/// cell drawn uniformly (up to the generator) among those still free.
pub fn place_mines(n: usize, mine_count: usize, seed: u64) -> (layout: Vec<bool>)
    requires
        mine_count <= n,
    ensures
        layout.len() == n,
        layout@ == layout_after(n as nat, seed, mine_count as nat),
        count_true(layout@) == mine_count,
{
    let mut layout: Vec<bool> = Vec::new();
    while layout.len() < n
        invariant
            layout.len() <= n,
            count_true(layout@) == 0,
            forall|i: int| 0 <= i < layout.len() ==> !layout@[i],
        decreases n - layout.len(),
    {
        proof {
            lemma_count_push(layout@, false);
        }
        layout.push(false);
    }
    proof {
        reveal(layout_after);
        assert(layout@ =~= layout_after(n as nat, seed, 0));
    }
    let mut state: u64 = seed;
    let mut placed: usize = 0;
    while placed < mine_count
        invariant
            layout.len() == n,
            placed <= mine_count <= n,
            count_true(layout@) == placed,
            state == state_at(seed, placed as nat),
            layout@ == layout_after(n as nat, seed, placed as nat),
        decreases mine_count - placed,
    {
        state = state.wrapping_mul(LCG_MUL).wrapping_add(LCG_INC);
        let free: usize = n - placed;
        let r: usize = ((state / 8589934592) % (free as u64)) as usize;
        let j = nth_free(&layout, r);
        proof {
            lemma_count_raise(layout@, j as int);
        }
        layout[j] = true;
        placed = placed + 1;
        proof {
            reveal(layout_after);
        }
    }
    layout
}

/// A generated grid, stored row-major: the tile of `(x, y)` is `map[y * width + x]`.
#[derive(Debug, Clone)]
pub struct TileMap {
    pub width: u16,
    pub height: u16,
    pub bomb_count: usize,
    pub map: Vec<Tile>,
}

impl TileMap {
    /// Which cells hold a mine.
    pub open spec fn mines(&self) -> Seq<bool> {
        self.map@.map_values(|t: Tile| t is Mine)
    }

    pub open spec fn tile(&self, x: int, y: int) -> Tile {
        self.map@[flat_index(self.width as int, x, y)]
    }

    pub open spec fn contains(&self, c: Coordinates) -> bool {
        in_grid(self.width as int, self.height as int, c.x as int, c.y as int)
    }

    /// The tile of a safe cell shows its exact number of adjacent mines.
    pub open spec fn tile_is_consistent(&self, x: int, y: int) -> bool {
        self.tile(x, y) is Mine || self.tile(x, y) == tile_for(
            adjacent_mines(self.mines(), self.width as int, self.height as int, x, y),
        )
    }

    pub open spec fn wf(&self) -> bool {
        &&& self.map.len() == self.width * self.height
        &&& self.bomb_count == count_true(self.mines())
        &&& forall|x: int, y: int|
            in_grid(self.width as int, self.height as int, x, y) ==> #[trigger] self.tile_is_consistent(
                x,
                y,
            )
    }

    /// Builds the grid whose mines are the `true` cells of `layout` (row-major),
    /// deriving every other tile from its adjacent mines.
    pub fn from_layout(width: u16, height: u16, layout: &Vec<bool>) -> (m: TileMap)
        requires
            layout.len() == width * height,
        ensures
            m.wf(),
            m.width == width,
            m.height == height,
            m.mines() == layout@,
            m.bomb_count == count_true(layout@),
    {
        let ghost w = width as int;
        let ghost h = height as int;
        let mut map: Vec<Tile> = Vec::new();
        let mut count: usize = 0;
        let mut y: u16 = 0;
        while y < height
            invariant
                layout.len() == w * h,
                w == width,
                h == height,
                y <= height,
                map.len() == y * w,
                forall|i: int| 0 <= i < map.len() ==> (map@[i] is Mine <==> layout@[i]),
                count == count_true(layout@.take(map.len() as int)),
                forall|xx: int, yy: int|
                    0 <= xx < w && 0 <= yy && flat_index(w, xx, yy) < map.len() ==> {
                        let t = #[trigger] map@[flat_index(w, xx, yy)];
                        t is Mine || t == tile_for(adjacent_mines(layout@, w, h, xx, yy))
                    },
            decreases height - y,
        {
            let mut x: u16 = 0;
            while x < width
                invariant
                    layout.len() == w * h,
                    w == width,
                    h == height,
                    y < height,
                    x <= width,
                    map.len() == y * w + x,
                    forall|i: int| 0 <= i < map.len() ==> (map@[i] is Mine <==> layout@[i]),
                    count == count_true(layout@.take(map.len() as int)),
                    forall|xx: int, yy: int|
                        0 <= xx < w && 0 <= yy && flat_index(w, xx, yy) < map.len() ==> {
                            let t = #[trigger] map@[flat_index(w, xx, yy)];
                            t is Mine || t == tile_for(adjacent_mines(layout@, w, h, xx, yy))
                        },
                decreases width - x,
            {
                proof {
                    lemma_index_in_range(w, h, x as int, y as int);
                }
                let i: usize = y as usize * width as usize + x as usize;
                let ghost old_map = map@;
                proof {
                    lemma_count_bounded(layout@.take(i as int));
                }
                let tile = if layout[i] {
                    count = count + 1;
                    Tile::Mine
                } else {
                    let n = count_adjacent(layout, width, height, x, y);
                    if n == 0 {
                        Tile::Empty
                    } else {
                        Tile::Neighbor(n)
                    }
                };
                proof {
                    assert(layout@.take(i + 1) =~= layout@.take(i as int).push(layout@[i as int]));
                    lemma_count_push(layout@.take(i as int), layout@[i as int]);
                }
                map.push(tile);
                proof {
                    assert forall|xx: int, yy: int|
                        0 <= xx < w && 0 <= yy && flat_index(w, xx, yy) < map.len() implies {
                            let t = #[trigger] map@[flat_index(w, xx, yy)];
                            t is Mine || t == tile_for(adjacent_mines(layout@, w, h, xx, yy))
                        } by {
                        if flat_index(w, xx, yy) == i {
                            lemma_index_unique(w, xx, yy, x as int, y as int);
                        } else {
                            assert(map@[flat_index(w, xx, yy)] == old_map[flat_index(w, xx, yy)]);
                        }
                    }
                }
                x = x + 1;
            }
            proof {
                assert((y + 1) * w == y * w + w) by (nonlinear_arith);
            }
            y = y + 1;
        }
        proof {
            assert(y * w == w * h) by (nonlinear_arith)
                requires
                    y == h,
            ;
            assert(layout@.take(map.len() as int) =~= layout@);
        }
        let m = TileMap { width, height, bomb_count: count, map };
        proof {
            assert(m.mines() =~= layout@);
            assert forall|x: int, y: int| in_grid(w, h, x, y) implies #[trigger] m.tile_is_consistent(
                x,
                y,
            ) by {
                lemma_index_in_range(w, h, x, y);
            }
        }
        m
    }

    /// Generates a `width` x `height` grid holding exactly `mine_count` mines, placed
    /// from `seed`. The same arguments always give the same grid.
    pub fn generate(width: u16, height: u16, mine_count: usize, seed: u64) -> (r: Result<
        TileMap,
        GenerationError,
    >)
        ensures
            r is Err <==> mine_count >= width * height,
            r matches Ok(m) ==> {
                &&& m.wf()
                &&& m.width == width
                &&& m.height == height
                &&& m.bomb_count == mine_count
                &&& m.mines() == layout_after((width * height) as nat, seed, mine_count as nat)
            },
    {
        proof {
            assert(width * height <= 4294836225) by (nonlinear_arith)
                requires
                    width <= 65535,
                    height <= 65535,
            ;
        }
        let n: usize = width as usize * height as usize;
        if mine_count >= n {
            return Err(GenerationError::InvalidGenerationParameters);
        }
        let layout = place_mines(n, mine_count, seed);
        let m = TileMap::from_layout(width, height, &layout);
        Ok(m)
    }

    /// The grid-clipped neighbours of `c`, in row-major order around it.
    pub fn safe_square_at(&self, c: Coordinates) -> (r: Vec<Coordinates>)
        ensures
            r@ == square(self.width as int, self.height as int, c.x as int, c.y as int),
    {
        let mut r: Vec<Coordinates> = Vec::new();
        let mut k: usize = 0;
        while k < 8
            invariant
                k <= 8,
                r@ == square_from(
                    self.width as int,
                    self.height as int,
                    c.x as int,
                    c.y as int,
                    k as int,
                ),
            decreases 8 - k,
        {
            let d = delta(k);
            let nx: i32 = c.x as i32 + d.0;
            let ny: i32 = c.y as i32 + d.1;
            if 0 <= nx && nx < self.width as i32 && 0 <= ny && ny < self.height as i32 {
                r.push(Coordinates { x: nx as u16, y: ny as u16 });
            }
            k = k + 1;
        }
        r
    }

    /// The tile at `c`.
    pub fn tile_at(&self, c: Coordinates) -> (t: Tile)
        requires
            self.wf(),
            self.contains(c),
        ensures
            t == self.tile(c.x as int, c.y as int),
    {
        proof {
            lemma_index_in_range(self.width as int, self.height as int, c.x as int, c.y as int);
        }
        self.map[c.y as usize * self.width as usize + c.x as usize]
    }

    /// `c` is the first `Empty` cell in row-major order.
    pub open spec fn is_first_empty(&self, c: Coordinates) -> bool {
        &&& self.contains(c)
        &&& self.tile(c.x as int, c.y as int) == Tile::Empty
        &&& forall|i: int|
            0 <= i < flat_index(self.width as int, c.x as int, c.y as int) ==> self.map@[i]
                != Tile::Empty
    }

    /// The first `Empty` cell in row-major order, if the grid has one.
    pub fn pick_safe_start(&self) -> (r: Option<Coordinates>)
        requires
            self.wf(),
        ensures
            r is None <==> forall|i: int| 0 <= i < self.map.len() ==> self.map@[i] != Tile::Empty,
            r matches Some(c) ==> self.is_first_empty(c),
    {
        let ghost w = self.width as int;
        let ghost h = self.height as int;
        let mut i: usize = 0;
        let mut y: u16 = 0;
        while y < self.height
            invariant
                self.wf(),
                w == self.width,
                h == self.height,
                y <= self.height,
                i == y * w,
                forall|k: int| 0 <= k < i ==> self.map@[k] != Tile::Empty,
            decreases self.height - y,
        {
            let mut x: u16 = 0;
            while x < self.width
                invariant
                    self.wf(),
                    w == self.width,
                    h == self.height,
                    y < self.height,
                    x <= self.width,
                    i == y * w + x,
                    forall|k: int| 0 <= k < i ==> self.map@[k] != Tile::Empty,
                decreases self.width - x,
            {
                proof {
                    lemma_index_in_range(w, h, x as int, y as int);
                }
                if self.map[i] == Tile::Empty {
                    return Some(Coordinates { x, y });
                }
                i = i + 1;
                x = x + 1;
            }
            proof {
                assert((y + 1) * w == y * w + w) by (nonlinear_arith);
            }
            y = y + 1;
        }
        proof {
            assert(y * w == w * h) by (nonlinear_arith)
                requires
                    y == h,
            ;
        }
        None
    }
}

/// Mines among the first `k` neighbours are at most `k`.
proof fn lemma_mines_among_bounded(mines: Seq<bool>, w: int, h: int, x: int, y: int, k: int)
    ensures
        mines_among(mines, w, h, x, y, k) <= if k < 0 {
            0
        } else {
            k
        },
    decreases k,
{
    if k > 0 {
        lemma_mines_among_bounded(mines, w, h, x, y, k - 1);
    }
}

/// A well-formed grid holds `bomb_count` mines, and each numbered cell shows the exact
/// number, from 1 to 8, of mines among its grid-clipped neighbours; a cell with no
/// adjacent mine is `Empty`.
pub proof fn lemma_grid_counts(m: TileMap, x: int, y: int)
    requires
        m.wf(),
        in_grid(m.width as int, m.height as int, x, y),
    ensures
        count_true(m.mines()) == m.bomb_count,
        m.tile(x, y) matches Tile::Neighbor(n) ==> 1 <= n <= 8 && n as nat == adjacent_mines(
            m.mines(),
            m.width as int,
            m.height as int,
            x,
            y,
        ),
        !(m.tile(x, y) is Mine) && adjacent_mines(m.mines(), m.width as int, m.height as int, x, y)
            == 0 <==> m.tile(x, y) == Tile::Empty,
{
    assert(m.tile_is_consistent(x, y));
    lemma_mines_among_bounded(m.mines(), m.width as int, m.height as int, x, y, 8);
}

} // verus!
