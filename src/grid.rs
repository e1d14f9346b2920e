//! The grid engine: cell storage, neighbor counting, generation advance,
//! per-cell classification and the click-driven square toggle.
use rand::Rng;
use vstd::prelude::*;

verus! {

/// Side length of the grid that the interactive program runs.
pub const GRID_SIZE: usize = 50;

/// Half-width of the square of cells that one click toggles.
pub const CLICK_RADIUS: usize = 2;

/// Odds that a cell starts alive when the grid is seeded: one in five.
pub const SEED_NUMERATOR: u32 = 1;

/// See `SEED_NUMERATOR`.
pub const SEED_DENOMINATOR: u32 = 5;

/// How a cell looks, judged from its previous and its current state.
#[derive(Clone, Copy, Debug, PartialEq, Eq, Structural)]
pub enum CellState {
    /// Dead before, alive now.
    Born,
    /// Alive before, dead now.
    Died,
    /// Alive before and now.
    Alive,
    /// Dead before and now: not drawn.
    Dead,
}

/// The mathematical content of a grid.
pub struct GridView {
    pub size: int,
    /// Current generation, row-major: cell `(x, y)` sits at `y * size + x`.
    pub cells: Seq<bool>,
    /// The generation before the most recent advance.
    pub previous: Seq<bool>,
}

/// A square grid of cells, stored row-major, with the generation before the
/// last advance kept alongside the current one.
pub struct Grid {
    size: usize,
    cells: Vec<bool>,
    prev_cells: Vec<bool>,
}

/// The table that maps a cell's (previous, current) pair to its look.
pub open spec fn classification(previous: bool, current: bool) -> CellState {
    match (previous, current) {
        (false, true) => CellState::Born,
        (true, false) => CellState::Died,
        (true, true) => CellState::Alive,
        (false, false) => CellState::Dead,
    }
}

/// `(x, y)` is a position on a `size` by `size` grid.
pub open spec fn in_grid(size: int, x: int, y: int) -> bool {
    0 <= x < size && 0 <= y < size
}

/// Row-major position of `(x, y)` in the cell sequence.
pub open spec fn index_of(size: int, x: int, y: int) -> int {
    y * size + x
}

/// The cell at `(x, y)` is on the grid and alive; off-grid positions are dead.
pub open spec fn live_at(cells: Seq<bool>, size: int, x: int, y: int) -> bool {
    in_grid(size, x, y) && cells[index_of(size, x, y)]
}

/// 1 for a live cell at `(x, y)`, 0 otherwise.
pub open spec fn live_as_int(cells: Seq<bool>, size: int, x: int, y: int) -> int {
    if live_at(cells, size, x, y) {
        1
    } else {
        0
    }
}

/// Number of live cells among the eight around `(x, y)`, with hard edges.
pub open spec fn live_neighbors(cells: Seq<bool>, size: int, x: int, y: int) -> int {
    live_as_int(cells, size, x - 1, y - 1) + live_as_int(cells, size, x, y - 1)
        + live_as_int(cells, size, x + 1, y - 1) + live_as_int(cells, size, x - 1, y)
        + live_as_int(cells, size, x + 1, y) + live_as_int(cells, size, x - 1, y + 1)
        + live_as_int(cells, size, x, y + 1) + live_as_int(cells, size, x + 1, y + 1)
}

/// The rule of life: survive on two, survive or be born on three.
pub open spec fn survives(alive: bool, neighbors: int) -> bool {
    (alive && neighbors == 2) || neighbors == 3
}

/// The generation that follows `cells`, every cell judged on `cells` alone.
pub open spec fn next_generation(cells: Seq<bool>, size: int) -> Seq<bool> {
    Seq::new(
        cells.len(),
        |i: int| survives(cells[i], live_neighbors(cells, size, i % size, i / size)),
    )
}

/// `cells` with the cell at `(x, y)` flipped.
pub open spec fn toggled(cells: Seq<bool>, size: int, x: int, y: int) -> Seq<bool> {
    cells.update(index_of(size, x, y), !cells[index_of(size, x, y)])
}

/// `(x, y)` lies in the square of half-width `radius` around `(cx, cy)`.
pub open spec fn in_square(x: int, y: int, cx: int, cy: int, radius: int) -> bool {
    cx - radius <= x <= cx + radius && cy - radius <= y <= cy + radius
}

/// `cells` with every cell of the square around `(cx, cy)` flipped.
pub open spec fn square_toggled(
    cells: Seq<bool>,
    size: int,
    cx: int,
    cy: int,
    radius: int,
) -> Seq<bool> {
    Seq::new(cells.len(), |i: int| cells[i] != in_square(i % size, i / size, cx, cy, radius))
}

/// `cells` with the square around `(cx, cy)` flipped on the rows above `y`
/// and on row `y` left of `x`: the progress of a row-by-row sweep.
spec fn swept(
    cells: Seq<bool>,
    size: int,
    cx: int,
    cy: int,
    radius: int,
    x: int,
    y: int,
) -> Seq<bool> {
    Seq::new(
        cells.len(),
        |i: int|
            cells[i] != (in_square(i % size, i / size, cx, cy, radius) && (i / size < y || (i
                / size == y && i % size < x))),
    )
}

/// Relies on rand's `thread_rng` and `Rng::gen_ratio`: a coin that comes up
/// `true` with odds `numerator` in `denominator`. It panics on a zero
/// denominator or a numerator above it; it is never `true` for a zero
/// numerator and always `true` when the two are equal.
#[verifier::external_body]
fn gen_ratio(numerator: u32, denominator: u32) -> (r: bool)
    requires
        0 < denominator,
        numerator <= denominator,
    ensures
        numerator == 0 ==> !r,
        numerator == denominator ==> r,
{
    rand::thread_rng().gen_ratio(numerator, denominator)
}

/// Row-major coordinates of an index: `x = i % size`, `y = i / size`.
pub proof fn lemma_coords(size: int, i: int)
    requires
        0 < size,
        0 <= i < size * size,
    ensures
        0 <= i % size < size,
        0 <= i / size < size,
        i == index_of(size, i % size, i / size),
{
    vstd::arithmetic::div_mod::lemma_fundamental_div_mod(i, size);
    vstd::arithmetic::div_mod::lemma_mod_bound(i, size);
    vstd::arithmetic::mul::lemma_mul_is_commutative(size, i / size);
    let q = i / size;
    let r = i % size;
    assert(0 <= q < size) by (nonlinear_arith)
        requires
            i == size * q + r,
            0 <= r < size,
            0 <= i < size * size,
    ;
}

/// The index of `(x, y)` is in range and gives back `(x, y)`.
pub proof fn lemma_index(size: int, x: int, y: int)
    requires
        in_grid(size, x, y),
    ensures
        0 <= index_of(size, x, y) < size * size,
        index_of(size, x, y) % size == x,
        index_of(size, x, y) / size == y,
{
    vstd::arithmetic::div_mod::lemma_fundamental_div_mod_converse(index_of(size, x, y), size, y, x);
    assert(0 <= y * size + x < size * size) by (nonlinear_arith)
        requires
            0 <= x < size,
            0 <= y < size,
    ;
}

impl View for Grid {
    type V = GridView;

    closed spec fn view(&self) -> GridView {
        GridView { size: self.size as int, cells: self.cells@, previous: self.prev_cells@ }
    }
}

impl Grid {
    /// Both generations hold `size * size` cells, a count that fits in a
    /// `usize`, and the grid is not empty.
    pub open spec fn wf(&self) -> bool {
        &&& self@.size > 0
        &&& self@.size * self@.size <= usize::MAX
        &&& self@.cells.len() == self@.size * self@.size
        &&& self@.previous.len() == self@.size * self@.size
    }

    /// A grid of `size * size` dead cells; `None` for a size of zero or one
    /// whose cell count does not fit in memory.
    pub fn new(size: usize) -> (r: Option<Grid>)
        ensures
            r is None <==> (size == 0 || size * size > usize::MAX),
            r matches Some(g) ==> {
                &&& g.wf()
                &&& g@.size == size
                &&& g@.cells == Seq::new((size * size) as nat, |i: int| false)
                &&& g@.previous == Seq::new((size * size) as nat, |i: int| false)
                &&& forall|x: int, y: int|
                    in_grid(size as int, x, y) ==> !#[trigger] g@.cells[index_of(size as int, x, y)]
            },
    {
        if size == 0 {
            return None;
        }
        let total = match size.checked_mul(size) {
            Some(t) => t,
            None => return None,
        };
        let mut cells: Vec<bool> = Vec::new();
        let mut i: usize = 0;
        while i < total
            invariant
                i <= total,
                cells@ == Seq::new(i as nat, |j: int| false),
            decreases total - i,
        {
            cells.push(false);
            i = i + 1;
            assert(cells@ =~= Seq::new(i as nat, |j: int| false));
        }
        let prev_cells = cells.clone();
        proof {
            assert(prev_cells@ =~= cells@);
            assert forall|x: int, y: int| in_grid(size as int, x, y) implies !cells@[index_of(
                size as int,
                x,
                y,
            )] by {
                lemma_index(size as int, x, y);
            }
        }
        Some(Grid { size, cells, prev_cells })
    }

    /// Side length of the grid.
    pub fn size(&self) -> (r: usize)
        ensures
            r == self@.size,
    {
        self.size
    }

    /// Whether the cell at `(x, y)` is alive.
    pub fn get(&self, x: usize, y: usize) -> (r: bool)
        requires
            self.wf(),
            in_grid(self@.size, x as int, y as int),
        ensures
            r == self@.cells[index_of(self@.size, x as int, y as int)],
    {
        proof {
            lemma_index(self@.size, x as int, y as int);
        }
        self.cells[y * self.size + x]
    }

    /// Makes the cell at `(x, y)` alive or dead.
    pub fn set(&mut self, x: usize, y: usize, value: bool)
        requires
            old(self).wf(),
            in_grid(old(self)@.size, x as int, y as int),
        ensures
            final(self).wf(),
            final(self)@.size == old(self)@.size,
            final(self)@.cells == old(self)@.cells.update(
                index_of(old(self)@.size, x as int, y as int),
                value,
            ),
            final(self)@.previous == old(self)@.previous,
    {
        proof {
            lemma_index(self@.size, x as int, y as int);
        }
        let index = y * self.size + x;
        self.cells.set(index, value);
    }

    /// Flips the cell at `(x, y)`; the previous generation is left alone.
    pub fn toggle(&mut self, x: usize, y: usize)
        requires
            old(self).wf(),
            in_grid(old(self)@.size, x as int, y as int),
        ensures
            final(self).wf(),
            final(self)@.size == old(self)@.size,
            final(self)@.cells == toggled(old(self)@.cells, old(self)@.size, x as int, y as int),
            final(self)@.previous == old(self)@.previous,
    {
        proof {
            lemma_index(self@.size, x as int, y as int);
        }
        let index = y * self.size + x;
        let value = !self.cells[index];
        self.cells.set(index, value);
    }
    /// 1 when the cell one step along `(dx, dy)` from `(x, y)` is on the grid
    /// and alive, else 0.
    fn live_offset(&self, x: usize, y: usize, dx: isize, dy: isize) -> (r: usize)
        requires
            self.wf(),
            in_grid(self@.size, x as int, y as int),
            -1 <= dx <= 1,
            -1 <= dy <= 1,
        ensures
            r == live_as_int(self@.cells, self@.size, x + dx, y + dy),
    {
        let nx: usize = if dx < 0 {
            if x == 0 {
                return 0;
            }
            x - 1
        } else if dx > 0 {
            if x + 1 >= self.size {
                return 0;
            }
            x + 1
        } else {
            x
        };
        let ny: usize = if dy < 0 {
            if y == 0 {
                return 0;
            }
            y - 1
        } else if dy > 0 {
            if y + 1 >= self.size {
                return 0;
            }
            y + 1
        } else {
            y
        };
        if self.get(nx, ny) {
            1
        } else {
            0
        }
    }

    /// Number of live cells among the eight around `(x, y)`; positions off
    /// the grid count as dead.
    pub fn neighbors(&self, x: usize, y: usize) -> (r: usize)
        requires
            self.wf(),
            in_grid(self@.size, x as int, y as int),
        ensures
            r == live_neighbors(self@.cells, self@.size, x as int, y as int),
            r <= 8,
    {
        self.live_offset(x, y, -1, -1) + self.live_offset(x, y, 0, -1) + self.live_offset(
            x,
            y,
            1,
            -1,
        ) + self.live_offset(x, y, -1, 0) + self.live_offset(x, y, 1, 0) + self.live_offset(
            x,
            y,
            -1,
            1,
        ) + self.live_offset(x, y, 0, 1) + self.live_offset(x, y, 1, 1)
    }

    /// Advances one generation: every cell of the new generation is computed
    /// from the current one, which then becomes the previous generation.
    pub fn step(&mut self)
        requires
            old(self).wf(),
        ensures
            final(self).wf(),
            final(self)@.size == old(self)@.size,
            final(self)@.previous == old(self)@.cells,
            final(self)@.cells == next_generation(old(self)@.cells, old(self)@.size),
    {
        let n = self.size;
        let ghost next = next_generation(self@.cells, n as int);
        let mut new_cells: Vec<bool> = Vec::new();
        let mut y: usize = 0;
        while y < n
            invariant
                self.wf(),
                self@ == old(self)@,
                n == self@.size,
                next == next_generation(self@.cells, n as int),
                y <= n,
                new_cells@.len() == y * n,
                forall|i: int| 0 <= i < new_cells@.len() ==> new_cells@[i] == next[i],
            decreases n - y,
        {
            let mut x: usize = 0;
            while x < n
                invariant
                    self.wf(),
                    self@ == old(self)@,
                    n == self@.size,
                    next == next_generation(self@.cells, n as int),
                    y < n,
                    x <= n,
                    new_cells@.len() == y * n + x,
                    forall|i: int| 0 <= i < new_cells@.len() ==> new_cells@[i] == next[i],
                decreases n - x,
            {
                let alive = self.get(x, y);
                let count = self.neighbors(x, y);
                let value = (alive && count == 2) || count == 3;
                proof {
                    lemma_index(n as int, x as int, y as int);
                }
                new_cells.push(value);
                x = x + 1;
            }
            proof {
                assert((y + 1) * n == y * n + n) by (nonlinear_arith);
            }
            y = y + 1;
        }
        proof {
            assert(new_cells@ =~= next);
        }
        self.prev_cells = self.cells.clone();
        self.cells = new_cells;
    }

    /// How the cell at `(x, y)` looks, from its previous and current state.
    pub fn classify(&self, x: usize, y: usize) -> (r: CellState)
        requires
            self.wf(),
            in_grid(self@.size, x as int, y as int),
        ensures
            r == classification(
                self@.previous[index_of(self@.size, x as int, y as int)],
                self@.cells[index_of(self@.size, x as int, y as int)],
            ),
    {
        proof {
            lemma_index(self@.size, x as int, y as int);
        }
        let index = y * self.size + x;
        let current = self.cells[index];
        let previous = self.prev_cells[index];
        match (previous, current) {
            (false, true) => CellState::Born,
            (true, false) => CellState::Died,
            (true, true) => CellState::Alive,
            (false, false) => CellState::Dead,
        }
    }
    /// Flips every cell of the square of half-width `radius` around
    /// `(cx, cy)` that lies on the grid; the rest of the square is skipped.
    pub fn toggle_square(&mut self, cx: usize, cy: usize, radius: usize)
        requires
            old(self).wf(),
            in_grid(old(self)@.size, cx as int, cy as int),
        ensures
            final(self).wf(),
            final(self)@.size == old(self)@.size,
            final(self)@.cells == square_toggled(
                old(self)@.cells,
                old(self)@.size,
                cx as int,
                cy as int,
                radius as int,
            ),
            final(self)@.previous == old(self)@.previous,
    {
        let n = self.size;
        let x_lo: usize = if cx >= radius {
            cx - radius
        } else {
            0
        };
        let x_hi: usize = if radius >= n - 1 - cx {
            n - 1
        } else {
            cx + radius
        };
        let y_lo: usize = if cy >= radius {
            cy - radius
        } else {
            0
        };
        let y_hi: usize = if radius >= n - 1 - cy {
            n - 1
        } else {
            cy + radius
        };
        let ghost start = self@.cells;
        let ghost (c, r) = (cx as int, cy as int);
        proof {
            assert forall|i: int| 0 <= i < start.len() implies swept(
                start,
                n as int,
                c,
                r,
                radius as int,
                0,
                y_lo as int,
            )[i] == start[i] by {
                lemma_coords(n as int, i);
            }
            assert(swept(start, n as int, c, r, radius as int, 0, y_lo as int) =~= start);
        }
        let mut y: usize = y_lo;
        while y <= y_hi
            invariant
                self.wf(),
                self@.size == n,
                self@.previous == old(self)@.previous,
                start == old(self)@.cells,
                c == cx,
                r == cy,
                y_lo <= y <= y_hi + 1,
                y_hi < n,
                x_lo <= x_hi < n,
                x_lo == 0 || x_lo == cx - radius,
                x_lo >= cx - radius,
                x_hi == n - 1 || x_hi == cx + radius,
                x_hi <= cx + radius,
                y_lo == 0 || y_lo == cy - radius,
                y_lo >= cy - radius,
                y_hi == n - 1 || y_hi == cy + radius,
                y_hi <= cy + radius,
                self@.cells == swept(start, n as int, c, r, radius as int, 0, y as int),
            decreases y_hi + 1 - y,
        {
            proof {
                assert forall|i: int| 0 <= i < start.len() implies swept(
                    start,
                    n as int,
                    c,
                    r,
                    radius as int,
                    x_lo as int,
                    y as int,
                )[i] == swept(start, n as int, c, r, radius as int, 0, y as int)[i] by {
                    lemma_coords(n as int, i);
                }
                assert(swept(start, n as int, c, r, radius as int, x_lo as int, y as int)
                    =~= swept(start, n as int, c, r, radius as int, 0, y as int));
            }
            let mut x: usize = x_lo;
            while x <= x_hi
                invariant
                    self.wf(),
                    self@.size == n,
                    self@.previous == old(self)@.previous,
                    start == old(self)@.cells,
                    c == cx,
                    r == cy,
                    y_lo <= y <= y_hi,
                    y_hi < n,
                    x_lo <= x <= x_hi + 1,
                    x_hi < n,
                    x_lo >= cx - radius,
                    x_hi <= cx + radius,
                    y_lo >= cy - radius,
                    y_hi <= cy + radius,
                    self@.cells == swept(start, n as int, c, r, radius as int, x as int, y as int),
                decreases x_hi + 1 - x,
            {
                let ghost before = self@.cells;
                self.toggle(x, y);
                proof {
                    lemma_index(n as int, x as int, y as int);
                    let after = swept(start, n as int, c, r, radius as int, x + 1, y as int);
                    assert forall|i: int| 0 <= i < start.len() implies after[i]
                        == self@.cells[i] by {
                        lemma_coords(n as int, i);
                    }
                    assert(self@.cells =~= after);
                }
                x = x + 1;
            }
            proof {
                assert forall|i: int| 0 <= i < start.len() implies swept(
                    start,
                    n as int,
                    c,
                    r,
                    radius as int,
                    x as int,
                    y as int,
                )[i] == swept(start, n as int, c, r, radius as int, 0, y + 1)[i] by {
                    lemma_coords(n as int, i);
                }
                assert(swept(start, n as int, c, r, radius as int, x as int, y as int)
                    =~= swept(start, n as int, c, r, radius as int, 0, y + 1));
            }
            y = y + 1;
        }
        proof {
            let full = square_toggled(start, n as int, c, r, radius as int);
            assert forall|i: int| 0 <= i < start.len() implies full[i] == self@.cells[i] by {
                lemma_coords(n as int, i);
            }
            assert(self@.cells =~= full);
        }
    }

    /// A click on grid position `(gx, gy)`: when it lies on the grid, flips the
    /// square of half-width `CLICK_RADIUS` around it and returns `true`;
    /// otherwise changes nothing and returns `false`.
    pub fn click(&mut self, gx: isize, gy: isize) -> (r: bool)
        requires
            old(self).wf(),
        ensures
            final(self).wf(),
            final(self)@.size == old(self)@.size,
            final(self)@.previous == old(self)@.previous,
            r == in_grid(old(self)@.size, gx as int, gy as int),
            r ==> final(self)@.cells == square_toggled(
                old(self)@.cells,
                old(self)@.size,
                gx as int,
                gy as int,
                CLICK_RADIUS as int,
            ),
            !r ==> final(self)@.cells == old(self)@.cells,
    {
        if gx >= 0 && gy >= 0 && (gx as usize) < self.size && (gy as usize) < self.size {
            self.toggle_square(gx as usize, gy as usize, CLICK_RADIUS);
            true
        } else {
            false
        }
    }

    /// Gives every cell a fresh random state, alive with odds `numerator` in
    /// `denominator`; the previous generation is left alone.
    pub fn randomize(&mut self, numerator: u32, denominator: u32)
        requires
            old(self).wf(),
            0 < denominator,
            numerator <= denominator,
        ensures
            final(self).wf(),
            final(self)@.size == old(self)@.size,
            final(self)@.previous == old(self)@.previous,
            numerator == 0 ==> final(self)@.cells == Seq::new(
                old(self)@.cells.len(),
                |i: int| false,
            ),
            numerator == denominator ==> final(self)@.cells == Seq::new(
                old(self)@.cells.len(),
                |i: int| true,
            ),
    {
        let total = self.cells.len();
        let mut i: usize = 0;
        while i < total
            invariant
                self.wf(),
                self@.size == old(self)@.size,
                self@.previous == old(self)@.previous,
                total == self@.cells.len(),
                0 < denominator,
                numerator <= denominator,
                i <= total,
                forall|j: int| 0 <= j < i && numerator == 0 ==> !self@.cells[j],
                forall|j: int| 0 <= j < i && numerator == denominator ==> self@.cells[j],
            decreases total - i,
        {
            let alive = gen_ratio(numerator, denominator);
            self.cells.set(i, alive);
            i = i + 1;
        }
        proof {
            if numerator == 0 {
                assert(self@.cells =~= Seq::new(old(self)@.cells.len(), |i: int| false));
            }
            if numerator == denominator {
                assert(self@.cells =~= Seq::new(old(self)@.cells.len(), |i: int| true));
            }
        }
    }
}

} // verus!
