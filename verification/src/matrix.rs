//! The maze data model: cells, the four cardinal moves, and the grid with
//! its free/blocked flags and its start and finish cells.

use vstd::prelude::*;
use rand::Rng;

verus! {

/// One of the four cardinal moves, enumerated in the fixed order
/// Up, Down, Left, Right that the search uses to break ties.
#[derive(Clone, Copy, Debug, PartialEq, Eq, Structural)]
pub enum Direction {
    Up,
    Down,
    Left,
    Right,
}

impl Direction {
    /// The change a move makes to the row coordinate.
    pub open spec fn row_delta(self) -> int {
        match self {
            Direction::Up => 1,
            Direction::Down => -1,
            Direction::Left => 0,
            Direction::Right => 0,
        }
    }

    /// The change a move makes to the column coordinate.
    pub open spec fn col_delta(self) -> int {
        match self {
            Direction::Up => 0,
            Direction::Down => 0,
            Direction::Left => -1,
            Direction::Right => 1,
        }
    }

    /// The move that undoes this one.
    pub open spec fn reverse_spec(self) -> Direction {
        match self {
            Direction::Up => Direction::Down,
            Direction::Down => Direction::Up,
            Direction::Left => Direction::Right,
            Direction::Right => Direction::Left,
        }
    }

    /// The four moves in their fixed enumeration order.
    pub fn get_dirs() -> (dirs: Vec<Direction>)
        ensures
            dirs@ =~= seq![Direction::Up, Direction::Down, Direction::Left, Direction::Right],
    {
        let mut dirs: Vec<Direction> = Vec::new();
        dirs.push(Direction::Up);
        dirs.push(Direction::Down);
        dirs.push(Direction::Left);
        dirs.push(Direction::Right);
        dirs
    }

    pub fn reverse(&self) -> (r: Direction)
        ensures
            r == self.reverse_spec(),
    {
        match self {
            Direction::Up => Direction::Down,
            Direction::Down => Direction::Up,
            Direction::Left => Direction::Right,
            Direction::Right => Direction::Left,
        }
    }
}

/// Reversing a move negates both of its coordinate deltas.
pub proof fn lemma_reverse_delta(d: Direction)
    ensures
        d.reverse_spec().row_delta() == -d.row_delta(),
        d.reverse_spec().col_delta() == -d.col_delta(),
        d.reverse_spec().reverse_spec() == d,
{
    match d {
        Direction::Up => {},
        Direction::Down => {},
        Direction::Left => {},
        Direction::Right => {},
    }
}

/// A grid address: a (row, column) pair of signed coordinates, so that
/// neighbours of edge cells are representable and bounds checks are total.
#[derive(Clone, Copy, Debug, Hash, PartialEq, Eq, Structural)]
pub struct Cell(pub isize, pub isize);

/// The cell one move away from `c` in direction `d`.
pub open spec fn neighbor(c: Cell, d: Direction) -> Cell {
    Cell((c.0 + d.row_delta()) as isize, (c.1 + d.col_delta()) as isize)
}

/// Two cells are adjacent when they are exactly one 4-directional move apart.
pub open spec fn adjacent(a: Cell, b: Cell) -> bool {
    ||| (b.0 == a.0 + 1 && b.1 == a.1)
    ||| (b.0 == a.0 - 1 && b.1 == a.1)
    ||| (b.0 == a.0 && b.1 == a.1 - 1)
    ||| (b.0 == a.0 && b.1 == a.1 + 1)
}

/// Any cell adjacent to `c` is `c`'s neighbour in one of the four directions.
pub proof fn lemma_adjacent_is_neighbor(c: Cell, b: Cell)
    requires
        adjacent(c, b),
    ensures
        b == neighbor(c, Direction::Up) || b == neighbor(c, Direction::Down) || b == neighbor(
            c,
            Direction::Left,
        ) || b == neighbor(c, Direction::Right),
{
    if b.0 == c.0 + 1 && b.1 == c.1 {
        assert(b == neighbor(c, Direction::Up));
    } else if b.0 == c.0 - 1 && b.1 == c.1 {
        assert(b == neighbor(c, Direction::Down));
    } else if b.0 == c.0 && b.1 == c.1 - 1 {
        assert(b == neighbor(c, Direction::Left));
    } else {
        assert(b == neighbor(c, Direction::Right));
    }
}

impl Cell {
    /// The cell reached by one move in direction `dir`.
    pub fn move_dir(&self, dir: Direction) -> (r: Cell)
        requires
            isize::MIN <= self.0 + dir.row_delta() <= isize::MAX,
            isize::MIN <= self.1 + dir.col_delta() <= isize::MAX,
        ensures
            r.0 == self.0 + dir.row_delta(),
            r.1 == self.1 + dir.col_delta(),
            r == neighbor(*self, dir),
            adjacent(*self, r),
    {
        match dir {
            Direction::Up => Cell(self.0 + 1, self.1),
            Direction::Down => Cell(self.0 - 1, self.1),
            Direction::Left => Cell(self.0, self.1 - 1),
            Direction::Right => Cell(self.0, self.1 + 1),
        }
    }
}

/// Relies on rand's `Rng::gen_ratio` on `thread_rng`: returns a random bool
/// that is true with probability `num / den`; panics only when `den == 0` or
/// `num > den`. Nothing is promised of the outcome.
#[verifier::external_body]
fn random_ratio(num: u32, den: u32) -> bool
    requires
        0 < den,
        num <= den,
{
    rand::thread_rng().gen_ratio(num, den)
}

/// Relies on rand's `Rng::gen_range` on `thread_rng` over `0..len`: returns a
/// uniformly random index below `len`; panics only on an empty range.
#[verifier::external_body]
fn random_below(len: usize) -> (r: usize)
    requires
        0 < len,
    ensures
        r < len,
{
    rand::thread_rng().gen_range(0..len)
}

/// The maze: a rectangle of free/blocked flags with a start and a finish,
/// immutable once constructed.
#[derive(Debug)]
pub struct Matrix {
    pub n_rows: usize,
    pub n_cols: usize,
    pub matrix: Vec<Vec<bool>>,
    pub start: Cell,
    pub finish: Cell,
}

impl Matrix {
    /// The flag table is a full `n_rows` by `n_cols` rectangle and the
    /// dimensions stay within the machine limits the search relies on.
    pub open spec fn dims_ok(self) -> bool {
        &&& 3 <= self.n_rows <= isize::MAX
        &&& 3 <= self.n_cols <= isize::MAX
        &&& self.n_rows * self.n_cols <= usize::MAX
        &&& self.matrix@.len() == self.n_rows
        &&& forall|r: int| 0 <= r < self.n_rows ==> (#[trigger] self.matrix@[r])@.len()
            == self.n_cols
    }

    /// Every cell on the outer border is blocked.
    pub open spec fn borders_blocked(self) -> bool {
        forall|r: int, c: int|
            0 <= r < self.n_rows && 0 <= c < self.n_cols && (r == 0 || r == self.n_rows - 1 || c
                == 0 || c == self.n_cols - 1) ==> !(#[trigger] self.matrix@[r]@[c])
    }

    /// `cell` lies within [0, n_rows) x [0, n_cols).
    pub open spec fn inside_spec(self, cell: Cell) -> bool {
        &&& 0 <= cell.0 < self.n_rows
        &&& 0 <= cell.1 < self.n_cols
    }

    /// `cell` is within bounds and its stored flag says free.
    pub open spec fn free_spec(self, cell: Cell) -> bool {
        self.inside_spec(cell) && self.matrix@[cell.0 as int]@[cell.1 as int]
    }

    /// The construction invariant: a full rectangle, blocked borders, and a
    /// free start and finish.
    pub open spec fn well_formed(self) -> bool {
        &&& self.dims_ok()
        &&& self.borders_blocked()
        &&& self.free_spec(self.start)
        &&& self.free_spec(self.finish)
    }

    /// Generate a random maze: border cells blocked, each interior cell free
    /// with probability 2/3, start and finish drawn independently and
    /// uniformly from the free cells. Returns `None` exactly when the random
    /// draw left no free cell at all, so that nothing can panic.
    pub fn new(n_rows: usize, n_cols: usize) -> (r: Option<Matrix>)
        requires
            3 <= n_rows <= isize::MAX,
            3 <= n_cols <= isize::MAX,
            n_rows * n_cols <= usize::MAX,
        ensures
            match r {
                Some(m) => m.well_formed() && m.n_rows == n_rows && m.n_cols == n_cols,
                None => true,
            },
    {
        let mut rows: Vec<Vec<bool>> = Vec::new();
        let mut free_cells: Vec<Cell> = Vec::new();
        let mut r_i: usize = 0;
        while r_i < n_rows
            invariant
                r_i <= n_rows,
                3 <= n_rows <= isize::MAX,
                3 <= n_cols <= isize::MAX,
                rows@.len() == r_i,
                forall|rr: int| 0 <= rr < r_i ==> (#[trigger] rows@[rr])@.len() == n_cols,
                forall|rr: int, cc: int|
                    0 <= rr < r_i && 0 <= cc < n_cols && (rr == 0 || rr == n_rows - 1 || cc == 0
                        || cc == n_cols - 1) ==> !(#[trigger] rows@[rr]@[cc]),
                forall|k: int|
                    0 <= k < free_cells@.len() ==> {
                        let fc = #[trigger] free_cells@[k];
                        &&& 0 <= fc.0 < r_i
                        &&& 0 <= fc.1 < n_cols
                        &&& rows@[fc.0 as int]@[fc.1 as int]
                    },
            decreases n_rows - r_i,
        {
            let mut row: Vec<bool> = Vec::new();
            let mut c_i: usize = 0;
            while c_i < n_cols
                invariant
                    r_i < n_rows,
                    c_i <= n_cols,
                    3 <= n_rows <= isize::MAX,
                    3 <= n_cols <= isize::MAX,
                    rows@.len() == r_i,
                    forall|rr: int| 0 <= rr < r_i ==> (#[trigger] rows@[rr])@.len() == n_cols,
                    forall|rr: int, cc: int|
                        0 <= rr < r_i && 0 <= cc < n_cols && (rr == 0 || rr == n_rows - 1 || cc
                            == 0 || cc == n_cols - 1) ==> !(#[trigger] rows@[rr]@[cc]),
                    row@.len() == c_i,
                    forall|cc: int|
                        0 <= cc < c_i && (r_i == 0 || r_i == n_rows - 1 || cc == 0 || cc == n_cols
                            - 1) ==> !(#[trigger] row@[cc]),
                    forall|k: int|
                        0 <= k < free_cells@.len() ==> {
                            let fc = #[trigger] free_cells@[k];
                            &&& 0 <= fc.0 <= r_i
                            &&& 0 <= fc.1 < n_cols
                            &&& (fc.0 < r_i ==> rows@[fc.0 as int]@[fc.1 as int])
                            &&& (fc.0 == r_i ==> fc.1 < c_i && row@[fc.1 as int])
                        },
                decreases n_cols - c_i,
            {
                let is_free: bool = if (r_i == 0 || r_i == n_rows - 1) || (c_i == 0 || c_i == n_cols
                    - 1) {
                    false
                } else {
                    random_ratio(2, 3)
                };
                if is_free {
                    free_cells.push(Cell(r_i as isize, c_i as isize));
                }
                row.push(is_free);
                c_i = c_i + 1;
            }
            rows.push(row);
            r_i = r_i + 1;
        }
        if free_cells.len() == 0 {
            return None;
        }
        let si: usize = random_below(free_cells.len());
        let fi: usize = random_below(free_cells.len());
        let start: Cell = free_cells[si];
        let finish: Cell = free_cells[fi];
        let m = Matrix { n_rows, n_cols, matrix: rows, start, finish };
        Some(m)
    }

    /// Build a maze from a fixed layout instead of random draws, so callers
    /// can fix the free/blocked cells and the start and finish exactly.
    /// Returns `Some` if and only if the pieces satisfy the construction
    /// invariant, and then the maze is exactly the given pieces.
    pub fn from_layout(
        n_rows: usize,
        n_cols: usize,
        rows: Vec<Vec<bool>>,
        start: Cell,
        finish: Cell,
    ) -> (r: Option<Matrix>)
        ensures
            ({
                let m = Matrix { n_rows, n_cols, matrix: rows, start, finish };
                match r {
                    Some(built) => built == m && m.well_formed(),
                    None => !m.well_formed(),
                }
            }),
    {
        if n_rows < 3 || n_cols < 3 {
            return None;
        }
        if n_rows > (isize::MAX as usize) || n_cols > (isize::MAX as usize) {
            return None;
        }
        if n_rows > usize::MAX / n_cols {
            proof {
                assert((usize::MAX as int / n_cols as int) * n_cols <= usize::MAX) by (nonlinear_arith)
                    requires
                        3 <= n_cols,
                ;
                assert(n_rows * n_cols > usize::MAX) by (nonlinear_arith)
                    requires
                        n_rows > usize::MAX as int / n_cols as int,
                        3 <= n_cols,
                ;
            }
            return None;
        }
        proof {
            assert(n_rows * n_cols <= usize::MAX) by (nonlinear_arith)
                requires
                    n_rows <= usize::MAX as int / n_cols as int,
                    3 <= n_cols,
            ;
        }
        if rows.len() != n_rows {
            return None;
        }
        let mut r_i: usize = 0;
        while r_i < n_rows
            invariant
                r_i <= n_rows,
                rows@.len() == n_rows,
                3 <= n_rows <= isize::MAX,
                3 <= n_cols <= isize::MAX,
                forall|rr: int| 0 <= rr < r_i ==> (#[trigger] rows@[rr])@.len() == n_cols,
                forall|rr: int, cc: int|
                    0 <= rr < r_i && 0 <= cc < n_cols && (rr == 0 || rr == n_rows - 1 || cc == 0
                        || cc == n_cols - 1) ==> !(#[trigger] rows@[rr]@[cc]),
            decreases n_rows - r_i,
        {
            let row: &Vec<bool> = &rows[r_i];
            if row.len() != n_cols {
                return None;
            }
            let mut c_i: usize = 0;
            while c_i < n_cols
                invariant
                    r_i < n_rows,
                    c_i <= n_cols,
                    rows@.len() == n_rows,
                    3 <= n_rows <= isize::MAX,
                    3 <= n_cols <= isize::MAX,
                    row == rows@[r_i as int],
                    row@.len() == n_cols,
                    forall|rr: int| 0 <= rr < r_i ==> (#[trigger] rows@[rr])@.len() == n_cols,
                    forall|rr: int, cc: int|
                        0 <= rr < r_i && 0 <= cc < n_cols && (rr == 0 || rr == n_rows - 1 || cc
                            == 0 || cc == n_cols - 1) ==> !(#[trigger] rows@[rr]@[cc]),
                    forall|cc: int|
                        0 <= cc < c_i && (r_i == 0 || r_i == n_rows - 1 || cc == 0 || cc == n_cols
                            - 1) ==> !(#[trigger] row@[cc]),
                decreases n_cols - c_i,
            {
                if (r_i == 0 || r_i == n_rows - 1) || (c_i == 0 || c_i == n_cols - 1) {
                    if row[c_i] {
                        return None;
                    }
                }
                c_i = c_i + 1;
            }
            r_i = r_i + 1;
        }
        let m = Matrix { n_rows, n_cols, matrix: rows, start, finish };
        assert(m.dims_ok());
        assert(m.borders_blocked());
        if !m.is_free_cell(start) {
            return None;
        }
        if !m.is_free_cell(finish) {
            return None;
        }
        Some(m)
    }

    /// In a well-formed maze every cell on the outer border is blocked, so
    /// a route can never leave through an edge.
    pub proof fn lemma_border_cell_blocked(self, c: Cell)
        requires
            self.well_formed(),
            self.inside_spec(c),
            c.0 == 0 || c.0 == self.n_rows - 1 || c.1 == 0 || c.1 == self.n_cols - 1,
        ensures
            !self.free_spec(c),
    {
        assert(!self.matrix@[c.0 as int]@[c.1 as int]);
    }

    pub fn inside(&self, cell: Cell) -> (r: bool)
        ensures
            r == self.inside_spec(cell),
    {
        cell.0 >= 0 && (cell.0 as usize) < self.n_rows && cell.1 >= 0 && (cell.1 as usize)
            < self.n_cols
    }

    /// Total free/blocked query: false for any out-of-bounds cell, and never
    /// a panic, whatever the cell.
    pub fn is_free_cell(&self, cell: Cell) -> (r: bool)
        ensures
            !self.inside_spec(cell) ==> r == false,
            self.dims_ok() ==> r == self.free_spec(cell),
    {
        if !self.inside(cell) {
            return false;
        }
        let r_idx = cell.0 as usize;
        let c_idx = cell.1 as usize;
        if r_idx < self.matrix.len() {
            let row: &Vec<bool> = &self.matrix[r_idx];
            if c_idx < row.len() {
                row[c_idx]
            } else {
                false
            }
        } else {
            false
        }
    }
}

} // verus!
