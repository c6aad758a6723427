//! The board: a grid of cells with mine placement, adjacency counts,
//! reveal with flood fill, flag toggling and the win condition.
//!
//! The grid is stored as one flat vector of `rows * cols` squares indexed by
//! `row * cols + col`. The specification speaks of the board through the
//! functions `cell`, `revealed`, `flagged`, `is_mine` and `adj_mines`, and of
//! the reveal cascade through `fill_reaches`, the reachability closure of the
//! zero-count cells.

use vstd::prelude::*;

use vstd::arithmetic::div_mod::lemma_fundamental_div_mod;
use vstd::arithmetic::div_mod::lemma_mod_division_less_than_divisor;
use vstd::arithmetic::div_mod::lemma_div_pos_is_pos;
use vstd::arithmetic::mul::lemma_mul_inequality;
use vstd::pervasive::VecAdditionalExecFns;

use crate::counting::bool_id;
use crate::counting::count_to;
use crate::counting::lemma_count_to_zero;
use crate::counting::lemma_count_to_agree;
use crate::counting::lemma_count_to_bounds;
use crate::counting::lemma_count_to_complement;
use crate::counting::lemma_count_to_update;

verus! {

/// A board cell: either a mine, or clear with the number of mines among its
/// up-to-eight grid neighbors.
#[derive(Clone, Copy, Debug, PartialEq, Eq, Structural)]
pub enum Cell {
    Mine,
    Clear(u8),
}

/// One square of the grid: the cell together with its per-square flags.
#[derive(Clone, Copy, Debug, PartialEq, Eq, Structural)]
pub struct Square {
    pub cell: Cell,
    pub revealed: bool,
    pub flagged: bool,
}

/// The error a constructor returns when the requested board cannot be played.
#[derive(Clone, Copy, Debug, PartialEq, Eq, Structural)]
pub enum BoardError {
    InvalidConfiguration,
}

/// What a reveal did to the board.
#[derive(Clone, Copy, Debug, PartialEq, Eq, Structural)]
pub enum RevealOutcome {
    /// The square was already revealed; nothing changed.
    NoOp,
    /// The square was revealed and the round goes on.
    Revealed,
    /// The square held a mine; the round is lost.
    HitMine,
    /// The square was revealed and every clear square is now revealed.
    Won,
}

/// Flat index of position `(r, c)` in a row-major grid with `cols` columns.
pub open spec fn flat(r: int, c: int, cols: int) -> int {
    r * cols + c
}

/// The flat index of an in-bounds position lies inside the grid.
pub proof fn lemma_flat_range(r: int, c: int, rows: int, cols: int)
    by (nonlinear_arith)
    requires
        0 <= r < rows,
        0 <= c < cols,
    ensures
        0 <= flat(r, c, cols) < rows * cols,
{
}

/// Flattening is injective on in-bounds column indices.
pub proof fn lemma_flat_injective(r1: int, c1: int, r2: int, c2: int, cols: int)
    by (nonlinear_arith)
    requires
        0 <= c1 < cols,
        0 <= c2 < cols,
        flat(r1, c1, cols) == flat(r2, c2, cols),
    ensures
        r1 == r2 && c1 == c2,
{
}

/// Flat index, computed without overflow.
fn flat_idx(r: usize, c: usize, rows: usize, cols: usize) -> (k: usize)
    requires
        r < rows,
        c < cols,
        rows * cols <= usize::MAX,
    ensures
        k == flat(r as int, c as int, cols as int),
        k < rows * cols,
{
    proof {
        lemma_flat_range(r as int, c as int, rows as int, cols as int);
    }
    r * cols + c
}

/// 1 for true, 0 for false: the indicator used to sum neighbor mines.
pub open spec fn ind(b: bool) -> int {
    if b {
        1int
    } else {
        0int
    }
}

/// Whether a mine layout has a mine at `(r, c)`; false out of bounds.
pub open spec fn layout_mine(lay: Seq<bool>, rows: int, cols: int, r: int, c: int) -> bool {
    0 <= r < rows && 0 <= c < cols && lay[flat(r, c, cols)]
}

/// Number of mines a layout holds among the eight neighbors of `(r, c)`,
/// clipped to the grid.
pub open spec fn layout_adj(lay: Seq<bool>, rows: int, cols: int, r: int, c: int) -> int {
    ind(layout_mine(lay, rows, cols, r - 1, c - 1)) + ind(layout_mine(lay, rows, cols, r - 1, c))
        + ind(layout_mine(lay, rows, cols, r - 1, c + 1)) + ind(
        layout_mine(lay, rows, cols, r, c - 1),
    ) + ind(layout_mine(lay, rows, cols, r, c + 1)) + ind(
        layout_mine(lay, rows, cols, r + 1, c - 1),
    ) + ind(layout_mine(lay, rows, cols, r + 1, c)) + ind(
        layout_mine(lay, rows, cols, r + 1, c + 1),
    )
}

/// The adjacency count is between 0 and 8.
pub proof fn lemma_layout_adj_bounds(lay: Seq<bool>, rows: int, cols: int, r: int, c: int)
    ensures
        0 <= layout_adj(lay, rows, cols, r, c) <= 8,
{
}

/// An in-bounds flat index decomposes into its row and column.
proof fn lemma_unflat(k: int, rows: int, cols: int)
    requires
        0 < rows,
        0 < cols,
        0 <= k < rows * cols,
    ensures
        0 <= k % cols < cols,
        0 <= k / cols < rows,
        k == flat(k / cols, k % cols, cols),
{
    lemma_fundamental_div_mod(k, cols);
    lemma_mod_division_less_than_divisor(k, cols);
    lemma_div_pos_is_pos(k, cols);
    assert(cols * (k / cols) == (k / cols) * cols) by (nonlinear_arith);
    if k / cols >= rows {
        lemma_mul_inequality(rows, k / cols, cols);
        assert(false);
    }
}

/// Relies on rand::random: one word drawn from the thread-local generator.
/// Nothing is promised of the value.
#[verifier::external_body]
fn random_word() -> u64 {
    rand::random::<u64>()
}

/// Counts the mines a layout holds among the eight neighbors of `(r, c)`.
fn count_neighbors(lay: &Vec<bool>, rows: usize, cols: usize, r: usize, c: usize) -> (cnt: u8)
    requires
        lay@.len() == rows * cols,
        rows * cols <= usize::MAX,
        r < rows,
        c < cols,
    ensures
        cnt as int == layout_adj(lay@, rows as int, cols as int, r as int, c as int),
{
    let mut cnt: u8 = 0;
    if r > 0 && c > 0 && lay[flat_idx(r - 1, c - 1, rows, cols)] {
        cnt = cnt + 1;
    }
    if r > 0 && lay[flat_idx(r - 1, c, rows, cols)] {
        cnt = cnt + 1;
    }
    if r > 0 && c + 1 < cols && lay[flat_idx(r - 1, c + 1, rows, cols)] {
        cnt = cnt + 1;
    }
    if c > 0 && lay[flat_idx(r, c - 1, rows, cols)] {
        cnt = cnt + 1;
    }
    if c + 1 < cols && lay[flat_idx(r, c + 1, rows, cols)] {
        cnt = cnt + 1;
    }
    if r + 1 < rows && c > 0 && lay[flat_idx(r + 1, c - 1, rows, cols)] {
        cnt = cnt + 1;
    }
    if r + 1 < rows && lay[flat_idx(r + 1, c, rows, cols)] {
        cnt = cnt + 1;
    }
    if r + 1 < rows && c + 1 < cols && lay[flat_idx(r + 1, c + 1, rows, cols)] {
        cnt = cnt + 1;
    }
    cnt
}

/// Two positions that differ by at most one in each coordinate, and are not
/// the same: the eight-way neighborhood.
pub open spec fn adjacent(r1: int, c1: int, r2: int, c2: int) -> bool {
    (r1 != r2 || c1 != c2) && -1 <= r1 - r2 <= 1 && -1 <= c1 - c2 <= 1
}

/// Two boards with the same dimensions, mine total and cells, compared
/// position by position; the reveal and flag bits are free to differ.
pub open spec fn same_board(a: Matrix, b: Matrix) -> bool {
    &&& b.nrows() == a.nrows()
    &&& b.ncols() == a.ncols()
    &&& b.nmines() == a.nmines()
    &&& b.grid().len() == a.grid().len()
    &&& forall|r: int, c: int| a.in_bounds(r, c) ==> #[trigger] b.cell(r, c) == a.cell(r, c)
}

/// The square a finished grid must hold at `(r, c)` for the layout `lay`:
/// the right cell, not revealed, not flagged.
pub open spec fn built_cell_ok(
    lay: Seq<bool>,
    data: Seq<Square>,
    rows: int,
    cols: int,
    r: int,
    c: int,
) -> bool {
    data[flat(r, c, cols)] == (Square {
        cell: if lay[flat(r, c, cols)] {
            Cell::Mine
        } else {
            Cell::Clear(layout_adj(lay, rows, cols, r, c) as u8)
        },
        revealed: false,
        flagged: false,
    })
}

/// The predicate counted to relate a grid to its mine layout.
pub open spec fn sq_is_mine() -> spec_fn(Square) -> bool {
    |sq: Square| sq.cell is Mine
}

/// The predicate counted for the win condition.
pub open spec fn sq_is_revealed() -> spec_fn(Square) -> bool {
    |sq: Square| sq.revealed
}

/// The board of one round.
pub struct Matrix {
    rows: usize,
    cols: usize,
    mines: usize,
    data: Vec<Square>,
}

impl Matrix {
    /// Number of rows, as a mathematical integer.
    pub closed spec fn nrows(self) -> int {
        self.rows as int
    }

    /// Number of columns, as a mathematical integer.
    pub closed spec fn ncols(self) -> int {
        self.cols as int
    }

    /// Configured number of mines, as a mathematical integer.
    pub closed spec fn nmines(self) -> int {
        self.mines as int
    }

    /// The grid as a sequence of squares in row-major order.
    pub closed spec fn grid(self) -> Seq<Square> {
        self.data@
    }

    /// Total number of squares.
    pub open spec fn area(self) -> int {
        self.nrows() * self.ncols()
    }

    /// Whether `(r, c)` lies on the grid.
    pub open spec fn in_bounds(self, r: int, c: int) -> bool {
        0 <= r < self.nrows() && 0 <= c < self.ncols()
    }

    /// The square at `(r, c)`.
    pub open spec fn sq(self, r: int, c: int) -> Square {
        self.grid()[flat(r, c, self.ncols())]
    }

    /// The cell at `(r, c)`.
    pub open spec fn cell(self, r: int, c: int) -> Cell {
        self.sq(r, c).cell
    }

    /// Whether the in-bounds square at `(r, c)` is revealed.
    pub open spec fn revealed(self, r: int, c: int) -> bool {
        self.in_bounds(r, c) && self.sq(r, c).revealed
    }

    /// Whether the in-bounds square at `(r, c)` is flagged.
    pub open spec fn flagged(self, r: int, c: int) -> bool {
        self.in_bounds(r, c) && self.sq(r, c).flagged
    }

    /// Whether the in-bounds square at `(r, c)` holds a mine.
    pub open spec fn is_mine(self, r: int, c: int) -> bool {
        self.in_bounds(r, c) && self.cell(r, c) is Mine
    }

    /// The mine layout of the board: one boolean per square.
    pub closed spec fn mines_layout(self) -> Seq<bool> {
        Seq::new(self.grid().len(), |k: int| self.grid()[k].cell is Mine)
    }

    /// Number of mines among the eight grid neighbors of `(r, c)`.
    pub open spec fn adj_mines(self, r: int, c: int) -> int {
        layout_adj(self.mines_layout(), self.nrows(), self.ncols(), r, c)
    }

    /// Well-formedness: the dimensions are positive, the grid has one square
    /// per position, exactly `nmines` squares hold a mine and fewer than the
    /// whole grid, every clear cell carries its exact neighbor-mine count,
    /// and no revealed square is flagged.
    pub open spec fn wf(self) -> bool {
        &&& self.nrows() >= 1
        &&& self.ncols() >= 1
        &&& self.area() <= usize::MAX
        &&& self.grid().len() == self.area()
        &&& self.nmines() < self.area()
        &&& count_to(self.grid(), sq_is_mine(), self.area()) == self.nmines()
        &&& forall|r: int, c: int|
            self.in_bounds(r, c) ==> (#[trigger] self.cell(r, c) matches Cell::Clear(n) ==> n
                as int == self.adj_mines(r, c))
        &&& forall|i: int|
            0 <= i < self.grid().len() ==> ((#[trigger] self.grid()[i]).revealed
                ==> !self.grid()[i].flagged)
    }

    /// The layout has a mine at an in-bounds position exactly when the board
    /// does.
    pub proof fn lemma_layout_is_mine(self, r: int, c: int)
        requires
            self.grid().len() == self.area(),
        ensures
            layout_mine(self.mines_layout(), self.nrows(), self.ncols(), r, c) == self.is_mine(
                r,
                c,
            ),
    {
        if self.in_bounds(r, c) {
            lemma_flat_range(r, c, self.nrows(), self.ncols());
        }
    }

    /// Grid dimensions, `(rows, cols)`.
    pub fn size(&self) -> (s: (usize, usize))
        ensures
            s.0 == self.nrows(),
            s.1 == self.ncols(),
    {
        (self.rows, self.cols)
    }

    /// Number of rows.
    pub fn rows(&self) -> (r: usize)
        ensures
            r == self.nrows(),
    {
        self.rows
    }

    /// Number of columns.
    pub fn cols(&self) -> (c: usize)
        ensures
            c == self.ncols(),
    {
        self.cols
    }

    /// Configured number of mines.
    pub fn mine_count(&self) -> (m: usize)
        ensures
            m == self.nmines(),
    {
        self.mines
    }

    /// The cell at an in-bounds position.
    pub fn cell_at(&self, row: usize, col: usize) -> (c: Cell)
        requires
            self.wf(),
            row < self.nrows(),
            col < self.ncols(),
        ensures
            c == self.cell(row as int, col as int),
    {
        let k = flat_idx(row, col, self.rows, self.cols);
        self.data[k].cell
    }

    /// Whether the square at an in-bounds position is revealed.
    pub fn is_revealed(&self, row: usize, col: usize) -> (b: bool)
        requires
            self.wf(),
            row < self.nrows(),
            col < self.ncols(),
        ensures
            b == self.revealed(row as int, col as int),
    {
        let k = flat_idx(row, col, self.rows, self.cols);
        self.data[k].revealed
    }

    /// Whether the square at an in-bounds position is flagged.
    pub fn is_flagged(&self, row: usize, col: usize) -> (b: bool)
        requires
            self.wf(),
            row < self.nrows(),
            col < self.ncols(),
        ensures
            b == self.flagged(row as int, col as int),
    {
        let k = flat_idx(row, col, self.rows, self.cols);
        self.data[k].flagged
    }

    /// Every clear square is revealed: the win condition.
    pub open spec fn all_clear_revealed(self) -> bool {
        forall|i: int|
            0 <= i < self.grid().len() ==> (!(#[trigger] self.grid()[i].cell is Mine)
                ==> self.grid()[i].revealed)
    }

    /// Number of revealed squares.
    pub fn revealed_count(&self) -> (n: usize)
        requires
            self.wf(),
        ensures
            n == count_to(self.grid(), sq_is_revealed(), self.area()),
    {
        let mut n: usize = 0;
        let mut k: usize = 0;
        let len: usize = self.data.len();
        while k < len
            invariant
                self.wf(),
                len == self.grid().len(),
                k <= len,
                n == count_to(self.grid(), sq_is_revealed(), k as int),
            decreases len - k,
        {
            proof {
                lemma_count_to_bounds(self.grid(), sq_is_revealed(), k as int);
            }
            if self.data[k].revealed {
                n = n + 1;
            }
            k = k + 1;
        }
        n
    }

    /// Whether every clear square is revealed.
    pub fn is_finished(&self) -> (b: bool)
        requires
            self.wf(),
        ensures
            b == self.all_clear_revealed(),
    {
        let mut k: usize = 0;
        let len: usize = self.data.len();
        while k < len
            invariant
                self.wf(),
                len == self.grid().len(),
                k <= len,
                forall|i: int|
                    0 <= i < k ==> (!(#[trigger] self.grid()[i].cell is Mine)
                        ==> self.grid()[i].revealed),
            decreases len - k,
        {
            let sq = self.data[k];
            let mine = match sq.cell {
                Cell::Mine => true,
                Cell::Clear(_) => false,
            };
            if !mine && !sq.revealed {
                return false;
            }
            k = k + 1;
        }
        true
    }

    /// No square is revealed or flagged: a board nobody has played yet.
    pub open spec fn all_hidden(self) -> bool {
        forall|i: int|
            0 <= i < self.grid().len() ==> !(#[trigger] self.grid()[i]).revealed
                && !self.grid()[i].flagged
    }

    /// On a well-sized hidden board, every position reads as neither revealed
    /// nor flagged.
    pub proof fn lemma_all_hidden(self, r: int, c: int)
        requires
            self.grid().len() == self.area(),
            self.all_hidden(),
        ensures
            !self.revealed(r, c),
            !self.flagged(r, c),
    {
        if self.in_bounds(r, c) {
            lemma_flat_range(r, c, self.nrows(), self.ncols());
        }
    }

    /// Builds the grid for a given mine layout: every square hidden, mines
    /// where the layout says, every clear cell with its exact neighbor count.
    fn assemble(rows: usize, cols: usize, mines: usize, lay: &Vec<bool>) -> (m: Matrix)
        requires
            1 <= rows,
            1 <= cols,
            rows * cols <= usize::MAX,
            lay@.len() == rows * cols,
            count_to(lay@, bool_id(), rows * cols) == mines,
            mines < rows * cols,
        ensures
            m.wf(),
            m.nrows() == rows,
            m.ncols() == cols,
            m.nmines() == mines,
            m.mines_layout() == lay@,
            m.all_hidden(),
    {
        let n: usize = rows * cols;
        let mut data: Vec<Square> = Vec::new();
        let mut k: usize = 0;
        while k < n
            invariant
                k <= n,
                n == rows * cols,
                1 <= rows,
                1 <= cols,
                rows * cols <= usize::MAX,
                lay@.len() == n,
                data@.len() == k,
                forall|i: int| 0 <= i < k ==> (#[trigger] data@[i].cell is Mine) == lay@[i],
                forall|i: int|
                    0 <= i < k ==> !(#[trigger] data@[i]).revealed && !data@[i].flagged,
                forall|r2: int, c2: int|
                    0 <= r2 < rows && 0 <= c2 < cols && flat(r2, c2, cols as int) < k
                        ==> #[trigger] built_cell_ok(lay@, data@, rows as int, cols as int, r2, c2),
            decreases n - k,
        {
            let r: usize = k / cols;
            let c: usize = k % cols;
            proof {
                lemma_unflat(k as int, rows as int, cols as int);
            }
            let sq = if lay[k] {
                Square { cell: Cell::Mine, revealed: false, flagged: false }
            } else {
                Square {
                    cell: Cell::Clear(count_neighbors(lay, rows, cols, r, c)),
                    revealed: false,
                    flagged: false,
                }
            };
            let ghost data0 = data@;
            data.push(sq);
            proof {
                assert forall|r2: int, c2: int|
                    0 <= r2 < rows && 0 <= c2 < cols && flat(r2, c2, cols as int) < k + 1 implies #[trigger] built_cell_ok(
                    lay@,
                    data@,
                    rows as int,
                    cols as int,
                    r2,
                    c2,
                ) by {
                    lemma_flat_range(r2, c2, rows as int, cols as int);
                    lemma_layout_adj_bounds(lay@, rows as int, cols as int, r2, c2);
                    let k2: int = flat(r2, c2, cols as int);
                    if k2 < k {
                        assert(built_cell_ok(lay@, data0, rows as int, cols as int, r2, c2));
                        assert(data@[k2] == data0[k2]);
                    } else {
                        lemma_flat_injective(r2, c2, r as int, c as int, cols as int);
                        assert(r2 == r as int && c2 == c as int);
                        assert(data@[k as int] == sq);
                    }
                }
            }
            k = k + 1;
        }
        let m = Matrix { rows, cols, mines, data };
        proof {
            lemma_count_to_agree(m.grid(), sq_is_mine(), lay@, bool_id(), n as int);
            assert(m.mines_layout() =~= lay@);
            assert forall|r2: int, c2: int| m.in_bounds(r2, c2) implies (#[trigger] m.cell(r2, c2)
                matches Cell::Clear(q) ==> q as int == m.adj_mines(r2, c2)) by {
                lemma_flat_range(r2, c2, rows as int, cols as int);
                lemma_layout_adj_bounds(lay@, rows as int, cols as int, r2, c2);
                assert(built_cell_ok(lay@, m.grid(), rows as int, cols as int, r2, c2));
            }
            assert forall|r2: int, c2: int| !(#[trigger] m.revealed(r2, c2)) by {
                if m.in_bounds(r2, c2) {
                    lemma_flat_range(r2, c2, rows as int, cols as int);
                }
            }
        }
        m
    }

    /// Builds a board whose mines lie exactly where `lay` holds true, with
    /// `rows * cols` entries in row-major order. Fails with
    /// `InvalidConfiguration` when a dimension is zero, the grid size does
    /// not fit the machine, the layout has the wrong length, or the layout
    /// leaves no clear square.
    pub fn from_layout(rows: usize, cols: usize, lay: &Vec<bool>) -> (res: Result<
        Matrix,
        BoardError,
    >)
        ensures
            res is Ok <==> (1 <= rows && 1 <= cols && rows * cols <= usize::MAX && lay@.len()
                == rows * cols && count_to(lay@, bool_id(), lay@.len() as int) < rows * cols),
            res matches Ok(m) ==> {
                &&& m.wf()
                &&& m.nrows() == rows
                &&& m.ncols() == cols
                &&& m.nmines() == count_to(lay@, bool_id(), lay@.len() as int)
                &&& m.mines_layout() == lay@
                &&& m.all_hidden()
            },
    {
        if rows == 0 || cols == 0 {
            return Err(BoardError::InvalidConfiguration);
        }
        let n: usize = match rows.checked_mul(cols) {
            Some(v) => v,
            None => {
                return Err(BoardError::InvalidConfiguration);
            },
        };
        if lay.len() != n {
            return Err(BoardError::InvalidConfiguration);
        }
        let mut mines: usize = 0;
        let mut k: usize = 0;
        while k < n
            invariant
                k <= n,
                lay@.len() == n,
                mines == count_to(lay@, bool_id(), k as int),
                0 <= mines <= k,
            decreases n - k,
        {
            if lay[k] {
                mines = mines + 1;
            }
            k = k + 1;
        }
        if mines >= n {
            return Err(BoardError::InvalidConfiguration);
        }
        Ok(Self::assemble(rows, cols, mines, lay))
    }

    /// Builds a fresh board of `size.0` rows by `size.1` columns with
    /// `size.2` mines placed at distinct positions chosen by the random
    /// generator. Fails with `InvalidConfiguration` when a dimension is
    /// zero, the grid size does not fit the machine, or the mines would
    /// fill the whole grid.
    pub fn new(size: (usize, usize, usize)) -> (res: Result<Matrix, BoardError>)
        ensures
            res is Ok <==> (1 <= size.0 && 1 <= size.1 && size.0 * size.1 <= usize::MAX && size.2
                < size.0 * size.1),
            res matches Ok(m) ==> {
                &&& m.wf()
                &&& m.nrows() == size.0
                &&& m.ncols() == size.1
                &&& m.nmines() == size.2
                &&& m.all_hidden()
            },
    {
        let (rows, cols, mines): (usize, usize, usize) = size;
        if rows == 0 || cols == 0 {
            return Err(BoardError::InvalidConfiguration);
        }
        let n: usize = match rows.checked_mul(cols) {
            Some(v) => v,
            None => {
                return Err(BoardError::InvalidConfiguration);
            },
        };
        if mines >= n {
            return Err(BoardError::InvalidConfiguration);
        }
        // A partial shuffle of the position indices: after `mines` rounds the
        // first `mines` entries are distinct positions drawn without
        // replacement.
        let mut perm: Vec<usize> = Vec::new();
        let mut k: usize = 0;
        while k < n
            invariant
                k <= n,
                perm@.len() == k,
                forall|i: int| 0 <= i < k ==> #[trigger] perm@[i] == i,
            decreases n - k,
        {
            perm.push(k);
            k = k + 1;
        }
        let mut i: usize = 0;
        while i < mines
            invariant
                i <= mines,
                mines < n,
                perm@.len() == n,
                forall|t: int| 0 <= t < n ==> 0 <= #[trigger] perm@[t] < n,
                forall|t1: int, t2: int|
                    0 <= t1 < t2 < n ==> #[trigger] perm@[t1] != #[trigger] perm@[t2],
            decreases mines - i,
        {
            let span: usize = n - i;
            let offset: usize = (random_word() % (span as u64)) as usize;
            let j: usize = i + offset;
            let a: usize = perm[i];
            let b: usize = perm[j];
            perm.set(i, b);
            perm.set(j, a);
            proof {
                assert forall|t1: int, t2: int| 0 <= t1 < t2 < n implies #[trigger] perm@[t1]
                    != #[trigger] perm@[t2] by {}
            }
            i = i + 1;
        }
        // Mark the chosen positions in the layout.
        let mut lay: Vec<bool> = Vec::new();
        k = 0;
        while k < n
            invariant
                k <= n,
                lay@.len() == k,
                forall|i2: int| 0 <= i2 < k ==> !#[trigger] lay@[i2],
            decreases n - k,
        {
            lay.push(false);
            k = k + 1;
        }
        proof {
            lemma_count_to_zero(lay@, bool_id(), n as int);
        }
        let mut t: usize = 0;
        while t < mines
            invariant
                t <= mines,
                mines < n,
                lay@.len() == n,
                perm@.len() == n,
                forall|q: int| 0 <= q < n ==> 0 <= #[trigger] perm@[q] < n,
                forall|t1: int, t2: int|
                    0 <= t1 < t2 < n ==> #[trigger] perm@[t1] != #[trigger] perm@[t2],
                count_to(lay@, bool_id(), n as int) == t,
                forall|k2: int|
                    0 <= k2 < n && #[trigger] lay@[k2] ==> exists|j2: int|
                        0 <= j2 < t && perm@[j2] == k2,
            decreases mines - t,
        {
            let p: usize = perm[t];
            proof {
                if lay@[p as int] {
                    let j2 = choose|j2: int| 0 <= j2 < t && perm@[j2] == p as int;
                    assert(perm@[j2] != perm@[t as int]);
                    assert(false);
                }
                lemma_count_to_update(lay@, bool_id(), p as int, true, n as int);
            }
            lay.set(p, true);
            t = t + 1;
        }
        Ok(Self::assemble(rows, cols, mines, &lay))
    }

    /// A fill path: a non-empty chain of in-bounds positions starting at
    /// `(sr, sc)`, stepping through the eight-way neighborhood, in which
    /// every position except possibly the last is a zero-count clear cell.
    pub open spec fn fill_path(self, path: Seq<(int, int)>, sr: int, sc: int) -> bool {
        &&& path.len() >= 1
        &&& path[0] == (sr, sc)
        &&& forall|i: int|
            0 <= i < path.len() ==> self.in_bounds((#[trigger] path[i]).0, path[i].1)
        &&& forall|i: int|
            0 <= i < path.len() - 1 ==> adjacent(
                (#[trigger] path[i]).0,
                path[i].1,
                path[i + 1].0,
                path[i + 1].1,
            )
        &&& forall|i: int|
            0 <= i < path.len() - 1 ==> self.cell((#[trigger] path[i]).0, path[i].1)
                == Cell::Clear(0u8)
    }

    /// The reveal cascade from `(sr, sc)` reaches `(r, c)`: some fill path
    /// ends there. Revealing `(sr, sc)` uncovers exactly these positions.
    pub open spec fn fill_reaches(self, sr: int, sc: int, r: int, c: int) -> bool {
        exists|path: Seq<(int, int)>|
            #[trigger] self.fill_path(path, sr, sc) && path.last() == (r, c)
    }

    /// The cascade reaches its own start.
    pub proof fn lemma_reaches_self(self, sr: int, sc: int)
        requires
            self.in_bounds(sr, sc),
        ensures
            self.fill_reaches(sr, sc, sr, sc),
    {
        let path: Seq<(int, int)> = seq![(sr, sc)];
        assert(self.fill_path(path, sr, sc));
        assert(path.last() == (sr, sc));
    }

    /// From a reached zero-count cell the cascade also reaches every
    /// in-bounds neighbor.
    pub proof fn lemma_reaches_step(self, sr: int, sc: int, r: int, c: int, r2: int, c2: int)
        requires
            self.fill_reaches(sr, sc, r, c),
            self.cell(r, c) == Cell::Clear(0u8),
            self.in_bounds(r2, c2),
            adjacent(r, c, r2, c2),
        ensures
            self.fill_reaches(sr, sc, r2, c2),
    {
        let path = choose|path: Seq<(int, int)>|
            #[trigger] self.fill_path(path, sr, sc) && path.last() == (r, c);
        let path2 = path.push((r2, c2));
        assert forall|i: int| 0 <= i < path2.len() implies self.in_bounds(
            (#[trigger] path2[i]).0,
            path2[i].1,
        ) by {
            if i < path.len() {
                assert(path2[i] == path[i]);
            }
        }
        assert forall|i: int| 0 <= i < path2.len() - 1 implies adjacent(
            (#[trigger] path2[i]).0,
            path2[i].1,
            path2[i + 1].0,
            path2[i + 1].1,
        ) by {
            assert(path2[i] == path[i]);
            if i < path.len() - 1 {
                assert(path2[i + 1] == path[i + 1]);
            } else {
                assert(path[i] == (r, c));
            }
        }
        assert forall|i: int| 0 <= i < path2.len() - 1 implies self.cell(
            (#[trigger] path2[i]).0,
            path2[i].1,
        ) == Cell::Clear(0u8) by {
            assert(path2[i] == path[i]);
            if i == path.len() - 1 {
                assert(path[i] == (r, c));
            }
        }
        assert(self.fill_path(path2, sr, sc));
        assert(path2.last() == (r2, c2));
    }

    /// From a start that is not a zero-count clear cell the cascade reaches
    /// nothing but the start itself.
    pub proof fn lemma_reaches_singleton(self, sr: int, sc: int)
        requires
            self.in_bounds(sr, sc),
            self.cell(sr, sc) != Cell::Clear(0u8),
        ensures
            forall|r: int, c: int|
                #[trigger] self.fill_reaches(sr, sc, r, c) <==> (r == sr && c == sc),
    {
        assert forall|r: int, c: int|
            #[trigger] self.fill_reaches(sr, sc, r, c) <==> (r == sr && c == sc) by {
            if self.fill_reaches(sr, sc, r, c) {
                let path = choose|path: Seq<(int, int)>|
                    #[trigger] self.fill_path(path, sr, sc) && path.last() == (r, c);
                if path.len() >= 2 {
                    assert(self.cell((path[0]).0, (path[0]).1) == Cell::Clear(0u8));
                    assert(false);
                }
                assert(path.last() == path[0]);
            }
            if r == sr && c == sc {
                self.lemma_reaches_self(sr, sc);
            }
        }
    }
}

/// `b` was obtained from `a` by changing reveal or flag bits only.
spec fn status_only(a: Matrix, b: Matrix) -> bool {
    &&& b.nrows() == a.nrows()
    &&& b.ncols() == a.ncols()
    &&& b.nmines() == a.nmines()
    &&& b.grid().len() == a.grid().len()
    &&& forall|i: int| 0 <= i < a.grid().len() ==> (#[trigger] b.grid()[i]).cell == a.grid()[i].cell
}

/// Every queue entry lies on the grid of `g` and is marked in `vis`.
spec fn queue_ok(g: Matrix, q: Seq<(usize, usize)>, vis: Seq<bool>) -> bool {
    forall|j: int|
        0 <= j < q.len() ==> ((#[trigger] q[j]).0 < g.nrows() && q[j].1 < g.ncols() && vis[flat(
            q[j].0 as int,
            q[j].1 as int,
            g.ncols(),
        )])
}

/// Every marked position is reached by the cascade from `(sr, sc)`.
spec fn vis_sound(g: Matrix, vis: Seq<bool>, sr: int, sc: int) -> bool {
    forall|r: int, c: int|
        (g.in_bounds(r, c) && #[trigger] vis[flat(r, c, g.ncols())]) ==> g.fill_reaches(
            sr,
            sc,
            r,
            c,
        )
}

/// Every marked position occurs somewhere in the queue.
spec fn vis_member(g: Matrix, q: Seq<(usize, usize)>, vis: Seq<bool>) -> bool {
    forall|r: int, c: int|
        (g.in_bounds(r, c) && #[trigger] vis[flat(r, c, g.ncols())]) ==> exists|j: int|
            0 <= j < q.len() && (#[trigger] q[j]).0 == r && q[j].1 == c
}

/// All in-bounds neighbors of `(r, c)` are marked in `vis`.
spec fn nb_visited(g: Matrix, vis: Seq<bool>, r: int, c: int) -> bool {
    forall|r2: int, c2: int|
        (g.in_bounds(r2, c2) && adjacent(r, c, r2, c2)) ==> #[trigger] vis[flat(
            r2,
            c2,
            g.ncols(),
        )]
}

/// Every marked zero-count cell has all its neighbors marked.
spec fn vis_closed(g: Matrix, vis: Seq<bool>) -> bool {
    forall|r: int, c: int|
        (g.in_bounds(r, c) && #[trigger] vis[flat(r, c, g.ncols())] && g.cell(r, c)
            == Cell::Clear(0u8)) ==> nb_visited(g, vis, r, c)
}

/// Every marked position is either still waiting in the queue at `qi` or
/// beyond, or has been processed: it is revealed in `b`, and if it is a
/// zero-count cell all its neighbors are marked.
spec fn vis_settled(g: Matrix, b: Matrix, q: Seq<(usize, usize)>, vis: Seq<bool>, qi: int) -> bool {
    forall|r: int, c: int|
        (g.in_bounds(r, c) && #[trigger] vis[flat(r, c, g.ncols())]) ==> ((exists|j: int|
            qi <= j < q.len() && (#[trigger] q[j]).0 == r && q[j].1 == c) || (b.revealed(r, c) && (
        g.cell(r, c) == Cell::Clear(0u8) ==> nb_visited(g, vis, r, c))))
}

/// The eight neighbor offsets, in the order the fill explores them.
spec fn delta_of(d: int) -> (int, int) {
    if d == 0 {
        (-1int, -1int)
    } else if d == 1 {
        (-1int, 0int)
    } else if d == 2 {
        (-1int, 1int)
    } else if d == 3 {
        (0int, -1int)
    } else if d == 4 {
        (0int, 1int)
    } else if d == 5 {
        (1int, -1int)
    } else if d == 6 {
        (1int, 0int)
    } else {
        (1int, 1int)
    }
}

/// The first `d` neighbor directions of `(r, c)` lead out of bounds or to a
/// marked position.
spec fn nb_visited_upto(g: Matrix, vis: Seq<bool>, r: int, c: int, d: int) -> bool {
    forall|d2: int|
        0 <= d2 < d ==> (!g.in_bounds(r + (#[trigger] delta_of(d2)).0, c + delta_of(d2).1)
            || vis[flat(r + delta_of(d2).0, c + delta_of(d2).1, g.ncols())])
}

/// Once all eight directions are covered, every in-bounds neighbor is marked.
proof fn lemma_nb_from_upto(g: Matrix, vis: Seq<bool>, r: int, c: int)
    requires
        nb_visited_upto(g, vis, r, c, 8),
    ensures
        nb_visited(g, vis, r, c),
{
    assert forall|r2: int, c2: int| (g.in_bounds(r2, c2) && adjacent(r, c, r2, c2)) implies #[trigger] vis[flat(
        r2,
        c2,
        g.ncols(),
    )] by {
        let dr: int = r2 - r;
        let dc: int = c2 - c;
        if dr == -1 && dc == -1 {
            assert(delta_of(0) == (-1int, -1int));
        } else if dr == -1 && dc == 0 {
            assert(delta_of(1) == (-1int, 0int));
        } else if dr == -1 && dc == 1 {
            assert(delta_of(2) == (-1int, 1int));
        } else if dr == 0 && dc == -1 {
            assert(delta_of(3) == (0int, -1int));
        } else if dr == 0 && dc == 1 {
            assert(delta_of(4) == (0int, 1int));
        } else if dr == 1 && dc == -1 {
            assert(delta_of(5) == (1int, -1int));
        } else if dr == 1 && dc == 0 {
            assert(delta_of(6) == (1int, 0int));
        } else {
            assert(delta_of(7) == (1int, 1int));
        }
    }
}

/// Like `vis_settled`, with one position left aside: the one the fill is
/// expanding at the moment.
spec fn vis_settled_except(
    g: Matrix,
    b: Matrix,
    q: Seq<(usize, usize)>,
    vis: Seq<bool>,
    qi: int,
    pr: int,
    pc: int,
) -> bool {
    forall|r: int, c: int|
        (g.in_bounds(r, c) && #[trigger] vis[flat(r, c, g.ncols())] && !(r == pr && c == pc))
            ==> ((exists|j: int|
            qi <= j < q.len() && (#[trigger] q[j]).0 == r && q[j].1 == c) || (b.revealed(r, c) && (
        g.cell(r, c) == Cell::Clear(0u8) ==> nb_visited(g, vis, r, c))))
}

/// `(r, c)` occurs in the queue before index `qi`.
spec fn popped(q: Seq<(usize, usize)>, qi: int, r: int, c: int) -> bool {
    exists|j: int| 0 <= j < qi && (#[trigger] q[j]).0 == r && q[j].1 == c
}

/// The reveal bits of `b` are those of `g` plus the popped positions.
spec fn reveal_progress(g: Matrix, b: Matrix, q: Seq<(usize, usize)>, qi: int) -> bool {
    forall|r: int, c: int|
        g.in_bounds(r, c) ==> (#[trigger] b.revealed(r, c) <==> (g.revealed(r, c) || popped(
            q,
            qi,
            r,
            c,
        )))
}

/// The flag bits of `b` are those of `g` minus the popped positions.
spec fn flag_progress(g: Matrix, b: Matrix, q: Seq<(usize, usize)>, qi: int) -> bool {
    forall|r: int, c: int|
        g.in_bounds(r, c) ==> (#[trigger] b.flagged(r, c) <==> (g.flagged(r, c) && !popped(
            q,
            qi,
            r,
            c,
        )))
}

/// Popping the queue entry at `qi0` and revealing it advances the reveal and
/// flag bookkeeping by one position, and every other marked position stays
/// waiting or processed.
proof fn lemma_step_reveal(
    g: Matrix,
    before: Matrix,
    after: Matrix,
    q: Seq<(usize, usize)>,
    vis: Seq<bool>,
    qi0: int,
    pr: int,
    pc: int,
)
    requires
        g.wf(),
        before.wf(),
        status_only(g, before),
        after.nrows() == before.nrows(),
        after.ncols() == before.ncols(),
        after.nmines() == before.nmines(),
        0 <= pr < g.nrows(),
        0 <= pc < g.ncols(),
        after.grid() == before.grid().update(
            flat(pr, pc, g.ncols()),
            Square {
                cell: before.grid()[flat(pr, pc, g.ncols())].cell,
                revealed: true,
                flagged: false,
            },
        ),
        0 <= qi0 < q.len(),
        q[qi0].0 == pr,
        q[qi0].1 == pc,
        reveal_progress(g, before, q, qi0),
        flag_progress(g, before, q, qi0),
        vis_settled(g, before, q, vis, qi0),
    ensures
        reveal_progress(g, after, q, qi0 + 1),
        flag_progress(g, after, q, qi0 + 1),
        vis_settled_except(g, after, q, vis, qi0 + 1, pr, pc),
        after.revealed(pr, pc),
{
    let k1: int = flat(pr, pc, g.ncols());
    lemma_flat_range(pr, pc, g.nrows(), g.ncols());
    assert forall|r: int, c: int|
        g.in_bounds(r, c) implies (#[trigger] after.revealed(r, c) <==> (g.revealed(r, c)
            || popped(q, qi0 + 1, r, c))) by {
        lemma_flat_range(r, c, g.nrows(), g.ncols());
        assert(before.revealed(r, c) <==> (g.revealed(r, c) || popped(q, qi0, r, c)));
        assert(before.flagged(r, c) <==> (g.flagged(r, c) && !popped(q, qi0, r, c)));
        if flat(r, c, g.ncols()) == k1 {
            lemma_flat_injective(r, c, pr, pc, g.ncols());
            assert(q[qi0].0 == r && q[qi0].1 == c);
            assert(popped(q, qi0 + 1, r, c));
        } else {
            assert(after.sq(r, c) == before.sq(r, c));
            if popped(q, qi0 + 1, r, c) {
                let j = choose|j: int|
                    0 <= j < qi0 + 1 && (#[trigger] q[j]).0 == r && q[j].1 == c;
                assert(j != qi0);
                assert(popped(q, qi0, r, c));
            }
            if popped(q, qi0, r, c) {
                let j = choose|j: int| 0 <= j < qi0 && (#[trigger] q[j]).0 == r && q[j].1 == c;
                assert(popped(q, qi0 + 1, r, c));
            }
        }
    }
    assert forall|r: int, c: int|
        g.in_bounds(r, c) implies (#[trigger] after.flagged(r, c) <==> (g.flagged(r, c) && !popped(
            q,
            qi0 + 1,
            r,
            c,
        ))) by {
        lemma_flat_range(r, c, g.nrows(), g.ncols());
        assert(before.revealed(r, c) <==> (g.revealed(r, c) || popped(q, qi0, r, c)));
        assert(before.flagged(r, c) <==> (g.flagged(r, c) && !popped(q, qi0, r, c)));
        if flat(r, c, g.ncols()) == k1 {
            lemma_flat_injective(r, c, pr, pc, g.ncols());
            assert(q[qi0].0 == r && q[qi0].1 == c);
            assert(popped(q, qi0 + 1, r, c));
        } else {
            assert(after.sq(r, c) == before.sq(r, c));
            if popped(q, qi0 + 1, r, c) {
                let j = choose|j: int|
                    0 <= j < qi0 + 1 && (#[trigger] q[j]).0 == r && q[j].1 == c;
                assert(j != qi0);
                assert(popped(q, qi0, r, c));
            }
            if popped(q, qi0, r, c) {
                let j = choose|j: int| 0 <= j < qi0 && (#[trigger] q[j]).0 == r && q[j].1 == c;
                assert(popped(q, qi0 + 1, r, c));
            }
        }
    }
    assert forall|r: int, c: int|
        (g.in_bounds(r, c) && #[trigger] vis[flat(r, c, g.ncols())] && !(r == pr && c == pc)) implies (
    (exists|j: int| qi0 + 1 <= j < q.len() && (#[trigger] q[j]).0 == r && q[j].1 == c) || (
    after.revealed(r, c) && (g.cell(r, c) == Cell::Clear(0u8) ==> nb_visited(g, vis, r, c)))) by {
        lemma_flat_range(r, c, g.nrows(), g.ncols());
        if flat(r, c, g.ncols()) == k1 {
            lemma_flat_injective(r, c, pr, pc, g.ncols());
        } else {
            assert(after.sq(r, c) == before.sq(r, c));
        }
        if exists|j: int| qi0 <= j < q.len() && (#[trigger] q[j]).0 == r && q[j].1 == c {
            let j = choose|j: int| qi0 <= j < q.len() && (#[trigger] q[j]).0 == r && q[j].1 == c;
            assert(j != qi0);
        }
    }
}

/// Appending one in-bounds position to the queue and marking it keeps the
/// bookkeeping intact: older entries stay where they were, and the new entry
/// is waiting in the queue.
proof fn lemma_enqueue_keeps(
    g: Matrix,
    b: Matrix,
    qprev: Seq<(usize, usize)>,
    q: Seq<(usize, usize)>,
    vprev: Seq<bool>,
    vis: Seq<bool>,
    qi1: int,
    pr: int,
    pc: int,
    nru: usize,
    ncu: usize,
)
    requires
        g.wf(),
        nru < g.nrows(),
        ncu < g.ncols(),
        vprev.len() == g.area(),
        vis.len() == g.area(),
        q.len() >= qprev.len(),
        0 <= qi1 <= qprev.len(),
        forall|j: int| 0 <= j < qprev.len() ==> #[trigger] q[j] == qprev[j],
        forall|i: int|
            0 <= i < vprev.len() ==> #[trigger] vis[i] == (vprev[i] || i == flat(
                nru as int,
                ncu as int,
                g.ncols(),
            )),
        q.len() == qprev.len() + (if vprev[flat(nru as int, ncu as int, g.ncols())] {
            0int
        } else {
            1int
        }),
        !vprev[flat(nru as int, ncu as int, g.ncols())] ==> q[qprev.len() as int] == (nru, ncu),
        vis_settled_except(g, b, qprev, vprev, qi1, pr, pc),
        reveal_progress(g, b, qprev, qi1),
        flag_progress(g, b, qprev, qi1),
    ensures
        vis_settled_except(g, b, q, vis, qi1, pr, pc),
        reveal_progress(g, b, q, qi1),
        flag_progress(g, b, q, qi1),
{
    assert forall|r: int, c: int|
        g.in_bounds(r, c) implies (#[trigger] b.revealed(r, c) <==> (g.revealed(r, c) || popped(
            q,
            qi1,
            r,
            c,
        ))) by {
        assert(b.revealed(r, c) <==> (g.revealed(r, c) || popped(qprev, qi1, r, c)));
        assert(b.flagged(r, c) <==> (g.flagged(r, c) && !popped(qprev, qi1, r, c)));
        if popped(q, qi1, r, c) {
            let j = choose|j: int| 0 <= j < qi1 && (#[trigger] q[j]).0 == r && q[j].1 == c;
            assert(q[j] == qprev[j]);
            assert(popped(qprev, qi1, r, c));
        }
        if popped(qprev, qi1, r, c) {
            let j = choose|j: int| 0 <= j < qi1 && (#[trigger] qprev[j]).0 == r && qprev[j].1 == c;
            assert(q[j] == qprev[j]);
            assert(popped(q, qi1, r, c));
        }
    }
    assert forall|r: int, c: int|
        g.in_bounds(r, c) implies (#[trigger] b.flagged(r, c) <==> (g.flagged(r, c) && !popped(
            q,
            qi1,
            r,
            c,
        ))) by {
        assert(b.revealed(r, c) <==> (g.revealed(r, c) || popped(qprev, qi1, r, c)));
        assert(b.flagged(r, c) <==> (g.flagged(r, c) && !popped(qprev, qi1, r, c)));
        if popped(q, qi1, r, c) {
            let j = choose|j: int| 0 <= j < qi1 && (#[trigger] q[j]).0 == r && q[j].1 == c;
            assert(q[j] == qprev[j]);
            assert(popped(qprev, qi1, r, c));
        }
        if popped(qprev, qi1, r, c) {
            let j = choose|j: int| 0 <= j < qi1 && (#[trigger] qprev[j]).0 == r && qprev[j].1 == c;
            assert(q[j] == qprev[j]);
            assert(popped(q, qi1, r, c));
        }
    }
    assert forall|r: int, c: int|
        (g.in_bounds(r, c) && #[trigger] vis[flat(r, c, g.ncols())] && !(r == pr && c == pc)) implies (
    (exists|j: int| qi1 <= j < q.len() && (#[trigger] q[j]).0 == r && q[j].1 == c) || (b.revealed(
        r,
        c,
    ) && (g.cell(r, c) == Cell::Clear(0u8) ==> nb_visited(g, vis, r, c)))) by {
        lemma_flat_range(r, c, g.nrows(), g.ncols());
        if vprev[flat(r, c, g.ncols())] {
            if exists|j: int|
                qi1 <= j < qprev.len() && (#[trigger] qprev[j]).0 == r && qprev[j].1 == c {
                let j = choose|j: int|
                    qi1 <= j < qprev.len() && (#[trigger] qprev[j]).0 == r && qprev[j].1 == c;
                assert(q[j] == qprev[j]);
            } else {
                if g.cell(r, c) == Cell::Clear(0u8) {
                    assert forall|r2: int, c2: int|
                        (g.in_bounds(r2, c2) && adjacent(r, c, r2, c2)) implies #[trigger] vis[flat(
                        r2,
                        c2,
                        g.ncols(),
                    )] by {
                        lemma_flat_range(r2, c2, g.nrows(), g.ncols());
                        assert(vprev[flat(r2, c2, g.ncols())]);
                    }
                }
            }
        } else {
            lemma_flat_injective(r, c, nru as int, ncu as int, g.ncols());
            assert(q[qprev.len() as int] == (nru, ncu));
        }
    }
}

/// Once the popped position itself is revealed and, if zero-count, fully
/// expanded, the exception can be dropped again.
proof fn lemma_settle_full(
    g: Matrix,
    b: Matrix,
    q: Seq<(usize, usize)>,
    vis: Seq<bool>,
    qi1: int,
    pr: int,
    pc: int,
)
    requires
        vis_settled_except(g, b, q, vis, qi1, pr, pc),
        b.revealed(pr, pc),
        g.cell(pr, pc) == Cell::Clear(0u8) ==> nb_visited(g, vis, pr, pc),
    ensures
        vis_settled(g, b, q, vis, qi1),
{
    assert forall|r: int, c: int|
        (g.in_bounds(r, c) && #[trigger] vis[flat(r, c, g.ncols())]) implies ((exists|j: int|
        qi1 <= j < q.len() && (#[trigger] q[j]).0 == r && q[j].1 == c) || (b.revealed(r, c) && (
    g.cell(r, c) == Cell::Clear(0u8) ==> nb_visited(g, vis, r, c)))) by {
        if r == pr && c == pc {
            assert(b.revealed(r, c));
        }
    }
}

/// The cascade only reaches in-bounds positions.
proof fn lemma_reaches_in_bounds(m: Matrix, sr: int, sc: int, r: int, c: int)
    requires
        m.fill_reaches(sr, sc, r, c),
    ensures
        m.in_bounds(r, c),
{
    let path = choose|path: Seq<(int, int)>|
        #[trigger] m.fill_path(path, sr, sc) && path.last() == (r, c);
    assert(m.in_bounds(path[path.len() - 1].0, path[path.len() - 1].1));
}

/// In a marked set that contains the start and is closed under stepping from
/// zero-count cells to their neighbors, every end of a fill path is marked.
proof fn lemma_path_in_closed(m: Matrix, vis: Seq<bool>, path: Seq<(int, int)>, sr: int, sc: int)
    requires
        m.fill_path(path, sr, sc),
        vis[flat(sr, sc, m.ncols())],
        vis_closed(m, vis),
    ensures
        vis[flat(path.last().0, path.last().1, m.ncols())],
    decreases path.len(),
{
    if path.len() >= 2 {
        let prefix = path.take(path.len() - 1);
        assert(prefix[0] == path[0]);
        assert forall|i: int| 0 <= i < prefix.len() implies m.in_bounds(
            (#[trigger] prefix[i]).0,
            prefix[i].1,
        ) by {
            assert(prefix[i] == path[i]);
        }
        assert forall|i: int| 0 <= i < prefix.len() - 1 implies adjacent(
            (#[trigger] prefix[i]).0,
            prefix[i].1,
            prefix[i + 1].0,
            prefix[i + 1].1,
        ) by {
            assert(prefix[i] == path[i]);
            assert(prefix[i + 1] == path[i + 1]);
        }
        assert forall|i: int| 0 <= i < prefix.len() - 1 implies m.cell(
            (#[trigger] prefix[i]).0,
            prefix[i].1,
        ) == Cell::Clear(0u8) by {
            assert(prefix[i] == path[i]);
        }
        assert(m.fill_path(prefix, sr, sc));
        lemma_path_in_closed(m, vis, prefix, sr, sc);
        let prev = path[path.len() - 2];
        assert(prefix.last() == prev);
        assert(m.cell(prev.0, prev.1) == Cell::Clear(0u8));
        assert(adjacent(prev.0, prev.1, path[path.len() - 1].0, path[path.len() - 1].1));
        assert(nb_visited(m, vis, prev.0, prev.1));
    }
}

/// Marks `(nr, nc)` as visited and queues it, unless it is already marked.
/// `g` is the board the bookkeeping speaks of; the board itself is untouched.
fn enqueue(
    g: Ghost<Matrix>,
    queue: &mut Vec<(usize, usize)>,
    visited: &mut Vec<bool>,
    qi: usize,
    rows: usize,
    cols: usize,
    sr: usize,
    sc: usize,
    nr: usize,
    nc: usize,
)
    requires
        g@.wf(),
        rows == g@.nrows(),
        cols == g@.ncols(),
        nr < rows,
        nc < cols,
        old(visited)@.len() == g@.area(),
        qi <= old(queue)@.len(),
        g@.fill_reaches(sr as int, sc as int, nr as int, nc as int),
        queue_ok(g@, old(queue)@, old(visited)@),
        vis_sound(g@, old(visited)@, sr as int, sc as int),
        vis_member(g@, old(queue)@, old(visited)@),
    ensures
        final(visited)@.len() == old(visited)@.len(),
        final(queue)@.len() >= old(queue)@.len(),
        forall|j: int| 0 <= j < old(queue)@.len() ==> #[trigger] final(queue)@[j] == old(queue)@[j],
        forall|i: int|
            0 <= i < old(visited)@.len() ==> #[trigger] final(visited)@[i] == (old(visited)@[i] || i
                == flat(nr as int, nc as int, g@.ncols())),
        final(visited)@[flat(nr as int, nc as int, g@.ncols())],
        old(visited)@[flat(nr as int, nc as int, g@.ncols())] ==> *final(queue) == *old(queue)
            && *final(visited) == *old(visited),
        !old(visited)@[flat(nr as int, nc as int, g@.ncols())] ==> (final(queue)@.len() == old(
            queue,
        )@.len() + 1 && final(queue)@[old(queue)@.len() as int] == (nr, nc)),
        count_to(final(visited)@, bool_id(), g@.area()) == count_to(
            old(visited)@,
            bool_id(),
            g@.area(),
        ) + (if old(visited)@[flat(nr as int, nc as int, g@.ncols())] {
            0int
        } else {
            1int
        }),
        queue_ok(g@, final(queue)@, final(visited)@),
        vis_sound(g@, final(visited)@, sr as int, sc as int),
        vis_member(g@, final(queue)@, final(visited)@),
{
    let k = flat_idx(nr, nc, rows, cols);
    if !visited[k] {
        visited.set(k, true);
        queue.push((nr, nc));
        proof {
            lemma_count_to_update(old(visited)@, bool_id(), k as int, true, g@.area());
            assert forall|j: int| 0 <= j < queue@.len() implies ((#[trigger] queue@[j]).0
                < g@.nrows() && queue@[j].1 < g@.ncols() && visited@[flat(
                queue@[j].0 as int,
                queue@[j].1 as int,
                g@.ncols(),
            )]) by {
                if j < old(queue)@.len() {
                    assert(queue@[j] == old(queue)@[j]);
                    lemma_flat_range(
                        old(queue)@[j].0 as int,
                        old(queue)@[j].1 as int,
                        g@.nrows(),
                        g@.ncols(),
                    );
                } else {
                    assert(queue@[j] == (nr, nc));
                }
            }
            assert forall|r: int, c: int|
                (g@.in_bounds(r, c) && #[trigger] visited@[flat(r, c, g@.ncols())]) implies g@.fill_reaches(
                sr as int,
                sc as int,
                r,
                c,
            ) by {
                lemma_flat_range(r, c, g@.nrows(), g@.ncols());
                if flat(r, c, g@.ncols()) == k as int {
                    lemma_flat_injective(r, c, nr as int, nc as int, g@.ncols());
                }
            }
            assert forall|r: int, c: int|
                (g@.in_bounds(r, c) && #[trigger] visited@[flat(r, c, g@.ncols())]) implies exists|
                j: int,
            |
                0 <= j < queue@.len() && (#[trigger] queue@[j]).0 == r && queue@[j].1 == c by {
                lemma_flat_range(r, c, g@.nrows(), g@.ncols());
                if flat(r, c, g@.ncols()) == k as int {
                    lemma_flat_injective(r, c, nr as int, nc as int, g@.ncols());
                    assert(queue@[queue@.len() - 1] == (nr, nc));
                } else {
                    let j0 = choose|j0: int|
                        0 <= j0 < old(queue)@.len() && (#[trigger] old(queue)@[j0]).0 == r && old(
                            queue,
                        )@[j0].1 == c;
                    assert(queue@[j0] == old(queue)@[j0]);
                }
            }
        }
    }
}

/// With equal dimensions and equal cells at every index, the boards also
/// agree cell-by-cell at every in-bounds position.
proof fn lemma_same_board_cells(a: Matrix, b: Matrix)
    requires
        b.nrows() == a.nrows(),
        b.ncols() == a.ncols(),
        b.nmines() == a.nmines(),
        b.grid().len() == a.grid().len(),
        a.grid().len() == a.area(),
        forall|i: int| 0 <= i < a.grid().len() ==> (#[trigger] b.grid()[i]).cell == a.grid()[i].cell,
    ensures
        same_board(a, b),
{
    assert forall|r: int, c: int| a.in_bounds(r, c) implies #[trigger] b.cell(r, c) == a.cell(
        r,
        c,
    ) by {
        lemma_flat_range(r, c, a.nrows(), a.ncols());
    }
}

/// A board obtained from a well-formed one by changing only reveal and flag
/// bits is well-formed again, provided no revealed square stays flagged.
proof fn lemma_wf_status(a: Matrix, b: Matrix)
    requires
        a.wf(),
        b.nrows() == a.nrows(),
        b.ncols() == a.ncols(),
        b.nmines() == a.nmines(),
        b.grid().len() == a.grid().len(),
        forall|i: int| 0 <= i < a.grid().len() ==> (#[trigger] b.grid()[i]).cell == a.grid()[i].cell,
        forall|i: int|
            0 <= i < b.grid().len() ==> ((#[trigger] b.grid()[i]).revealed ==> !b.grid()[i].flagged),
    ensures
        b.wf(),
        same_board(a, b),
        b.mines_layout() == a.mines_layout(),
{
    assert(b.mines_layout() =~= a.mines_layout());
    lemma_count_to_agree(b.grid(), sq_is_mine(), a.grid(), sq_is_mine(), a.area());
    lemma_same_board_cells(a, b);
    assert forall|r: int, c: int| b.in_bounds(r, c) implies (#[trigger] b.cell(r, c)
        matches Cell::Clear(n) ==> n as int == b.adj_mines(r, c)) by {
        lemma_flat_range(r, c, a.nrows(), a.ncols());
        assert(a.cell(r, c) == b.cell(r, c));
    }
}

/// Boards with the same cells have the same reveal cascades.
proof fn lemma_fill_same(a: Matrix, b: Matrix, sr: int, sc: int)
    requires
        same_board(a, b),
    ensures
        forall|r: int, c: int|
            #[trigger] b.fill_reaches(sr, sc, r, c) == a.fill_reaches(sr, sc, r, c),
{
    assert forall|r: int, c: int|
        #[trigger] b.fill_reaches(sr, sc, r, c) == a.fill_reaches(sr, sc, r, c) by {
        if a.fill_reaches(sr, sc, r, c) {
            let path = choose|path: Seq<(int, int)>|
                #[trigger] a.fill_path(path, sr, sc) && path.last() == (r, c);
            assert forall|i: int| 0 <= i < path.len() - 1 implies b.cell(
                (#[trigger] path[i]).0,
                path[i].1,
            ) == Cell::Clear(0u8) by {
                assert(a.cell(path[i].0, path[i].1) == Cell::Clear(0u8));
            }
            assert(b.fill_path(path, sr, sc));
            assert(b.fill_reaches(sr, sc, r, c));
        }
        if b.fill_reaches(sr, sc, r, c) {
            let path = choose|path: Seq<(int, int)>|
                #[trigger] b.fill_path(path, sr, sc) && path.last() == (r, c);
            assert forall|i: int| 0 <= i < path.len() - 1 implies a.cell(
                (#[trigger] path[i]).0,
                path[i].1,
            ) == Cell::Clear(0u8) by {
                assert(b.cell(path[i].0, path[i].1) == Cell::Clear(0u8));
            }
            assert(a.fill_path(path, sr, sc));
            assert(a.fill_reaches(sr, sc, r, c));
        }
    }
}

impl Matrix {
    /// Toggles the flag on an unrevealed square; a no-op on a revealed one.
    pub fn toggle_flag(&mut self, row: usize, col: usize)
        requires
            old(self).wf(),
            row < old(self).nrows(),
            col < old(self).ncols(),
        ensures
            final(self).wf(),
            same_board(*old(self), *final(self)),
            forall|r: int, c: int|
                #[trigger] final(self).revealed(r, c) == old(self).revealed(r, c),
            forall|r: int, c: int|
                (r != row as int || c != col as int) ==> #[trigger] final(self).flagged(r, c)
                    == old(self).flagged(r, c),
            final(self).flagged(row as int, col as int) == (!old(self).revealed(
                row as int,
                col as int,
            ) && !old(self).flagged(row as int, col as int)),
    {
        let k = flat_idx(row, col, self.rows, self.cols);
        let sq = self.data[k];
        if !sq.revealed {
            self.data.set(k, Square { cell: sq.cell, revealed: false, flagged: !sq.flagged });
        }
        proof {
            lemma_wf_status(*old(self), *self);
            assert forall|r: int, c: int| #[trigger] self.revealed(r, c) == old(self).revealed(
                r,
                c,
            ) by {
                if self.in_bounds(r, c) {
                    lemma_flat_range(r, c, self.nrows(), self.ncols());
                }
            }
            assert forall|r: int, c: int| (r != row as int || c != col as int) implies #[trigger] self.flagged(
                r,
                c,
            ) == old(self).flagged(r, c) by {
                if self.in_bounds(r, c) {
                    lemma_flat_range(r, c, self.nrows(), self.ncols());
                    if flat(r, c, self.ncols()) == flat(row as int, col as int, self.ncols()) {
                        lemma_flat_injective(r, c, row as int, col as int, self.ncols());
                    }
                }
            }
            lemma_flat_range(row as int, col as int, self.nrows(), self.ncols());
        }
    }


    /// Processes the queue entry at `qi`: reveals it, clears its flag, and
    /// when it is a zero-count clear cell queues its unvisited neighbors.
    #[verifier::rlimit(100)]
    #[verifier::spinoff_prover]
    fn fill_step(
        &mut self,
        g: Ghost<Matrix>,
        queue: &mut Vec<(usize, usize)>,
        visited: &mut Vec<bool>,
        qi: usize,
        rows: usize,
        cols: usize,
        n: usize,
        sr: usize,
        sc: usize,
    )
        requires
            g@.wf(),
            status_only(g@, *old(self)),
            old(self).wf(),
            rows == g@.nrows(),
            cols == g@.ncols(),
            n == g@.area(),
            sr < rows,
            sc < cols,
            old(visited)@.len() == n,
            qi < old(queue)@.len(),
            queue_ok(g@, old(queue)@, old(visited)@),
            vis_sound(g@, old(visited)@, sr as int, sc as int),
            vis_member(g@, old(queue)@, old(visited)@),
            old(visited)@[flat(sr as int, sc as int, g@.ncols())],
            vis_settled(g@, *old(self), old(queue)@, old(visited)@, qi as int),
            reveal_progress(g@, *old(self), old(queue)@, qi as int),
            flag_progress(g@, *old(self), old(queue)@, qi as int),
        ensures
            status_only(g@, *final(self)),
            final(self).wf(),
            final(visited)@.len() == n,
            final(queue)@.len() >= old(queue)@.len(),
            queue_ok(g@, final(queue)@, final(visited)@),
            vis_sound(g@, final(visited)@, sr as int, sc as int),
            vis_member(g@, final(queue)@, final(visited)@),
            final(visited)@[flat(sr as int, sc as int, g@.ncols())],
            vis_settled(g@, *final(self), final(queue)@, final(visited)@, qi as int + 1),
            reveal_progress(g@, *final(self), final(queue)@, qi as int + 1),
            flag_progress(g@, *final(self), final(queue)@, qi as int + 1),
            9 * (n as int - count_to(final(visited)@, bool_id(), n as int)) + final(queue)@.len()
                - (qi as int + 1) < 9 * (n as int - count_to(old(visited)@, bool_id(), n as int))
                + old(queue)@.len() - qi as int,
            count_to(final(visited)@, bool_id(), n as int) <= n,
    {
        let ghost qi0: int = qi as int;
        let pos: (usize, usize) = queue[qi];
        let pr: usize = pos.0;
        let pc: usize = pos.1;
        let k1: usize = flat_idx(pr, pc, rows, cols);
        let sq: Square = self.data[k1];
        let ghost mprev: Matrix = *self;
        self.data.set(k1, Square { cell: sq.cell, revealed: true, flagged: false });
        let is_zero: bool = match sq.cell {
            Cell::Mine => false,
            Cell::Clear(v) => v == 0,
        };
        let ghost q1 = queue@;
        let ghost v1 = visited@;
        proof {
            lemma_wf_status(mprev, *self);
            assert(is_zero == (g@.cell(pr as int, pc as int) == Cell::Clear(0u8)));
            assert(q1[qi0] == pos);
            assert(v1[flat(pr as int, pc as int, g@.ncols())]);
            assert(g@.fill_reaches(sr as int, sc as int, pr as int, pc as int));
            lemma_count_to_bounds(visited@, bool_id(), n as int);
            lemma_step_reveal(g@, mprev, *self, queue@, visited@, qi0, pr as int, pc as int);
        }
        let ghost budget: int = 9 * (n as int - count_to(visited@, bool_id(), n as int))
            + queue@.len();
        if is_zero {
            let mut d: usize = 0;
            while d < 8
                invariant
                    d <= 8,
                    g@.wf(),
                    rows == g@.nrows(),
                    cols == g@.ncols(),
                    n == g@.area(),
                    sr < rows,
                    sc < cols,
                    pr < rows,
                    pc < cols,
                    g@.cell(pr as int, pc as int) == Cell::Clear(0u8),
                    g@.fill_reaches(sr as int, sc as int, pr as int, pc as int),
                    visited@.len() == n,
                    qi0 == qi as int,
                    qi < queue@.len(),
                    queue@.len() >= q1.len(),
                    queue_ok(g@, queue@, visited@),
                    vis_sound(g@, visited@, sr as int, sc as int),
                    vis_member(g@, queue@, visited@),
                    visited@[flat(sr as int, sc as int, g@.ncols())],
                    count_to(visited@, bool_id(), n as int) <= n,
                    9 * (n as int - count_to(visited@, bool_id(), n as int)) + queue@.len()
                        <= budget,
                    forall|j: int| 0 <= j <= qi0 ==> #[trigger] queue@[j] == q1[j],
                    vis_settled_except(g@, *self, queue@, visited@, qi0 + 1, pr as int, pc as int),
                    reveal_progress(g@, *self, queue@, qi0 + 1),
                    flag_progress(g@, *self, queue@, qi0 + 1),
                    nb_visited_upto(g@, visited@, pr as int, pc as int, d as int),
                decreases 8 - d,
            {
                let mut ok: bool = false;
                let mut nr: usize = 0;
                let mut nc: usize = 0;
                if d == 0 {
                    if pr > 0 && pc > 0 {
                        ok = true;
                        nr = pr - 1;
                        nc = pc - 1;
                    }
                } else if d == 1 {
                    if pr > 0 {
                        ok = true;
                        nr = pr - 1;
                        nc = pc;
                    }
                } else if d == 2 {
                    if pr > 0 && pc + 1 < cols {
                        ok = true;
                        nr = pr - 1;
                        nc = pc + 1;
                    }
                } else if d == 3 {
                    if pc > 0 {
                        ok = true;
                        nr = pr;
                        nc = pc - 1;
                    }
                } else if d == 4 {
                    if pc + 1 < cols {
                        ok = true;
                        nr = pr;
                        nc = pc + 1;
                    }
                } else if d == 5 {
                    if pr + 1 < rows && pc > 0 {
                        ok = true;
                        nr = pr + 1;
                        nc = pc - 1;
                    }
                } else if d == 6 {
                    if pr + 1 < rows {
                        ok = true;
                        nr = pr + 1;
                        nc = pc;
                    }
                } else {
                    if pr + 1 < rows && pc + 1 < cols {
                        ok = true;
                        nr = pr + 1;
                        nc = pc + 1;
                    }
                }
                proof {
                    assert(ok == g@.in_bounds(
                        pr as int + delta_of(d as int).0,
                        pc as int + delta_of(d as int).1,
                    ));
                    assert(ok ==> nr as int == pr as int + delta_of(d as int).0 && nc as int
                        == pc as int + delta_of(d as int).1);
                }
                let ghost vprev = visited@;
                let ghost qprev = queue@;
                if ok {
                    proof {
                        g@.lemma_reaches_step(
                            sr as int,
                            sc as int,
                            pr as int,
                            pc as int,
                            nr as int,
                            nc as int,
                        );
                    }
                    enqueue(Ghost(g@), queue, visited, qi, rows, cols, sr, sc, nr, nc);
                }
                proof {
                    lemma_count_to_bounds(visited@, bool_id(), n as int);
                    lemma_flat_range(sr as int, sc as int, g@.nrows(), g@.ncols());
                    assert(visited@[flat(sr as int, sc as int, g@.ncols())]);
                    assert forall|d2: int| 0 <= d2 < d as int + 1 implies (!g@.in_bounds(
                        pr as int + (#[trigger] delta_of(d2)).0,
                        pc as int + delta_of(d2).1,
                    ) || visited@[flat(
                        pr as int + delta_of(d2).0,
                        pc as int + delta_of(d2).1,
                        g@.ncols(),
                    )]) by {
                        if d2 < d as int {
                            if g@.in_bounds(
                                pr as int + delta_of(d2).0,
                                pc as int + delta_of(d2).1,
                            ) {
                                lemma_flat_range(
                                    pr as int + delta_of(d2).0,
                                    pc as int + delta_of(d2).1,
                                    g@.nrows(),
                                    g@.ncols(),
                                );
                                assert(vprev[flat(
                                    pr as int + delta_of(d2).0,
                                    pc as int + delta_of(d2).1,
                                    g@.ncols(),
                                )]);
                            }
                        }
                    }
                    if ok {
                        lemma_enqueue_keeps(
                            g@,
                            *self,
                            qprev,
                            queue@,
                            vprev,
                            visited@,
                            qi0 + 1,
                            pr as int,
                            pc as int,
                            nr,
                            nc,
                        );
                    }
                }
                d = d + 1;
            }
            proof {
                lemma_nb_from_upto(g@, visited@, pr as int, pc as int);
            }
        }
        proof {
            lemma_settle_full(g@, *self, queue@, visited@, qi0 + 1, pr as int, pc as int);
            lemma_flat_range(sr as int, sc as int, g@.nrows(), g@.ncols());
            assert(visited@[flat(sr as int, sc as int, g@.ncols())]);
        }
    }


    /// Reveals `start` and floods outward: starting from a zero-count clear
    /// cell, every position the cascade reaches is revealed and loses its
    /// flag; starting from any other cell, only `start` itself is. Every
    /// already revealed square stays as it was.
    #[verifier::rlimit(100)]
    #[verifier::spinoff_prover]
    pub fn reveal_empties(&mut self, start: (usize, usize))
        requires
            old(self).wf(),
            start.0 < old(self).nrows(),
            start.1 < old(self).ncols(),
        ensures
            final(self).wf(),
            same_board(*old(self), *final(self)),
            forall|r: int, c: int|
                #[trigger] final(self).revealed(r, c) <==> (old(self).revealed(r, c) || old(
                    self,
                ).fill_reaches(start.0 as int, start.1 as int, r, c)),
            forall|r: int, c: int|
                #[trigger] final(self).flagged(r, c) <==> (old(self).flagged(r, c) && !old(
                    self,
                ).fill_reaches(start.0 as int, start.1 as int, r, c)),
    {
        let ghost m0: Matrix = *self;
        let sr: usize = start.0;
        let sc: usize = start.1;
        let rows: usize = self.rows;
        let cols: usize = self.cols;
        let n: usize = rows * cols;
        let mut visited: Vec<bool> = Vec::new();
        let mut k: usize = 0;
        while k < n
            invariant
                k <= n,
                visited@.len() == k,
                forall|i: int| 0 <= i < k ==> !#[trigger] visited@[i],
            decreases n - k,
        {
            visited.push(false);
            k = k + 1;
        }
        proof {
            lemma_count_to_zero(visited@, bool_id(), n as int);
        }
        let mut queue: Vec<(usize, usize)> = Vec::new();
        let mut qi: usize = 0;
        let k0: usize = flat_idx(sr, sc, rows, cols);
        let ghost vinit = visited@;
        visited.set(k0, true);
        queue.push((sr, sc));
        proof {
            m0.lemma_reaches_self(sr as int, sc as int);
            lemma_count_to_update(vinit, bool_id(), k0 as int, true, n as int);
            assert forall|r: int, c: int|
                (m0.in_bounds(r, c) && #[trigger] visited@[flat(r, c, m0.ncols())]) implies (
            m0.fill_reaches(sr as int, sc as int, r, c) && exists|j: int|
                0 <= j < queue@.len() && (#[trigger] queue@[j]).0 == r && queue@[j].1 == c) by {
                lemma_flat_range(r, c, m0.nrows(), m0.ncols());
                if flat(r, c, m0.ncols()) == k0 as int {
                    lemma_flat_injective(r, c, sr as int, sc as int, m0.ncols());
                    assert(queue@[0] == (sr, sc));
                }
            }
        }
        while qi < queue.len()
            invariant
                m0.wf(),
                status_only(m0, *self),
                self.wf(),
                rows == m0.nrows(),
                cols == m0.ncols(),
                n == m0.area(),
                sr < rows,
                sc < cols,
                visited@.len() == n,
                qi <= queue@.len(),
                count_to(visited@, bool_id(), n as int) <= n,
                queue_ok(m0, queue@, visited@),
                vis_sound(m0, visited@, sr as int, sc as int),
                vis_member(m0, queue@, visited@),
                visited@[flat(sr as int, sc as int, m0.ncols())],
                vis_settled(m0, *self, queue@, visited@, qi as int),
                reveal_progress(m0, *self, queue@, qi as int),
                flag_progress(m0, *self, queue@, qi as int),
            decreases 9 * (n as int - count_to(visited@, bool_id(), n as int)) + queue@.len() - qi,
        {
            self.fill_step(Ghost(m0), &mut queue, &mut visited, qi, rows, cols, n, sr, sc);
            qi = qi + 1;
        }
        proof {
            assert forall|r: int, c: int|
                (m0.in_bounds(r, c) && #[trigger] visited@[flat(r, c, m0.ncols())] && m0.cell(r, c)
                    == Cell::Clear(0u8)) implies nb_visited(m0, visited@, r, c) by {}
            assert(vis_closed(m0, visited@));
            assert forall|r: int, c: int|
                #[trigger] m0.fill_reaches(sr as int, sc as int, r, c) implies (m0.in_bounds(r, c)
                && visited@[flat(r, c, m0.ncols())]) by {
                lemma_reaches_in_bounds(m0, sr as int, sc as int, r, c);
                let path = choose|path: Seq<(int, int)>|
                    #[trigger] m0.fill_path(path, sr as int, sc as int) && path.last() == (r, c);
                lemma_path_in_closed(m0, visited@, path, sr as int, sc as int);
            }
            assert forall|r: int, c: int|
                (#[trigger] self.revealed(r, c) <==> (m0.revealed(r, c) || m0.fill_reaches(
                    sr as int,
                    sc as int,
                    r,
                    c,
                ))) && (#[trigger] self.flagged(r, c) <==> (m0.flagged(r, c) && !m0.fill_reaches(
                    sr as int,
                    sc as int,
                    r,
                    c,
                ))) by {
                if m0.in_bounds(r, c) {
                    lemma_flat_range(r, c, m0.nrows(), m0.ncols());
                    if popped(queue@, qi as int, r, c) {
                        let j = choose|j: int|
                            0 <= j < qi && (#[trigger] queue@[j]).0 == r && queue@[j].1 == c;
                        assert(visited@[flat(
                            queue@[j].0 as int,
                            queue@[j].1 as int,
                            m0.ncols(),
                        )]);
                    }
                    if m0.fill_reaches(sr as int, sc as int, r, c) {
                        assert(visited@[flat(r, c, m0.ncols())]);
                        assert(exists|j: int|
                            0 <= j < queue@.len() && (#[trigger] queue@[j]).0 == r && queue@[j].1
                                == c);
                        assert(popped(queue@, qi as int, r, c));
                    }
                }
            }
            lemma_same_board_cells(m0, *self);
        }
    }

    /// What revealing `(r, c)` returns on this board: `NoOp` on a revealed
    /// square, `HitMine` on a mine, `Won` when the reveal uncovers the last
    /// clear squares, and `Revealed` otherwise.
    pub open spec fn spec_outcome(self, r: int, c: int) -> RevealOutcome {
        if self.revealed(r, c) {
            RevealOutcome::NoOp
        } else if self.is_mine(r, c) {
            RevealOutcome::HitMine
        } else if forall|r2: int, c2: int|
            (#[trigger] self.in_bounds(r2, c2) && !self.is_mine(r2, c2)) ==> (self.revealed(r2, c2)
                || self.fill_reaches(r, c, r2, c2)) {
            RevealOutcome::Won
        } else {
            RevealOutcome::Revealed
        }
    }

    /// Reveals the square at `(row, col)`. A revealed square is left alone;
    /// a mine loses the round; a zero-count clear square floods its region;
    /// any reveal that uncovers the last clear square wins the round.
    pub fn update_state(&mut self, row: usize, col: usize) -> (out: RevealOutcome)
        requires
            old(self).wf(),
            row < old(self).nrows(),
            col < old(self).ncols(),
        ensures
            final(self).wf(),
            same_board(*old(self), *final(self)),
            out == old(self).spec_outcome(row as int, col as int),
            old(self).revealed(row as int, col as int) ==> *final(self) == *old(self),
            !old(self).revealed(row as int, col as int) ==> forall|r: int, c: int|
                #[trigger] final(self).revealed(r, c) <==> (old(self).revealed(r, c) || old(
                    self,
                ).fill_reaches(row as int, col as int, r, c)),
            !old(self).revealed(row as int, col as int) ==> forall|r: int, c: int|
                #[trigger] final(self).flagged(r, c) <==> (old(self).flagged(r, c) && !old(
                    self,
                ).fill_reaches(row as int, col as int, r, c)),
    {
        let ghost m0: Matrix = *self;
        if self.is_revealed(row, col) {
            return RevealOutcome::NoOp;
        }
        let cel = self.cell_at(row, col);
        let is_mine_cell: bool = match cel {
            Cell::Mine => true,
            Cell::Clear(_) => false,
        };
        let is_zero: bool = match cel {
            Cell::Mine => false,
            Cell::Clear(v) => v == 0,
        };
        if is_zero {
            self.reveal_empties((row, col));
        } else {
            let k = flat_idx(row, col, self.rows, self.cols);
            let sq = self.data[k];
            let ghost mprev: Matrix = *self;
            self.data.set(k, Square { cell: sq.cell, revealed: true, flagged: false });
            proof {
                lemma_wf_status(mprev, *self);
                m0.lemma_reaches_singleton(row as int, col as int);
                assert forall|r: int, c: int| #[trigger] self.revealed(r, c) <==> (m0.revealed(
                    r,
                    c,
                ) || m0.fill_reaches(row as int, col as int, r, c)) by {
                    if self.in_bounds(r, c) {
                        lemma_flat_range(r, c, m0.nrows(), m0.ncols());
                        if flat(r, c, m0.ncols()) == k as int {
                            lemma_flat_injective(r, c, row as int, col as int, m0.ncols());
                        }
                    } else {
                        if m0.fill_reaches(row as int, col as int, r, c) {
                            lemma_reaches_in_bounds(m0, row as int, col as int, r, c);
                        }
                    }
                }
                assert forall|r: int, c: int| #[trigger] self.flagged(r, c) <==> (m0.flagged(r, c)
                    && !m0.fill_reaches(row as int, col as int, r, c)) by {
                    if self.in_bounds(r, c) {
                        lemma_flat_range(r, c, m0.nrows(), m0.ncols());
                        if flat(r, c, m0.ncols()) == k as int {
                            lemma_flat_injective(r, c, row as int, col as int, m0.ncols());
                        }
                    } else {
                        if m0.fill_reaches(row as int, col as int, r, c) {
                            lemma_reaches_in_bounds(m0, row as int, col as int, r, c);
                        }
                    }
                }
            }
        }
        if is_mine_cell {
            return RevealOutcome::HitMine;
        }
        let won: bool = self.is_finished();
        proof {
            let won_cond: bool = (forall|r2: int, c2: int|
                (#[trigger] m0.in_bounds(r2, c2) && !m0.is_mine(r2, c2)) ==> (m0.revealed(r2, c2)
                    || m0.fill_reaches(row as int, col as int, r2, c2)));
            if won_cond {
                assert forall|i: int|
                    0 <= i < self.grid().len() implies (!((#[trigger] self.grid()[i]).cell
                    is Mine) ==> self.grid()[i].revealed) by {
                    lemma_unflat(i, m0.nrows(), m0.ncols());
                    let r2: int = i / m0.ncols();
                    let c2: int = i % m0.ncols();
                    assert(m0.in_bounds(r2, c2));
                    assert(self.sq(r2, c2) == self.grid()[i]);
                    assert(m0.cell(r2, c2) == self.cell(r2, c2));
                    if !(self.grid()[i].cell is Mine) {
                        assert(m0.revealed(r2, c2) || m0.fill_reaches(
                            row as int,
                            col as int,
                            r2,
                            c2,
                        ));
                        assert(self.revealed(r2, c2));
                    }
                }
                assert(self.all_clear_revealed());
            } else {
                let (r2, c2) = choose|r2: int, c2: int|
                    #[trigger] m0.in_bounds(r2, c2) && !m0.is_mine(r2, c2) && !(m0.revealed(r2, c2)
                        || m0.fill_reaches(row as int, col as int, r2, c2));
                lemma_flat_range(r2, c2, m0.nrows(), m0.ncols());
                assert(!self.revealed(r2, c2));
                assert(m0.cell(r2, c2) == self.cell(r2, c2));
                assert(!((self.grid()[flat(r2, c2, m0.ncols())]).cell is Mine));
                assert(!self.all_clear_revealed());
            }
            assert(won == won_cond);
        }
        if won {
            RevealOutcome::Won
        } else {
            RevealOutcome::Revealed
        }
    }
}

/// The number of mine cells on a well-formed board is exactly the configured
/// mine count; since each square holds at most one mine, mines never overlap.
pub proof fn lemma_mine_count(m: Matrix)
    requires
        m.wf(),
    ensures
        count_to(m.grid(), sq_is_mine(), m.area()) == m.nmines(),
        m.nmines() < m.area(),
{
}

/// Every clear cell of a well-formed board carries exactly the number of
/// mines among its grid neighbors.
pub proof fn lemma_adjacency(m: Matrix, r: int, c: int)
    requires
        m.wf(),
        m.in_bounds(r, c),
        !m.is_mine(r, c),
    ensures
        m.cell(r, c) == Cell::Clear(m.adj_mines(r, c) as u8),
        0 <= m.adj_mines(r, c) <= 8,
{
    lemma_layout_adj_bounds(m.mines_layout(), m.nrows(), m.ncols(), r, c);
}

/// After a reveal, the newly revealed region is closed at its zero-count
/// cells: a newly revealed zero-count cell has every in-bounds neighbor
/// revealed as well.
pub proof fn lemma_reveal_closure(
    pre: Matrix,
    post: Matrix,
    sr: int,
    sc: int,
    r: int,
    c: int,
    r2: int,
    c2: int,
)
    requires
        same_board(pre, post),
        forall|a: int, b: int|
            #[trigger] post.revealed(a, b) <==> (pre.revealed(a, b) || pre.fill_reaches(
                sr,
                sc,
                a,
                b,
            )),
        post.revealed(r, c),
        !pre.revealed(r, c),
        pre.cell(r, c) == Cell::Clear(0u8),
        pre.in_bounds(r2, c2),
        adjacent(r, c, r2, c2),
    ensures
        post.revealed(r2, c2),
{
    assert(pre.fill_reaches(sr, sc, r, c));
    pre.lemma_reaches_step(sr, sc, r, c, r2, c2);
}

/// Revealing a mine changes no other square's reveal or flag state.
pub proof fn lemma_mine_isolated(pre: Matrix, post: Matrix, r: int, c: int)
    requires
        pre.in_bounds(r, c),
        pre.is_mine(r, c),
        forall|a: int, b: int|
            #[trigger] post.revealed(a, b) <==> (pre.revealed(a, b) || pre.fill_reaches(
                r,
                c,
                a,
                b,
            )),
        forall|a: int, b: int|
            #[trigger] post.flagged(a, b) <==> (pre.flagged(a, b) && !pre.fill_reaches(
                r,
                c,
                a,
                b,
            )),
    ensures
        forall|a: int, b: int|
            (a != r || b != c) ==> #[trigger] post.revealed(a, b) == pre.revealed(a, b),
        forall|a: int, b: int|
            (a != r || b != c) ==> #[trigger] post.flagged(a, b) == pre.flagged(a, b),
        post.revealed(r, c),
        pre.spec_outcome(r, c) == (if pre.revealed(r, c) {
            RevealOutcome::NoOp
        } else {
            RevealOutcome::HitMine
        }),
{
    pre.lemma_reaches_singleton(r, c);
    pre.lemma_reaches_self(r, c);
}

/// The round is won exactly when the number of revealed squares equals the
/// number of clear squares, provided no mine has been revealed.
pub proof fn lemma_win_iff_count(m: Matrix)
    requires
        m.wf(),
        forall|i: int|
            0 <= i < m.grid().len() ==> ((#[trigger] m.grid()[i]).revealed ==> !(m.grid()[i].cell
                is Mine)),
    ensures
        m.all_clear_revealed() <==> count_to(m.grid(), sq_is_revealed(), m.area()) == m.area()
            - m.nmines(),
{
    let p = sq_is_revealed();
    let q = sq_is_mine();
    assert forall|i: int| 0 <= i < m.area() implies (#[trigger] p(m.grid()[i]) ==> !q(
        m.grid()[i],
    )) by {
        assert(m.grid()[i].revealed ==> !(m.grid()[i].cell is Mine));
    }
    lemma_count_to_complement(m.grid(), p, q, m.area());
    if m.all_clear_revealed() {
        assert forall|i: int| 0 <= i < m.area() implies (!#[trigger] q(m.grid()[i]) ==> p(
            m.grid()[i],
        )) by {
            assert(!(m.grid()[i].cell is Mine) ==> m.grid()[i].revealed);
        }
    }
    if count_to(m.grid(), p, m.area()) == m.area() - m.nmines() {
        assert forall|i: int|
            0 <= i < m.grid().len() implies (!((#[trigger] m.grid()[i]).cell is Mine)
            ==> m.grid()[i].revealed) by {
            assert(!q(m.grid()[i]) ==> p(m.grid()[i]));
        }
    }
}

/// Flags have no effect on revealing: two boards that differ only in their
/// flags have the same reveal cascades and the same reveal outcomes.
pub proof fn lemma_flags_no_effect(a: Matrix, b: Matrix, r: int, c: int)
    requires
        same_board(a, b),
        forall|p: int, q: int| #[trigger] a.revealed(p, q) == b.revealed(p, q),
    ensures
        forall|p: int, q: int|
            #[trigger] b.fill_reaches(r, c, p, q) == a.fill_reaches(r, c, p, q),
        a.spec_outcome(r, c) == b.spec_outcome(r, c),
{
    lemma_fill_same(a, b, r, c);
    assert forall|p: int, q: int| #[trigger] b.is_mine(p, q) == a.is_mine(p, q) by {
        if a.in_bounds(p, q) {
            assert(b.cell(p, q) == a.cell(p, q));
        }
    }
    let cond_a: bool = (forall|r2: int, c2: int|
        (#[trigger] a.in_bounds(r2, c2) && !a.is_mine(r2, c2)) ==> (a.revealed(r2, c2)
            || a.fill_reaches(r, c, r2, c2)));
    let cond_b: bool = (forall|r2: int, c2: int|
        (#[trigger] b.in_bounds(r2, c2) && !b.is_mine(r2, c2)) ==> (b.revealed(r2, c2)
            || b.fill_reaches(r, c, r2, c2)));
    if cond_a {
        assert forall|r2: int, c2: int|
            (#[trigger] b.in_bounds(r2, c2) && !b.is_mine(r2, c2)) implies (b.revealed(r2, c2)
            || b.fill_reaches(r, c, r2, c2)) by {
            assert(a.in_bounds(r2, c2) && !a.is_mine(r2, c2));
            assert(a.revealed(r2, c2) || a.fill_reaches(r, c, r2, c2));
        }
    }
    if cond_b {
        assert forall|r2: int, c2: int|
            (#[trigger] a.in_bounds(r2, c2) && !a.is_mine(r2, c2)) implies (a.revealed(r2, c2)
            || a.fill_reaches(r, c, r2, c2)) by {
            assert(b.in_bounds(r2, c2) && !b.is_mine(r2, c2));
            assert(b.revealed(r2, c2) || b.fill_reaches(r, c, r2, c2));
        }
    }
    assert(cond_a == cond_b);
    assert(a.revealed(r, c) == b.revealed(r, c));
}

} // verus!