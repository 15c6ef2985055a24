//! The cell store: a flat row-major arena of cells plus the viewport state.
//!
//! A cell is addressed by its id `row * cols + col`; `calculate_row_col`
//! inverts that by plain arithmetic.

use vstd::prelude::*;
use crate::cell::{occ, Cell, cell_ids_ok};

verus! {

/// The whole sheet: the grid, its dimensions, and the viewport state.
pub struct SheetData {
    /// Number of rows, between 1 and 999.
    pub rows: usize,
    /// Number of columns, between 1 and 18278.
    pub cols: usize,
    /// The cells, row-major: the cell at `(r, c)` has index `r * cols + c`.
    pub cells: Vec<Cell>,
    /// First row of the viewport.
    pub start_row: usize,
    /// First column of the viewport.
    pub start_col: usize,
    /// 1 while output after each command is wanted, 0 while it is off.
    pub flag: i32,
    /// Seconds of blocking that `SLEEP` formulas have asked for and the
    /// caller has not yet performed.
    pub pending_sleep: u64,
}

/// The dimensions are in range and the arena has one cell per coordinate.
pub open spec fn sd_dims_ok(s: SheetData) -> bool {
    &&& 1 <= s.rows <= 999
    &&& 1 <= s.cols <= 18278
    &&& s.cells@.len() == s.rows * s.cols
}

/// Structural invariant: dimensions are sound and every edge id is a cell.
pub open spec fn sd_ids_ok(s: SheetData) -> bool {
    &&& sd_dims_ok(s)
    &&& forall|x: int|
        0 <= x < s.cells@.len() ==> cell_ids_ok(#[trigger] s.cells@[x], s.cells@.len() as int)
}

/// The two dependency indexes agree: `b` is registered as a reader of `a`
/// exactly when `a` occurs exactly once among the reads of `b`.
pub open spec fn sd_symmetric(s: SheetData) -> bool {
    forall|a: usize, b: usize|
        (a as int) < s.cells@.len() && (b as int) < s.cells@.len() ==> (#[trigger] occ(
            s.cells@[b as int].dependents@,
            a,
        )) == if s.cells@[a as int].dependencies@.contains(b) {
            1nat
        } else {
            0nat
        }
}

/// Well-formed sheet: structure plus index symmetry.
pub open spec fn sd_wf(s: SheetData) -> bool {
    &&& sd_ids_ok(s)
    &&& sd_symmetric(s)
}

impl SheetData {
    /// A fresh sheet: every cell holds value 0, an empty expression, a
    /// clear status and no edges; the viewport sits at the origin with
    /// output on.
    pub fn new(rows: usize, cols: usize) -> (r: SheetData)
        requires
            1 <= rows <= 999,
            1 <= cols <= 18278,
        ensures
            r.rows == rows,
            r.cols == cols,
            r.start_row == 0,
            r.start_col == 0,
            r.flag == 1,
            r.pending_sleep == 0,
            sd_wf(r),
            forall|x: int|
                0 <= x < r.cells@.len() ==> {
                    &&& (#[trigger] r.cells@[x]).val == 0
                    &&& r.cells@[x].status == 0
                    &&& r.cells@[x].expression@.len() == 0
                    &&& r.cells@[x].dependencies@.len() == 0
                    &&& r.cells@[x].dependents@.len() == 0
                },
    {
        proof {
            lemma_dims_bound(rows as int, cols as int);
        }
        let total: usize = rows * cols;
        let mut cells: Vec<Cell> = Vec::new();
        let empty: [u8; 0] = [];
        let mut i: usize = 0;
        while i < total
            invariant
                0 <= i <= total,
                cells@.len() == i,
                forall|x: int|
                    0 <= x < i ==> {
                        &&& (#[trigger] cells@[x]).val == 0
                        &&& cells@[x].status == 0
                        &&& cells@[x].expression@.len() == 0
                        &&& cells@[x].dependencies@.len() == 0
                        &&& cells@[x].dependents@.len() == 0
                    },
            decreases total - i,
        {
            cells.push(Cell::new(0, empty.as_slice(), 0));
            i = i + 1;
        }
        SheetData {
            rows,
            cols,
            cells,
            start_row: 0,
            start_col: 0,
            flag: 1,
            pending_sleep: 0,
        }
    }

    /// The handle (flat id) of the cell at `(row, col)`.
    pub fn get(&self, row: usize, col: usize) -> (r: usize)
        requires
            sd_dims_ok(*self),
            row < self.rows,
            col < self.cols,
        ensures
            r == row * self.cols + col,
            (r as int) < self.cells@.len(),
    {
        proof {
            lemma_dims_bound(self.rows as int, self.cols as int);
            lemma_id_in_range(self.rows as int, self.cols as int, row as int, col as int);
        }
        row * self.cols + col
    }

    /// A view of the cell at `(row, col)`.
    pub fn cell(&self, row: usize, col: usize) -> (r: &Cell)
        requires
            sd_dims_ok(*self),
            row < self.rows,
            col < self.cols,
        ensures
            *r == self.cells@[row as int * self.cols as int + col as int],
    {
        let id: usize = self.get(row, col);
        &self.cells[id]
    }

    /// The coordinates of the cell with handle `target`, or `None` when the
    /// handle names no cell of this sheet.
    pub fn calculate_row_col(&self, target: usize) -> (r: Option<(usize, usize)>)
        requires
            sd_dims_ok(*self),
        ensures
            r == if (target as int) < self.cells@.len() {
                Some((((target as int / self.cols as int) as usize), ((target as int % self.cols as int) as usize)))
            } else {
                None::<(usize, usize)>
            },
    {
        proof {
            lemma_dims_bound(self.rows as int, self.cols as int);
        }
        if target < self.rows * self.cols {
            Some((target / self.cols, target % self.cols))
        } else {
            None
        }
    }

    /// Overwrites the value of the cell at `(row, col)`.
    pub fn set_val(&mut self, row: usize, col: usize, v: i32)
        requires
            sd_dims_ok(*old(self)),
            row < old(self).rows,
            col < old(self).cols,
        ensures
            final(self).cells@ == old(self).cells@.update(
                row as int * old(self).cols as int + col as int,
                (Cell {
                    val: v,
                    ..old(self).cells@[row as int * old(self).cols as int + col as int]
                }),
            ),
            final(self).rows == old(self).rows,
            final(self).cols == old(self).cols,
            final(self).start_row == old(self).start_row,
            final(self).start_col == old(self).start_col,
            final(self).flag == old(self).flag,
            final(self).pending_sleep == old(self).pending_sleep,
    {
        let id: usize = self.get(row, col);
        self.cells[id].val = v;
    }

    /// Overwrites the status of the cell at `(row, col)`.
    pub fn set_status(&mut self, row: usize, col: usize, st: i32)
        requires
            sd_dims_ok(*old(self)),
            row < old(self).rows,
            col < old(self).cols,
        ensures
            final(self).cells@ == old(self).cells@.update(
                row as int * old(self).cols as int + col as int,
                (Cell {
                    status: st,
                    ..old(self).cells@[row as int * old(self).cols as int + col as int]
                }),
            ),
            final(self).rows == old(self).rows,
            final(self).cols == old(self).cols,
            final(self).start_row == old(self).start_row,
            final(self).start_col == old(self).start_col,
            final(self).flag == old(self).flag,
            final(self).pending_sleep == old(self).pending_sleep,
    {
        let id: usize = self.get(row, col);
        self.cells[id].status = st;
    }
}

/// The arena of an in-range sheet stays well below the address space.
pub proof fn lemma_dims_bound(rows: int, cols: int)
    requires
        0 <= rows <= 999,
        0 <= cols <= 18278,
    ensures
        rows * cols <= 18259722,
{
    assert(rows * cols <= 18259722) by (nonlinear_arith)
        requires 0 <= rows <= 999, 0 <= cols <= 18278;
}

/// Row-major ids stay below the arena size.
pub proof fn lemma_id_in_range(rows: int, cols: int, row: int, col: int)
    requires
        0 <= row < rows,
        0 <= col < cols,
    ensures
        row * cols + col < rows * cols,
{
    assert(row * cols + col < rows * cols) by (nonlinear_arith)
        requires 0 <= row < rows, 0 <= col < cols;
}

/// Row-major ids decode back to their coordinates.
pub proof fn lemma_id_decode(cols: int, row: int, col: int)
    requires
        cols >= 1,
        0 <= row,
        0 <= col < cols,
    ensures
        (row * cols + col) / cols == row,
        (row * cols + col) % cols == col,
{
    vstd::arithmetic::div_mod::lemma_fundamental_div_mod_converse(
        row * cols + col,
        cols,
        row,
        col,
    );
}

} // verus!
