//! The buckets of a uniform-grid spatial index: which cell a position falls
//! in, clamped to the grid, and which cells a query rectangle covers.
//!
//! Positions are turned into (column, row) pairs by whoever holds the cell
//! size; the grid only ever sees whole cell coordinates, which may lie
//! outside it and are then clamped to its border.
use vstd::prelude::*;

verus! {

/// `v` clamped into `0 ..= n - 1`.
pub open spec fn clamp_axis(v: int, n: int) -> int {
    if v < 0 {
        0
    } else if v > n - 1 {
        n - 1
    } else {
        v
    }
}

/// The row-major indices of the cells of row `row` from column `c0` to
/// `c1` (none when `c1 < c0`), in a grid of `cols` columns.
pub open spec fn row_span(cols: int, row: int, c0: int, c1: int) -> Seq<int> {
    if c1 < c0 {
        Seq::empty()
    } else {
        Seq::new((c1 - c0 + 1) as nat, |j: int| row * cols + c0 + j)
    }
}

/// The row-major indices of the cells of rows `r0 ..= r1` and columns
/// `c0 ..= c1`, row by row, each row from left to right.
pub open spec fn rect_cells(cols: int, c0: int, c1: int, r0: int, r1: int) -> Seq<int>
    decreases r1 - r0 + 1,
{
    if r1 < r0 {
        Seq::empty()
    } else {
        rect_cells(cols, c0, c1, r0, r1 - 1) + row_span(cols, r1, c0, c1)
    }
}

/// The indices of `s` as integers.
pub open spec fn as_ints(s: Seq<usize>) -> Seq<int> {
    s.map_values(|i: usize| i as int)
}

/// A rectangle with no columns lists no cells.
proof fn lemma_rect_no_columns(cols: int, c0: int, c1: int, r0: int, r1: int)
    requires
        c1 < c0,
    ensures
        rect_cells(cols, c0, c1, r0, r1) == Seq::<int>::empty(),
    decreases r1 - r0 + 1,
{
    if r1 >= r0 {
        lemma_rect_no_columns(cols, c0, c1, r0, r1 - 1);
        assert(rect_cells(cols, c0, c1, r0, r1) =~= Seq::<int>::empty());
    }
}

/// Each cell of a rectangle is listed by it.
proof fn lemma_rect_contains(cols: int, c0: int, c1: int, r0: int, r1: int, c: int, r: int)
    requires
        c0 <= c <= c1,
        r0 <= r <= r1,
    ensures
        rect_cells(cols, c0, c1, r0, r1).contains(r * cols + c),
    decreases r1 - r0 + 1,
{
    let prefix = rect_cells(cols, c0, c1, r0, r1 - 1);
    let span = row_span(cols, r1, c0, c1);
    if r == r1 {
        assert(span[c - c0] == r * cols + c);
        assert((prefix + span)[prefix.len() + (c - c0)] == r * cols + c);
    } else {
        lemma_rect_contains(cols, c0, c1, r0, r1 - 1, c, r);
        let k = choose|k: int| 0 <= k < prefix.len() && prefix[k] == r * cols + c;
        assert((prefix + span)[k] == r * cols + c);
    }
}

/// A grid of `cols` by `rows` cells, each holding the items filed under it.
#[derive(Debug)]
pub struct SpatialGrid<T> {
    cells: Vec<Vec<T>>,
    cols: usize,
    rows: usize,
}

impl<T> SpatialGrid<T> {
    /// The items of each cell, row-major.
    pub closed spec fn buckets(&self) -> Seq<Seq<T>> {
        self.cells@.map_values(|c: Vec<T>| c@)
    }

    /// Number of columns.
    pub closed spec fn col_count(&self) -> usize {
        self.cols
    }

    /// Number of rows.
    pub closed spec fn row_count(&self) -> usize {
        self.rows
    }

    /// A bucket for each cell.
    pub open spec fn wf(&self) -> bool {
        self.buckets().len() == self.col_count() * self.row_count()
    }

    /// At least one column and one row: positions can be filed and queried.
    pub open spec fn has_cells(&self) -> bool {
        self.col_count() > 0 && self.row_count() > 0
    }

    /// The row-major index of the cell at (`col`, `row`), each clamped to
    /// the grid.
    pub open spec fn cell_of(&self, col: int, row: int) -> int {
        clamp_axis(row, self.row_count() as int) * self.col_count() + clamp_axis(
            col,
            self.col_count() as int,
        )
    }

    /// The row-major indices of the cells of the rectangle from
    /// (`min_col`, `min_row`) to (`max_col`, `max_row`), each corner clamped
    /// to the grid: row by row, each row from left to right.
    pub open spec fn covered(&self, min_col: int, max_col: int, min_row: int, max_row: int) -> Seq<
        int,
    > {
        let cols = self.col_count() as int;
        let rows = self.row_count() as int;
        rect_cells(
            cols,
            clamp_axis(min_col, cols),
            clamp_axis(max_col, cols),
            clamp_axis(min_row, rows),
            clamp_axis(max_row, rows),
        )
    }

    /// An empty grid of `cols` by `rows` cells (none when either is zero).
    pub fn new(cols: usize, rows: usize) -> (g: Self)
        requires
            cols * rows <= usize::MAX,
        ensures
            g.wf(),
            g.col_count() == cols,
            g.row_count() == rows,
            forall|i: int| 0 <= i < g.buckets().len() ==> #[trigger] g.buckets()[i].len() == 0,
    {
        let total = cols * rows;
        let mut cells: Vec<Vec<T>> = Vec::new();
        let mut i: usize = 0;
        while i < total
            invariant
                i <= total,
                cells@.len() == i,
                forall|k: int| 0 <= k < i ==> #[trigger] cells@[k]@.len() == 0,
            decreases total - i,
        {
            cells.push(Vec::new());
            i = i + 1;
        }
        SpatialGrid { cells, cols, rows }
    }

    /// Number of columns.
    pub fn cols(&self) -> (n: usize)
        ensures
            n == self.col_count(),
    {
        self.cols
    }

    /// Number of rows.
    pub fn rows(&self) -> (n: usize)
        ensures
            n == self.row_count(),
    {
        self.rows
    }

    /// Empties every cell; the grid keeps its shape.
    pub fn clear(&mut self)
        requires
            old(self).wf(),
        ensures
            final(self).wf(),
            final(self).col_count() == old(self).col_count(),
            final(self).row_count() == old(self).row_count(),
            final(self).buckets().len() == old(self).buckets().len(),
            forall|i: int|
                0 <= i < final(self).buckets().len() ==> #[trigger] final(self).buckets()[i].len()
                    == 0,
    {
        let n = self.cells.len();
        let mut i: usize = 0;
        while i < n
            invariant
                i <= n,
                n == self.cells@.len(),
                self.cols == old(self).cols,
                self.rows == old(self).rows,
                self.cells@.len() == old(self).cells@.len(),
                forall|k: int| 0 <= k < i ==> #[trigger] self.cells@[k]@.len() == 0,
            decreases n - i,
        {
            self.cells[i].clear();
            i = i + 1;
        }
    }

    /// `v` clamped into `0 ..= n - 1`.
    fn clamp_to(v: i64, n: usize) -> (c: usize)
        requires
            n > 0,
        ensures
            c == clamp_axis(v as int, n as int),
            c < n,
    {
        if v < 0 {
            0
        } else if (v as u64) > ((n - 1) as u64) {
            n - 1
        } else {
            v as usize
        }
    }

    /// The row-major index of the cell at (`col`, `row`), each clamped to
    /// the grid.
    pub fn cell_index(&self, col: i64, row: i64) -> (i: usize)
        requires
            self.wf(),
            self.has_cells(),
        ensures
            i == self.cell_of(col as int, row as int),
            i < self.buckets().len(),
    {
        let c = Self::clamp_to(col, self.cols);
        let r = Self::clamp_to(row, self.rows);
        let len = self.cells.len();
        proof {
            let cols = self.cols as int;
            let rows = self.rows as int;
            assert(0 <= r * cols && r * cols + c < cols * rows) by (nonlinear_arith)
                requires
                    0 <= r < rows,
                    0 <= c < cols,
            ;
            assert(self.cells@.len() == self.buckets().len());
            assert(r * cols + c < len);
        }
        r * self.cols + c
    }

    /// Files `item` under the cell at (`col`, `row`), clamped to the grid;
    /// every other cell is unchanged.
    pub fn insert(&mut self, col: i64, row: i64, item: T)
        requires
            old(self).wf(),
            old(self).has_cells(),
        ensures
            final(self).wf(),
            final(self).col_count() == old(self).col_count(),
            final(self).row_count() == old(self).row_count(),
            final(self).buckets() == old(self).buckets().update(
                old(self).cell_of(col as int, row as int),
                old(self).buckets()[old(self).cell_of(col as int, row as int)].push(item),
            ),
    {
        let i = self.cell_index(col, row);
        self.cells[i].push(item);
        proof {
            assert(self.buckets() =~= old(self).buckets().update(
                i as int,
                old(self).buckets()[i as int].push(item),
            ));
        }
    }

    /// Appends the indices of row `row`, columns `c0 ..= c1`, to `out`.
    fn push_row(&self, out: &mut Vec<usize>, row: usize, c0: usize, c1: usize)
        requires
            self.wf(),
            self.has_cells(),
            row < self.row_count(),
            c0 <= c1 < self.col_count(),
        ensures
            as_ints(final(out)@) == as_ints(old(out)@) + row_span(
                self.col_count() as int,
                row as int,
                c0 as int,
                c1 as int,
            ),
    {
        let len = self.cells.len();
        proof {
            let cols = self.cols as int;
            let rows = self.rows as int;
            assert(row * cols + cols <= cols * rows) by (nonlinear_arith)
                requires
                    0 <= row < rows,
                    0 <= cols,
            ;
            assert(self.cells@.len() == self.buckets().len());
        }
        let base = row * self.cols;
        let mut col = c0;
        while col <= c1
            invariant
                c0 <= col <= c1 + 1,
                c1 < self.cols,
                base == row * self.cols,
                base + self.cols <= len,
                as_ints(out@) == as_ints(old(out)@) + row_span(
                    self.cols as int,
                    row as int,
                    c0 as int,
                    col - 1,
                ),
            decreases c1 + 1 - col,
        {
            let ghost before = out@;
            out.push(base + col);
            proof {
                assert(as_ints(out@) =~= as_ints(before).push((base + col) as int));
                assert(row_span(self.cols as int, row as int, c0 as int, col as int) =~= row_span(
                    self.cols as int,
                    row as int,
                    c0 as int,
                    col - 1,
                ).push(row * self.cols + col));
            }
            col = col + 1;
        }
    }

    /// The row-major indices of the cells of the rectangle from
    /// (`min_col`, `min_row`) to (`max_col`, `max_row`), each corner clamped
    /// to the grid, row by row and each row from left to right; none when
    /// the clamped rectangle is empty.
    pub fn cells_in_range(&self, min_col: i64, max_col: i64, min_row: i64, max_row: i64) -> (cells:
        Vec<usize>)
        requires
            self.wf(),
            self.has_cells(),
        ensures
            as_ints(cells@) == self.covered(
                min_col as int,
                max_col as int,
                min_row as int,
                max_row as int,
            ),
    {
        let c0 = Self::clamp_to(min_col, self.cols);
        let c1 = Self::clamp_to(max_col, self.cols);
        let r0 = Self::clamp_to(min_row, self.rows);
        let r1 = Self::clamp_to(max_row, self.rows);
        let ghost cols = self.cols as int;
        let mut out: Vec<usize> = Vec::new();
        if c1 < c0 {
            proof {
                lemma_rect_no_columns(cols, c0 as int, c1 as int, r0 as int, r1 as int);
                assert(as_ints(out@) =~= Seq::<int>::empty());
            }
            return out;
        }
        if r1 < r0 {
            proof {
                assert(as_ints(out@) =~= Seq::<int>::empty());
            }
            return out;
        }
        let mut row = r0;
        proof {
            assert(as_ints(out@) =~= Seq::<int>::empty());
        }
        while row <= r1
            invariant
                self.wf(),
                self.has_cells(),
                c0 <= c1 < self.cols,
                r0 <= row <= r1 + 1,
                r1 < self.rows,
                cols == self.cols,
                as_ints(out@) == rect_cells(cols, c0 as int, c1 as int, r0 as int, row - 1),
            decreases r1 + 1 - row,
        {
            self.push_row(&mut out, row, c0, c1);
            row = row + 1;
        }
        out
    }

    /// The items filed under cell `idx`.
    pub fn cell(&self, idx: usize) -> (items: &Vec<T>)
        requires
            idx < self.buckets().len(),
        ensures
            items@ == self.buckets()[idx as int],
    {
        &self.cells[idx]
    }
}

/// Law: whatever cell a position falls in, a query whose rectangle holds that
/// position lists the cell: clamping to the grid never loses a cell that
/// the rectangle covers.
pub proof fn law_range_covers_cell<T>(
    g: SpatialGrid<T>,
    col: int,
    row: int,
    min_col: int,
    max_col: int,
    min_row: int,
    max_row: int,
)
    requires
        g.wf(),
        g.has_cells(),
        min_col <= col <= max_col,
        min_row <= row <= max_row,
    ensures
        g.covered(min_col, max_col, min_row, max_row).contains(g.cell_of(col, row)),
{
    let cols = g.col_count() as int;
    let rows = g.row_count() as int;
    lemma_rect_contains(
        cols,
        clamp_axis(min_col, cols),
        clamp_axis(max_col, cols),
        clamp_axis(min_row, rows),
        clamp_axis(max_row, rows),
        clamp_axis(col, cols),
        clamp_axis(row, rows),
    );
}

} // verus!
