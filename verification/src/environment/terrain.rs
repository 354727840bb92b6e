//! Terrain types, and the terrain and caves of a grid of cells.
use vstd::prelude::*;

verus! {

/// The type of terrain in a grid cell.
#[derive(Debug, Clone, Copy, PartialEq, Eq, Hash, Structural)]
pub enum TerrainType {
    Grassland,
    Desert,
    Water,
    Forest,
    Mountain,
}

impl TerrainType {
    /// Whether entities can enter this terrain: every terrain but water.
    pub fn is_passable(self) -> (r: bool)
        ensures
            r == (self != TerrainType::Water),
    {
        match self {
            TerrainType::Water => false,
            _ => true,
        }
    }
}

/// The number of entries of `s` equal to `x`.
pub open spec fn count_eq<T>(s: Seq<T>, x: T) -> nat
    decreases s.len(),
{
    if s.len() == 0 {
        0
    } else {
        count_eq(s.drop_last(), x) + if s.last() == x {
            1nat
        } else {
            0nat
        }
    }
}

/// The terrain of each cell of a grid, row-major, and which cells hold
/// caves (none when the world has no caves).
#[derive(Debug)]
pub struct TerrainCells {
    cells: Vec<TerrainType>,
    caves: Vec<bool>,
    cols: usize,
    rows: usize,
}

impl TerrainCells {
    /// The terrain of the cells, row-major.
    pub closed spec fn cell_seq(&self) -> Seq<TerrainType> {
        self.cells@
    }

    /// The cave flags of the cells, row-major (empty without caves).
    pub closed spec fn cave_seq(&self) -> Seq<bool> {
        self.caves@
    }

    /// Number of columns.
    pub closed spec fn col_count(&self) -> usize {
        self.cols
    }

    /// Number of rows.
    pub closed spec fn row_count(&self) -> usize {
        self.rows
    }

    /// The grid has a cell for each column and row, and a cave flag for
    /// each cell or none.
    pub open spec fn wf(&self) -> bool {
        &&& self.cell_seq().len() == self.col_count() * self.row_count()
        &&& (self.cave_seq().len() == 0 || self.cave_seq().len() == self.cell_seq().len())
    }

    /// At least one column and one row, so that a position can be clamped
    /// into the grid.
    pub open spec fn has_cells(&self) -> bool {
        self.col_count() > 0 && self.row_count() > 0
    }

    /// The row-major index of the cell at (`col`, `row`), each clamped to
    /// the grid.
    pub open spec fn clamped(&self, col: int, row: int) -> int {
        let c = if col < self.col_count() - 1 { col } else { self.col_count() - 1 };
        let r = if row < self.row_count() - 1 { row } else { self.row_count() - 1 };
        r * self.col_count() + c
    }

    /// A grid from its cells (row-major, `cols` by `rows`) and cave flags
    /// (one per cell, or none).
    pub fn new(cells: Vec<TerrainType>, caves: Vec<bool>, cols: usize, rows: usize) -> (g: Self)
        requires
            cells@.len() == cols * rows,
            caves@.len() == 0 || caves@.len() == cells@.len(),
        ensures
            g.wf(),
            g.cell_seq() == cells@,
            g.cave_seq() == caves@,
            g.col_count() == cols,
            g.row_count() == rows,
    {
        TerrainCells { cells, caves, cols, rows }
    }

    /// Number of columns.
    pub fn cols(&self) -> (n: usize)
        ensures
            n == self.col_count(),
    {
        self.cols
    }

    /// Number of rows.
    pub fn rows(&self) -> (n: usize)
        ensures
            n == self.row_count(),
    {
        self.rows
    }

    /// The row-major index of a clamped cell.
    fn index(&self, col: usize, row: usize) -> (i: usize)
        requires
            self.wf(),
            self.has_cells(),
        ensures
            i == self.clamped(col as int, row as int),
            i < self.cell_seq().len(),
    {
        let c = if col < self.cols - 1 { col } else { self.cols - 1 };
        let r = if row < self.rows - 1 { row } else { self.rows - 1 };
        let len = self.cells.len();
        proof {
            let cols = self.cols as int;
            let rows = self.rows as int;
            assert(0 <= r * cols && r * cols + c < cols * rows) by (nonlinear_arith)
                requires
                    0 <= r < rows,
                    0 <= c < cols,
            ;
            assert(self.cells@.len() == cols * rows);
            assert(r * cols + c < len);
        }
        r * self.cols + c
    }

    /// The terrain of a cell, the coordinates clamped to the grid.
    pub fn get(&self, col: usize, row: usize) -> (t: TerrainType)
        requires
            self.wf(),
            self.has_cells(),
        ensures
            t == self.cell_seq()[self.clamped(col as int, row as int)],
    {
        let i = self.index(col, row);
        self.cells[i]
    }

    /// Number of cells.
    pub fn cell_count(&self) -> (n: usize)
        requires
            self.wf(),
        ensures
            n == self.col_count() * self.row_count(),
    {
        self.cells.len()
    }

    /// Number of cells of a terrain type.
    pub fn count_terrain(&self, terrain: TerrainType) -> (n: usize)
        ensures
            n == count_eq(self.cell_seq(), terrain),
    {
        let mut n: usize = 0;
        let mut i: usize = 0;
        while i < self.cells.len()
            invariant
                i <= self.cells@.len(),
                n == count_eq(self.cells@.take(i as int), terrain),
                n <= i,
            decreases self.cells@.len() - i,
        {
            proof {
                assert(self.cells@.take(i + 1).drop_last() =~= self.cells@.take(i as int));
            }
            if self.cells[i] == terrain {
                n = n + 1;
            }
            i = i + 1;
        }
        proof {
            assert(self.cells@.take(i as int) =~= self.cells@);
        }
        n
    }

    /// Whether the grid has caves.
    pub fn has_caves(&self) -> (r: bool)
        ensures
            r == (self.cave_seq().len() > 0),
    {
        self.caves.len() > 0
    }

    /// Whether a cell holds a cave, the coordinates clamped to the grid;
    /// never without caves.
    pub fn is_cave_at_cell(&self, col: usize, row: usize) -> (r: bool)
        requires
            self.wf(),
        ensures
            r == (self.cave_seq().len() > 0 && self.cave_seq()[self.clamped(col as int, row as int)]),
    {
        if self.caves.len() == 0 {
            return false;
        }
        proof {
            let c = self.cols as int;
            let r = self.rows as int;
            assert(c > 0 && r > 0) by (nonlinear_arith)
                requires
                    c * r > 0,
                    c >= 0,
                    r >= 0,
            ;
        }
        let i = self.index(col, row);
        self.caves[i]
    }

    /// Number of cells holding caves.
    pub fn count_caves(&self) -> (n: usize)
        ensures
            n == count_eq(self.cave_seq(), true),
    {
        let mut n: usize = 0;
        let mut i: usize = 0;
        while i < self.caves.len()
            invariant
                i <= self.caves@.len(),
                n == count_eq(self.caves@.take(i as int), true),
                n <= i,
            decreases self.caves@.len() - i,
        {
            proof {
                assert(self.caves@.take(i + 1).drop_last() =~= self.caves@.take(i as int));
            }
            if self.caves[i] {
                n = n + 1;
            }
            i = i + 1;
        }
        proof {
            assert(self.caves@.take(i as int) =~= self.caves@);
        }
        n
    }
}

} // verus!
