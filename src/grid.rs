//! Grid geometry, the list of cells and the order in which they are visited.
use rand::seq::SliceRandom;
use vstd::arithmetic::div_mod::{lemma_fundamental_div_mod, lemma_fundamental_div_mod_converse};
use vstd::prelude::*;

verus! {

/// One grid rectangle, named by its row `y` (in `0..col_size`) and column `x` (in `0..row_size`).
#[derive(Clone, Copy, Debug, PartialEq, Eq, Structural)]
pub struct Cell {
    pub y: u32,
    pub x: u32,
}

/// Why a grid cannot be laid over a target image.
#[derive(Clone, Copy, Debug, PartialEq, Eq, Structural)]
pub enum GridError {
    /// `row_size` or `col_size` is zero.
    ZeroCount,
    /// A block would be zero pixels wide or high.
    ZeroBlock,
}

/// Block geometry: `row_size` cells across, `col_size` cells down, each
/// `block_width` by `block_height` pixels.
#[derive(Clone, Copy, Debug, PartialEq, Eq, Structural)]
pub struct Grid {
    pub row_size: u32,
    pub col_size: u32,
    pub block_width: u32,
    pub block_height: u32,
}

impl Grid {
    pub open spec fn wf(self) -> bool {
        &&& self.row_size > 0
        &&& self.col_size > 0
        &&& self.block_width > 0
        &&& self.block_height > 0
        &&& self.canvas_width() <= u32::MAX
        &&& self.canvas_height() <= u32::MAX
    }

    pub open spec fn canvas_width(self) -> int {
        self.block_width * self.row_size
    }

    pub open spec fn canvas_height(self) -> int {
        self.block_height * self.col_size
    }

    pub open spec fn num_cells(self) -> int {
        self.row_size * self.col_size
    }

    /// The `i`-th cell in row-major order.
    pub open spec fn cell_at(self, i: int) -> Cell {
        Cell { y: (i / self.row_size as int) as u32, x: (i % self.row_size as int) as u32 }
    }

    /// Every cell of the grid, row by row.
    pub open spec fn cells(self) -> Seq<Cell> {
        Seq::new(self.num_cells() as nat, |i: int| self.cell_at(i))
    }

    /// The cell in which canvas pixel `(px, py)` lies.
    pub open spec fn cell_of_pixel(self, px: int, py: int) -> Cell {
        Cell { y: (py / self.block_height as int) as u32, x: (px / self.block_width as int) as u32 }
    }

    pub open spec fn in_grid(self, c: Cell) -> bool {
        c.y < self.col_size && c.x < self.row_size
    }

    /// Pixel `(px, py)` of the canvas lies in cell `c`.
    pub open spec fn covers(self, c: Cell, px: int, py: int) -> bool {
        &&& c.x * self.block_width <= px < (c.x + 1) * self.block_width
        &&& c.y * self.block_height <= py < (c.y + 1) * self.block_height
    }

    /// What `new` returns.
    pub open spec fn new_spec(width: u32, height: u32, row_size: u32, col_size: u32) -> Result<Grid, GridError> {
        if row_size == 0 || col_size == 0 {
            Err(GridError::ZeroCount)
        } else if width / row_size == 0 || height / col_size == 0 {
            Err(GridError::ZeroBlock)
        } else {
            Ok(
                Grid {
                    row_size,
                    col_size,
                    block_width: (width / row_size) as u32,
                    block_height: (height / col_size) as u32,
                },
            )
        }
    }

    /// Lays a grid of `row_size` by `col_size` cells over a `width` by `height`
    /// image; the pixels that do not divide evenly are left out of the canvas.
    pub fn new(width: u32, height: u32, row_size: u32, col_size: u32) -> (r: Result<Grid, GridError>)
        ensures
            (row_size == 0 || col_size == 0) ==> r == Err::<Grid, GridError>(GridError::ZeroCount),
            (row_size > 0 && col_size > 0 && (width / row_size == 0 || height / col_size == 0))
                ==> r == Err::<Grid, GridError>(GridError::ZeroBlock),
            (row_size > 0 && col_size > 0 && width / row_size > 0 && height / col_size > 0) ==> r
                == Ok::<Grid, GridError>(
                Grid {
                    row_size,
                    col_size,
                    block_width: (width / row_size) as u32,
                    block_height: (height / col_size) as u32,
                },
            ),
            r == Grid::new_spec(width, height, row_size, col_size),
            r is Ok ==> r->Ok_0.wf(),
            r is Ok ==> r->Ok_0.canvas_width() <= width && r->Ok_0.canvas_height() <= height,
    {
        if row_size == 0 || col_size == 0 {
            return Err(GridError::ZeroCount);
        }
        let block_width = width / row_size;
        let block_height = height / col_size;
        if block_width == 0 || block_height == 0 {
            return Err(GridError::ZeroBlock);
        }
        proof {
            vstd::arithmetic::div_mod::lemma_fundamental_div_mod(width as int, row_size as int);
            vstd::arithmetic::div_mod::lemma_fundamental_div_mod(height as int, col_size as int);
            assert(block_width * row_size <= width) by (nonlinear_arith)
                requires
                    width == row_size * (width / row_size) + width % row_size,
                    width % row_size >= 0,
                    block_width == width / row_size;
            assert(block_height * col_size <= height) by (nonlinear_arith)
                requires
                    height == col_size * (height / col_size) + height % col_size,
                    height % col_size >= 0,
                    block_height == height / col_size;
        }
        Ok(Grid { row_size, col_size, block_width, block_height })
    }

    /// Width of the canvas: the block width times the number of columns.
    pub fn canvas_width_exec(&self) -> (r: u32)
        requires
            self.wf(),
        ensures
            r == self.canvas_width(),
    {
        self.block_width * self.row_size
    }

    /// Height of the canvas: the block height times the number of rows.
    pub fn canvas_height_exec(&self) -> (r: u32)
        requires
            self.wf(),
        ensures
            r == self.canvas_height(),
    {
        self.block_height * self.col_size
    }

    /// Every cell of the grid, row by row.
    pub fn cell_list(&self) -> (r: Vec<Cell>)
        requires
            self.wf(),
        ensures
            r@ == self.cells(),
    {
        let mut r: Vec<Cell> = Vec::new();
        let mut y: u32 = 0;
        while y < self.col_size
            invariant
                self.wf(),
                y <= self.col_size,
                r@.len() == y * self.row_size,
                forall|i: int| 0 <= i < r@.len() ==> r@[i] == self.cell_at(i),
            decreases self.col_size - y,
        {
            let mut x: u32 = 0;
            while x < self.row_size
                invariant
                    self.wf(),
                    y < self.col_size,
                    x <= self.row_size,
                    r@.len() == y * self.row_size + x,
                    forall|i: int| 0 <= i < r@.len() ==> r@[i] == self.cell_at(i),
                decreases self.row_size - x,
            {
                proof {
                    lemma_fundamental_div_mod_converse(
                        r@.len() as int,
                        self.row_size as int,
                        y as int,
                        x as int,
                    );
                }
                r.push(Cell { y, x });
                x = x + 1;
            }
            proof {
                assert((y + 1) * self.row_size == y * self.row_size + self.row_size)
                    by (nonlinear_arith);
            }
            y = y + 1;
        }
        proof {
            assert(self.col_size * self.row_size == self.num_cells()) by (nonlinear_arith);
            assert(r@ =~= self.cells());
        }
        r
    }

    /// Every cell of the grid, each exactly once, in a random order.
    pub fn traversal_order(&self) -> (r: Vec<Cell>)
        requires
            self.wf(),
        ensures
            r@.to_multiset() == self.cells().to_multiset(),
    {
        let mut cells = self.cell_list();
        shuffle_cells(&mut cells);
        cells
    }
}

/// Relies on rand's `SliceRandom::shuffle` with the thread-local generator:
/// it permutes the slice in place.
#[verifier::external_body]
fn shuffle_cells(cells: &mut Vec<Cell>)
    ensures
        final(cells)@.to_multiset() == old(cells)@.to_multiset(),
{
    cells.shuffle(&mut rand::thread_rng());
}

/// Each cell of the row-major list lies in the grid.
pub proof fn lemma_cell_at_in_grid(g: Grid, i: int)
    requires
        g.wf(),
        0 <= i < g.num_cells(),
    ensures
        g.in_grid(g.cell_at(i)),
        0 <= i / (g.row_size as int) < g.col_size,
        0 <= i % (g.row_size as int) < g.row_size,
        i == g.row_size * (i / (g.row_size as int)) + i % (g.row_size as int),
{
    let rs = g.row_size as int;
    let cs = g.col_size as int;
    vstd::arithmetic::div_mod::lemma_fundamental_div_mod(i, rs);
    assert(0 <= i / rs < cs) by (nonlinear_arith)
        requires
            i == rs * (i / rs) + i % rs,
            0 <= i % rs < rs,
            0 <= i < rs * cs,
            rs > 0,
    ;
}

/// Each cell of the grid stands at one place of the row-major list.
proof fn lemma_cell_index(g: Grid, c: Cell)
    requires
        g.wf(),
        g.in_grid(c),
    ensures
        0 <= c.y * g.row_size + c.x < g.num_cells(),
        g.cell_at(c.y * g.row_size + c.x) == c,
{
    let rs = g.row_size as int;
    let i = c.y * rs + c.x;
    lemma_fundamental_div_mod_converse(i, rs, c.y as int, c.x as int);
    assert(0 <= i < g.num_cells()) by (nonlinear_arith)
        requires
            i == c.y * rs + c.x,
            c.x < rs,
            c.y < g.col_size,
            g.num_cells() == rs * g.col_size,
    ;
}

/// A visiting order that is a permutation of the cells visits each cell of
/// the grid exactly once: it has one entry per cell, no cell twice, and
/// holds exactly the cells of the grid.
pub proof fn lemma_order_visits_each_cell_once(g: Grid, order: Seq<Cell>)
    requires
        g.wf(),
        order.to_multiset() == g.cells().to_multiset(),
    ensures
        order.len() == g.num_cells(),
        order.no_duplicates(),
        forall|c: Cell| g.in_grid(c) <==> order.contains(c),
{
    let cells = g.cells();
    vstd::seq_lib::to_multiset_len(order);
    vstd::seq_lib::to_multiset_len(cells);
    assert forall|i: int, j: int| 0 <= i < cells.len() && 0 <= j < cells.len() && i != j implies cells[i]
        != cells[j] by {
        lemma_fundamental_div_mod(i, g.row_size as int);
        lemma_fundamental_div_mod(j, g.row_size as int);
        lemma_cell_at_in_grid(g, i);
        lemma_cell_at_in_grid(g, j);
        let rs = g.row_size as int;
        if cells[i] == cells[j] {
            assert(i / rs == j / rs);
            assert(i % rs == j % rs);
        }
    }
    cells.lemma_multiset_has_no_duplicates();
    order.lemma_multiset_has_no_duplicates_conv();
    assert forall|c: Cell| g.in_grid(c) <==> order.contains(c) by {
        vstd::seq_lib::to_multiset_contains(order, c);
        vstd::seq_lib::to_multiset_contains(cells, c);
        if g.in_grid(c) {
            lemma_cell_index(g, c);
            assert(cells[c.y * g.row_size + c.x] == c);
        }
        if cells.contains(c) {
            let i = choose|i: int| 0 <= i < cells.len() && cells[i] == c;
            lemma_cell_at_in_grid(g, i);
        }
    }
}

/// The cells tile the canvas: every canvas pixel lies in a cell of the grid,
/// no pixel lies in two cells, and every pixel of a cell lies in the canvas.
pub proof fn lemma_cells_partition_canvas(g: Grid)
    requires
        g.wf(),
    ensures
        forall|px: int, py: int|
            0 <= px < g.canvas_width() && 0 <= py < g.canvas_height() ==> #[trigger] g.in_grid(
                g.cell_of_pixel(px, py),
            ) && g.covers(g.cell_of_pixel(px, py), px, py),
        forall|c1: Cell, c2: Cell, px: int, py: int|
            #[trigger] g.covers(c1, px, py) && #[trigger] g.covers(c2, px, py) ==> c1 == c2,
        forall|c: Cell, px: int, py: int|
            g.in_grid(c) && #[trigger] g.covers(c, px, py) ==> 0 <= px < g.canvas_width() && 0 <= py
                < g.canvas_height(),
{
    let bw = g.block_width as int;
    let bh = g.block_height as int;
    assert forall|px: int, py: int|
        0 <= px < g.canvas_width() && 0 <= py < g.canvas_height() implies #[trigger] g.in_grid(
            g.cell_of_pixel(px, py),
        ) && g.covers(g.cell_of_pixel(px, py), px, py) by {
        lemma_block_of(px, bw, g.row_size as int);
        lemma_block_of(py, bh, g.col_size as int);
    }
    assert forall|c1: Cell, c2: Cell, px: int, py: int|
        #[trigger] g.covers(c1, px, py) && #[trigger] g.covers(c2, px, py) implies c1 == c2 by {
        lemma_same_block(px, bw, c1.x as int, c2.x as int);
        lemma_same_block(py, bh, c1.y as int, c2.y as int);
    }
    assert forall|c: Cell, px: int, py: int|
        g.in_grid(c) && #[trigger] g.covers(c, px, py) implies 0 <= px < g.canvas_width() && 0 <= py
            < g.canvas_height() by {
        assert((c.x + 1) * bw <= bw * g.row_size) by (nonlinear_arith)
            requires
                c.x < g.row_size,
                bw > 0,
        ;
        assert((c.y + 1) * bh <= bh * g.col_size) by (nonlinear_arith)
            requires
                c.y < g.col_size,
                bh > 0,
        ;
        assert(c.x * bw >= 0 && c.y * bh >= 0) by (nonlinear_arith)
            requires
                bw > 0,
                bh > 0,
        ;
    }
}

proof fn lemma_block_of(p: int, b: int, count: int)
    requires
        b > 0,
        0 <= p < b * count,
        count <= u32::MAX,
    ensures
        0 <= p / b < count,
        (p / b) * b <= p < (p / b + 1) * b,
{
    lemma_fundamental_div_mod(p, b);
    assert(0 <= p / b < count) by (nonlinear_arith)
        requires
            p == b * (p / b) + p % b,
            0 <= p % b < b,
            0 <= p < b * count,
    ;
    assert((p / b) * b <= p < (p / b + 1) * b) by (nonlinear_arith)
        requires
            p == b * (p / b) + p % b,
            0 <= p % b < b,
    ;
}

proof fn lemma_same_block(p: int, b: int, i: int, j: int)
    requires
        b > 0,
        i * b <= p < (i + 1) * b,
        j * b <= p < (j + 1) * b,
    ensures
        i == j,
{
    assert(i == j) by (nonlinear_arith)
        requires
            b > 0,
            i * b <= p < (i + 1) * b,
            j * b <= p < (j + 1) * b,
    ;
}

} // verus!
