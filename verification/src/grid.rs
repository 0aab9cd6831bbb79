//! The rectangular patch of hexagonal cells and its neighbourhood relation.

use vstd::arithmetic::div_mod::{lemma_fundamental_div_mod, lemma_fundamental_div_mod_converse};
use vstd::prelude::*;

verus! {

/// Number of columns of the grid that the scene shows.
pub const GRID_WIDTH: i32 = 15;

/// Number of rows of the grid that the scene shows.
pub const GRID_HEIGHT: i32 = 15;

/// Number of sides (and of neighbours) of a hexagonal cell.
pub const SIDES: usize = 6;

/// A cell of the grid, addressed by column `q` and row `r`.
#[derive(Clone, Copy, Debug, PartialEq, Eq, Structural)]
pub struct Cell {
    pub q: i32,
    pub r: i32,
}

/// Whether `(q, r)` lies inside a grid of `width` columns and `height` rows.
pub open spec fn in_grid(width: int, height: int, q: int, r: int) -> bool {
    0 <= q < width && 0 <= r < height
}

/// The step in `(q, r)` that leads across side `side` to the neighbour there.
/// Sides are numbered counter-clockwise, starting with the one facing east.
pub open spec fn side_offset(side: int) -> (int, int) {
    if side == 0 {
        (1, 0)
    } else if side == 1 {
        (1, -1)
    } else if side == 2 {
        (0, -1)
    } else if side == 3 {
        (-1, 0)
    } else if side == 4 {
        (-1, 1)
    } else {
        (0, 1)
    }
}

/// The side through which a neighbour looks back: the one opposite `side`.
pub open spec fn opposite_side(side: int) -> int {
    (side + 3) % 6
}

/// The coordinates of the neighbour of `(q, r)` across side `side`.
pub open spec fn neighbor_of(q: int, r: int, side: int) -> (int, int) {
    (q + side_offset(side).0, r + side_offset(side).1)
}

/// The cells of a grid in the order in which the grid is walked: column by
/// column, and each column from row zero upwards. The cell `(q, r)` stands at
/// index `q * height + r`.
pub open spec fn grid_cells_spec(width: int, height: int) -> Seq<Cell> {
    if width <= 0 || height <= 0 {
        Seq::empty()
    } else {
        Seq::new(
            (width * height) as nat,
            |i: int| Cell { q: (i / height) as i32, r: (i % height) as i32 },
        )
    }
}

/// Rows with an odd index are drawn shifted by half a cell to the right.
pub open spec fn is_shifted_row(r: int) -> bool {
    r % 2 == 1
}

/// The step across side `side`.
pub fn neighbor_offset(side: usize) -> (d: (i32, i32))
    requires
        side < SIDES,
    ensures
        (d.0 as int, d.1 as int) == side_offset(side as int),
{
    match side {
        0 => (1, 0),
        1 => (1, -1),
        2 => (0, -1),
        3 => (-1, 0),
        4 => (-1, 1),
        _ => (0, 1),
    }
}

/// Tells whether row `r` is one of the shifted rows. This holds of every odd
/// row, above and below row zero alike.
pub fn row_is_shifted(r: i32) -> (shifted: bool)
    ensures
        shifted == is_shifted_row(r as int),
{
    r % 2 != 0
}

/// Tells whether `cell` lies inside a grid of `width` columns and `height`
/// rows.
pub fn grid_contains(width: i32, height: i32, cell: Cell) -> (inside: bool)
    ensures
        inside == in_grid(width as int, height as int, cell.q as int, cell.r as int),
{
    0 <= cell.q && cell.q < width && 0 <= cell.r && cell.r < height
}

/// The neighbour of `cell` across side `side`, if that neighbour lies inside
/// the grid. The cell itself may lie anywhere.
pub fn grid_neighbor(width: i32, height: i32, cell: Cell, side: usize) -> (found: Option<Cell>)
    requires
        side < SIDES,
    ensures
        match found {
            Some(n) => {
                &&& (n.q as int, n.r as int) == neighbor_of(cell.q as int, cell.r as int, side as int)
                &&& in_grid(width as int, height as int, n.q as int, n.r as int)
            },
            None => {
                let n = neighbor_of(cell.q as int, cell.r as int, side as int);
                !in_grid(width as int, height as int, n.0, n.1)
            },
        },
{
    let (dq, dr) = neighbor_offset(side);
    let nq: i64 = cell.q as i64 + dq as i64;
    let nr: i64 = cell.r as i64 + dr as i64;
    if 0 <= nq && nq < width as i64 && 0 <= nr && nr < height as i64 {
        Some(Cell { q: nq as i32, r: nr as i32 })
    } else {
        None
    }
}

/// All cells of the grid, in walking order. A grid without columns or
/// without rows has no cells.
pub fn grid_cells(width: i32, height: i32) -> (cells: Vec<Cell>)
    ensures
        cells@ == grid_cells_spec(width as int, height as int),
{
    let mut cells: Vec<Cell> = Vec::new();
    if width <= 0 || height <= 0 {
        return cells;
    }
    let mut q: i32 = 0;
    while q < width
        invariant
            0 < height,
            0 <= q <= width,
            cells@.len() == q * height,
            forall|i: int|
                0 <= i < cells@.len() ==> cells@[i] == (Cell {
                    q: (i / (height as int)) as i32,
                    r: (i % (height as int)) as i32,
                }),
        decreases width - q,
    {
        let mut r: i32 = 0;
        while r < height
            invariant
                0 < height,
                0 <= q < width,
                0 <= r <= height,
                cells@.len() == q * height + r,
                forall|i: int|
                    0 <= i < cells@.len() ==> cells@[i] == (Cell {
                        q: (i / (height as int)) as i32,
                        r: (i % (height as int)) as i32,
                    }),
            decreases height - r,
        {
            proof {
                lemma_fundamental_div_mod_converse(
                    q * height + r,
                    height as int,
                    q as int,
                    r as int,
                );
            }
            cells.push(Cell { q, r });
            r = r + 1;
        }
        assert(q * height + height == (q + 1) * height) by (nonlinear_arith);
        q = q + 1;
    }
    cells
}

/// Crossing a side and then the opposite side leads back to where one
/// started, and the opposite of the opposite side is the side itself.
pub proof fn lemma_neighbor_round_trip(q: int, r: int, side: int)
    requires
        0 <= side < 6,
    ensures
        0 <= opposite_side(side) < 6,
        opposite_side(opposite_side(side)) == side,
        ({
            let n = neighbor_of(q, r, side);
            neighbor_of(n.0, n.1, opposite_side(side)) == (q, r)
        }),
{
}

/// The six neighbours of a cell are six different cells, and none of them is
/// the cell itself.
pub proof fn lemma_neighbors_distinct(q: int, r: int, side: int, other: int)
    requires
        0 <= side < 6,
        0 <= other < 6,
    ensures
        neighbor_of(q, r, side) != (q, r),
        neighbor_of(q, r, side) == neighbor_of(q, r, other) ==> side == other,
{
}

/// Every cell inside the grid stands in the walk, at index `q * height + r`.
pub proof fn lemma_grid_cells_index(width: int, height: int, q: int, r: int)
    requires
        width <= i32::MAX,
        height <= i32::MAX,
        in_grid(width, height, q, r),
    ensures
        0 <= q * height + r < grid_cells_spec(width, height).len(),
        grid_cells_spec(width, height)[q * height + r] == (Cell { q: q as i32, r: r as i32 }),
{
    lemma_fundamental_div_mod_converse(q * height + r, height, q, r);
    assert(0 <= q * height + r < width * height) by (nonlinear_arith)
        requires
            0 <= q < width,
            0 <= r < height,
    ;
}

/// Every cell of the walk lies inside the grid, and no cell stands in the
/// walk twice: the walk holds each cell of the grid exactly once.
pub proof fn lemma_grid_cells_exact(width: int, height: int)
    requires
        width <= i32::MAX,
        height <= i32::MAX,
    ensures
        grid_cells_spec(width, height).len() == if width <= 0 || height <= 0 {
            0
        } else {
            width * height
        },
        forall|i: int|
            0 <= i < grid_cells_spec(width, height).len() ==> {
                let c = #[trigger] grid_cells_spec(width, height)[i];
                &&& in_grid(width, height, c.q as int, c.r as int)
                &&& i == c.q * height + c.r
            },
        grid_cells_spec(width, height).no_duplicates(),
{
    let cells = grid_cells_spec(width, height);
    if width > 0 && height > 0 {
        assert(width * height >= 0) by (nonlinear_arith)
            requires
                width > 0,
                height > 0,
        ;
        assert forall|i: int| 0 <= i < cells.len() implies {
            let c = #[trigger] cells[i];
            &&& in_grid(width, height, c.q as int, c.r as int)
            &&& i == c.q * height + c.r
        } by {
            lemma_fundamental_div_mod(i, height);
            assert(0 <= i / height < width && 0 <= i % height < height) by (nonlinear_arith)
                requires
                    0 <= i < width * height,
                    0 < height,
                    i == height * (i / height) + i % height,
                    0 <= i % height < height,
            ;
            assert(height * (i / height) == (i / height) * height) by (nonlinear_arith);
        }
    }
    assert forall|i: int, j: int|
        0 <= i < cells.len() && 0 <= j < cells.len() && i != j implies cells[i] != cells[j] by {
        let a = cells[i];
        let b = cells[j];
        assert(i == a.q * height + a.r);
        assert(j == b.q * height + b.r);
    }
}

} // verus!
