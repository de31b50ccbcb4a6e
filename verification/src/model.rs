//! Boards as mathematical values: a sequence of 81 cells, row by row.

use vstd::prelude::*;
use crate::cell::{cell_in_range, cell_of_entry, CellView};
use crate::errors::BuildError;

verus! {

/// Where the cell of a row and a column stands in a board.
pub open spec fn flat(row: int, column: int) -> int {
    row * 9 + column
}

/// Where the `j`-th cell of a group stands. Groups 0 to 8 are the rows,
/// 9 to 17 the columns, 18 to 26 the houses; the houses are counted left
/// to right and top to bottom, and so are the cells within one.
pub open spec fn group_cell(g: int, j: int) -> int {
    if g < 9 {
        flat(g, j)
    } else if g < 18 {
        flat(j, g - 9)
    } else {
        flat(((g - 18) / 3) * 3 + j / 3, ((g - 18) % 3) * 3 + j % 3)
    }
}

/// The nine places of a group, in order.
pub open spec fn group_cells(g: int) -> Seq<int> {
    Seq::new(9, |j: int| group_cell(g, j))
}

/// A group has nine different places, all on the board.
pub proof fn lemma_group_cells(g: int)
    requires
        0 <= g < 27,
    ensures
        group_cells(g).len() == 9,
        forall|j: int| 0 <= j < 9 ==> 0 <= #[trigger] group_cells(g)[j] < 81,
        forall|i: int, j: int|
            0 <= i < 9 && 0 <= j < 9 && i != j ==> #[trigger] group_cells(g)[i]
                != #[trigger] group_cells(g)[j],
{
}

/// A board has 81 cells, and each speaks of the values 1 to 9 only.
pub open spec fn board_in_range(b: Seq<CellView>) -> bool {
    &&& b.len() == 81
    &&& forall|p: int| 0 <= p < 81 ==> cell_in_range(#[trigger] b[p])
}

/// Every cell has its final value.
pub open spec fn all_fixed(b: Seq<CellView>) -> bool {
    forall|p: int| 0 <= p < b.len() ==> #[trigger] b[p] is Fixed
}

/// The grid entry that a cell shows: its value, once it is fixed.
pub open spec fn entry_of(c: CellView) -> Option<usize> {
    match c {
        CellView::Fixed(v) => Some(v),
        CellView::Open(_) => None,
    }
}

/// A grid of nine rows of nine entries, each blank or a digit from 1 to 9.
pub open spec fn grid_ok(grid: Seq<Seq<Option<u8>>>) -> bool {
    &&& grid.len() == 9
    &&& forall|r: int| 0 <= r < 9 ==> (#[trigger] grid[r]).len() == 9
    &&& forall|r: int, c: int| 0 <= r < 9 && 0 <= c < 9 ==> cell_of_entry(#[trigger] grid[r][c]) is Ok
}

/// What is wrong with one row, if anything: its length first, then its
/// digits.
pub open spec fn row_fault(row: Seq<Option<u8>>, r: int) -> Option<BuildError> {
    if row.len() != 9 {
        Some(BuildError::CellCount(r as usize))
    } else if exists|c: int| 0 <= c < 9 && cell_of_entry(#[trigger] row[c]) is Err {
        Some(BuildError::InvalidCellVal)
    } else {
        None
    }
}

/// The fault of the first faulty row among the first `n`.
pub open spec fn first_fault(grid: Seq<Seq<Option<u8>>>, n: int) -> Option<BuildError>
    decreases n,
{
    if n <= 0 {
        None
    } else {
        match first_fault(grid, n - 1) {
            Some(e) => Some(e),
            None => row_fault(grid[n - 1], n - 1),
        }
    }
}

/// The board that a grid stands for, or why it stands for none.
pub open spec fn build_spec(grid: Seq<Seq<Option<u8>>>) -> Result<Seq<CellView>, BuildError> {
    if grid.len() != 9 {
        Err(BuildError::RowCount)
    } else {
        match first_fault(grid, 9) {
            Some(e) => Err(e),
            None => Ok(Seq::new(81, |p: int| cell_of_entry(grid[p / 9][p % 9])->Ok_0)),
        }
    }
}

/// No row among the first `n` is faulty exactly if each of them has nine
/// entries, all blank or digits from 1 to 9.
pub proof fn lemma_first_fault(grid: Seq<Seq<Option<u8>>>, n: int)
    requires
        0 <= n <= grid.len(),
    ensures
        first_fault(grid, n) is None <==> forall|r: int|
            0 <= r < n ==> row_fault(#[trigger] grid[r], r) is None,
    decreases n,
{
    if n > 0 {
        lemma_first_fault(grid, n - 1);
    }
}

/// Once a row among the first `n` is faulty, the fault of the first such
/// row is the fault of any longer run of rows.
pub proof fn lemma_first_fault_known(grid: Seq<Seq<Option<u8>>>, n: int)
    requires
        0 <= n <= 9,
    ensures
        first_fault(grid, n) is Some ==> first_fault(grid, 9) == first_fault(grid, n),
    decreases 9 - n,
{
    if n < 9 {
        lemma_first_fault_known(grid, n + 1);
    }
}

/// A grid stands for a board exactly if it has nine rows of nine entries,
/// each blank or a digit from 1 to 9.
pub proof fn lemma_build_succeeds(grid: Seq<Seq<Option<u8>>>)
    ensures
        build_spec(grid) is Ok <==> grid_ok(grid),
{
    if grid.len() == 9 {
        lemma_first_fault(grid, 9);
        if grid_ok(grid) {
            assert forall|r: int| 0 <= r < 9 implies row_fault(#[trigger] grid[r], r) is None by {
                assert(grid[r].len() == 9);
                assert forall|c: int| 0 <= c < 9 implies !(cell_of_entry(#[trigger] grid[r][c]) is Err) by {
                    assert(cell_of_entry(grid[r][c]) is Ok);
                }
            }
        }
        if build_spec(grid) is Ok {
            assert forall|r: int| 0 <= r < 9 implies (#[trigger] grid[r]).len() == 9 by {
                assert(row_fault(grid[r], r) is None);
            }
            assert forall|r: int, c: int| 0 <= r < 9 && 0 <= c < 9 implies cell_of_entry(
                #[trigger] grid[r][c],
            ) is Ok by {
                assert(row_fault(grid[r], r) is None);
            }
        }
    }
}

/// The grid that a board shows.
pub open spec fn grid_of(b: Seq<CellView>) -> Seq<Seq<Option<usize>>> {
    Seq::new(9, |r: int| Seq::new(9, |c: int| entry_of(b[flat(r, c)])))
}

/// A grid entry with its digit widened.
pub open spec fn widen(entry: Option<u8>) -> Option<usize> {
    match entry {
        None => None,
        Some(d) => Some(d as usize),
    }
}

/// Round trip: the board built from a grid shows that grid again.
pub proof fn lemma_round_trip(grid: Seq<Seq<Option<u8>>>)
    requires
        grid_ok(grid),
    ensures
        build_spec(grid) is Ok,
        grid_of(build_spec(grid)->Ok_0).len() == 9,
        forall|r: int| 0 <= r < 9 ==> (#[trigger] grid_of(build_spec(grid)->Ok_0)[r]).len() == 9,
        forall|r: int, c: int|
            0 <= r < 9 && 0 <= c < 9 ==> #[trigger] grid_of(build_spec(grid)->Ok_0)[r][c] == widen(
                grid[r][c],
            ),
{
    lemma_build_succeeds(grid);
    let b = build_spec(grid)->Ok_0;
    assert forall|r: int, c: int| 0 <= r < 9 && 0 <= c < 9 implies #[trigger] grid_of(b)[r][c]
        == widen(grid[r][c]) by {
        let p = flat(r, c);
        assert(p / 9 == r && p % 9 == c);
        assert(cell_of_entry(grid[r][c]) is Ok);
    }
}

} // verus!
