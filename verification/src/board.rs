use vstd::prelude::*;
use crate::branch::{
    boards_at, child, child_cell, child_feasible, children_from, lemma_children_of_fixed,
    lemma_first_open, peer_allows, peers, possible_updates_spec,
};
use crate::cell::{cell_in_range, cell_of_entry, Cell, CellView};
use crate::errors::{BuildError, UpdateError};
use crate::model::{
    all_fixed, board_in_range, build_spec, entry_of, first_fault, flat, grid_of, grid_ok,
    lemma_build_succeeds, lemma_first_fault_known, row_fault,
};
use crate::new_types::{CellVal, Index};
use crate::possible_cells::all_values;

verus! {

/// A place on the board.
#[derive(Debug, Clone, Copy, Hash, PartialEq, Eq, PartialOrd, Ord)]
pub struct CellPos {
    pub row: Index,
    pub column: Index,
}

impl CellPos {
    /// Where the place stands in the board's sequence of cells.
    pub open spec fn flat(self) -> int {
        flat(self.row@ as int, self.column@ as int)
    }

    /// The place at a row and a column, if both exist.
    pub fn new(row: usize, column: usize) -> (r: Result<Self, UpdateError>)
        ensures
            row < 9 && column < 9 ==> r is Ok && r->Ok_0.row@ == row && r->Ok_0.column@ == column,
            !(row < 9 && column < 9) ==> r == Err::<Self, UpdateError>(UpdateError::InvalidIndex),
    {
        match Index::build(row) {
            Ok(r) => match Index::build(column) {
                Ok(c) => Ok(CellPos { row: r, column: c }),
                Err(_) => Err(UpdateError::InvalidIndex),
            },
            Err(_) => Err(UpdateError::InvalidIndex),
        }
    }

    /// The place's number, counting row by row.
    pub fn index(&self) -> (r: usize)
        ensures
            r == self.flat(),
            r < 81,
            r / 9 == self.row@,
            r % 9 == self.column@,
    {
        self.row.inner() * 9 + self.column.inner()
    }

    /// The place with a given number, counting row by row.
    pub(crate) fn at(p: usize) -> (r: Self)
        requires
            p < 81,
        ensures
            r.flat() == p,
    {
        CellPos { row: Index::known(p / 9), column: Index::known(p % 9) }
    }

    /// Whether the two places are different and share a row, a column or a
    /// house.
    pub fn is_peer(&self, other: &CellPos) -> (r: bool)
        ensures
            r == peers(self.flat(), other.flat()),
    {
        let r1 = self.row.inner();
        let c1 = self.column.inner();
        let r2 = other.row.inner();
        let c2 = other.column.inner();
        let same = r1 == r2 && c1 == c2;
        !same && (r1 == r2 || c1 == c2 || (r1 / 3 == r2 / 3 && c1 / 3 == c2 / 3))
    }

    /// The boards in which the cell at this place is fixed to one of its
    /// candidates, in ascending order of the value. The peers of the cell
    /// lose the value as a candidate; a board in which a peer is fixed to
    /// the same value, or is left without a candidate, is left out. A cell
    /// that is fixed already gives no board.
    pub fn make_concrete_boards(self, board: &Board) -> (r: Vec<Board>)
        requires
            board.wf(),
        ensures
            views(r@) == boards_at(board@, self.flat()),
            forall|k: int| 0 <= k < r@.len() ==> (#[trigger] r@[k]).wf(),
    {
        let ghost b = board@;
        let ghost p = self.flat();
        let mut out: Vec<Board> = Vec::new();
        match board.cell(self) {
            Cell::Concrete(_) => {
                proof {
                    lemma_children_of_fixed(b, p, 1);
                    assert(views(out@) =~= boards_at(b, p));
                }
            },
            Cell::Possibilities(set) => {
                let mut v: usize = 1;
                proof {
                    assert(views(out@) + children_from(b, p, 1) =~= children_from(b, p, 1));
                }
                while v <= 9
                    invariant
                        1 <= v <= 10,
                        board.wf(),
                        b == board@,
                        p == self.flat(),
                        b[p] == CellView::Open(set@),
                        views(out@) + children_from(b, p, v as int) == children_from(b, p, 1),
                        forall|k: int| 0 <= k < out@.len() ==> (#[trigger] out@[k]).wf(),
                    decreases 10 - v,
                {
                    let val = CellVal::known(v);
                    let ghost before = out@;
                    if set.contains(val) {
                        match child_board(board, self, val) {
                            Some(c) => {
                                out.push(c);
                                proof {
                                    assert(views(out@) =~= views(before).push(c@));
                                    assert(views(out@) + children_from(b, p, v + 1) =~= views(
                                        before,
                                    ) + children_from(b, p, v as int));
                                }
                            },
                            None => {},
                        }
                    }
                    v = v + 1;
                }
                proof {
                    assert(views(out@) =~= views(out@) + children_from(b, p, 10));
                }
            },
        }
        out
    }

    /// All 81 places, row by row.
    pub fn all_cell_pos() -> (r: Vec<Self>)
        ensures
            r@.len() == 81,
            forall|p: int| 0 <= p < 81 ==> (#[trigger] r@[p]).flat() == p,
    {
        let mut out: Vec<Self> = Vec::new();
        let mut p: usize = 0;
        while p < 81
            invariant
                p <= 81,
                out@.len() == p,
                forall|q: int| 0 <= q < p ==> (#[trigger] out@[q]).flat() == q,
            decreases 81 - p,
        {
            out.push(CellPos::at(p));
            p = p + 1;
        }
        out
    }
}

/// The 9 by 9 board.
#[derive(Debug, PartialEq, Eq)]
pub struct Board {
    cells: Vec<Cell>,
}

impl View for Board {
    type V = Seq<CellView>;

    closed spec fn view(&self) -> Seq<CellView> {
        self.cells@.map_values(|c: Cell| c@)
    }
}

/// The model of a fallible operation's result.
pub open spec fn board_result<E>(r: Result<Board, E>) -> Result<Seq<CellView>, E> {
    match r {
        Ok(b) => Ok(b@),
        Err(e) => Err(e),
    }
}

/// The boards of a list as mathematical values.
pub open spec fn views(boards: Seq<Board>) -> Seq<Seq<CellView>> {
    boards.map_values(|b: Board| b@)
}

/// The board in which the open cell at a place is fixed to one of its
/// candidates, unless a peer cannot live with that.
fn child_board(board: &Board, pos: CellPos, val: CellVal) -> (r: Option<Board>)
    requires
        board.wf(),
        board@[pos.flat()] is Open,
        board@[pos.flat()]->Open_0.contains(val@),
    ensures
        match r {
            Some(c) => child_feasible(board@, pos.flat(), val@) && c@ == child(
                board@,
                pos.flat(),
                val@,
            ) && c.wf(),
            None => !child_feasible(board@, pos.flat(), val@),
        },
{
    let ghost b = board@;
    let ghost p = pos.flat();
    let ghost v = val@;
    let mut out = board.clone();
    let mut q: usize = 0;
    while q < 81
        invariant
            q <= 81,
            board.wf(),
            out.wf(),
            b == board@,
            p == pos.flat(),
            v == val@,
            b[p] is Open,
            b[p]->Open_0.contains(v),
            forall|i: int| 0 <= i < q ==> #[trigger] out@[i] == child_cell(b, p, v, i),
            forall|i: int| q <= i < 81 ==> #[trigger] out@[i] == b[i],
            forall|i: int| 0 <= i < q && peers(p, i) ==> peer_allows(#[trigger] b[i], v),
        decreases 81 - q,
    {
        let there = CellPos::at(q);
        if q == pos.index() {
            match board.cell(there).make_concrete_cell(val) {
                Ok(cell) => {
                    out.set_cell(there, cell);
                },
                Err(_) => {
                    return None;
                },
            }
        } else if pos.is_peer(&there) {
            let cell = board.cell(there).remove_possibility(val);
            let allowed = match &cell {
                Cell::Concrete(w) => w.inner() != val.inner(),
                Cell::Possibilities(s) => !s.is_empty(),
            };
            if !allowed {
                proof {
                    assert(!peer_allows(b[q as int], v));
                }
                return None;
            }
            out.set_cell(there, cell);
        }
        q = q + 1;
    }
    proof {
        assert(out@ =~= child(b, p, v));
    }
    Some(out)
}

/// The rows of a grid as sequences.
pub open spec fn grid_view(lines: Vec<Vec<Option<u8>>>) -> Seq<Seq<Option<u8>>> {
    Seq::new(lines@.len(), |r: int| lines@[r]@)
}

impl Clone for Board {
    fn clone(&self) -> (r: Self)
        ensures
            r@ == self@,
    {
        let mut cells: Vec<Cell> = Vec::new();
        let mut p: usize = 0;
        while p < self.cells.len()
            invariant
                p <= self.cells@.len(),
                cells@.len() == p,
                forall|q: int| 0 <= q < p ==> (#[trigger] cells@[q])@ == self.cells@[q]@,
            decreases self.cells@.len() - p,
        {
            cells.push(self.cells[p].clone());
            p = p + 1;
        }
        let r = Board { cells };
        assert(r@ =~= self@);
        r
    }
}

impl Default for Board {
    /// The board of which nothing is known yet.
    fn default() -> (r: Self)
        ensures
            r@ == Seq::new(81, |p: int| CellView::Open(all_values())),
            r.wf(),
    {
        let mut cells: Vec<Cell> = Vec::new();
        let mut p: usize = 0;
        while p < 81
            invariant
                p <= 81,
                cells@.len() == p,
                forall|q: int| 0 <= q < p ==> (#[trigger] cells@[q])@ == CellView::Open(all_values()),
            decreases 81 - p,
        {
            cells.push(Cell::default());
            p = p + 1;
        }
        let r = Board { cells };
        assert(r@ =~= Seq::new(81, |p: int| CellView::Open(all_values())));
        r
    }
}

impl Board {
    /// A board has 81 cells, each of which speaks of the values 1 to 9
    /// only. Every board that this library hands out is well formed.
    pub open spec fn wf(&self) -> bool {
        board_in_range(self@)
    }

    /// The board for a grid of nine rows of nine entries, each blank or a
    /// digit from 1 to 9. A digit fixes its cell; a blank leaves all nine
    /// values open.
    pub fn build(lines: Vec<Vec<Option<u8>>>) -> (r: Result<Self, BuildError>)
        ensures
            board_result(r) == build_spec(grid_view(lines)),
            r is Ok <==> grid_ok(grid_view(lines)),
            r matches Ok(b) ==> b.wf(),
    {
        let ghost grid = grid_view(lines);
        proof {
            lemma_build_succeeds(grid);
        }
        if lines.len() != 9 {
            return Err(BuildError::RowCount);
        }
        let mut cells: Vec<Cell> = Vec::new();
        let mut r: usize = 0;
        while r < 9
            invariant
                r <= 9,
                grid == grid_view(lines),
                grid.len() == 9,
                cells@.len() == r * 9,
                first_fault(grid, r as int) is None,
                forall|p: int|
                    0 <= p < r * 9 ==> Ok::<CellView, UpdateError>((#[trigger] cells@[p])@)
                        == cell_of_entry(grid[p / 9][p % 9]),
                forall|p: int| 0 <= p < r * 9 ==> cell_in_range((#[trigger] cells@[p])@),
            decreases 9 - r,
        {
            let row = &lines[r];
            assert(grid[r as int] == row@);
            if row.len() != 9 {
                proof {
                    lemma_first_fault_known(grid, r as int + 1);
                    lemma_build_succeeds(grid);
                }
                return Err(BuildError::CellCount(r));
            }
            let mut c: usize = 0;
            while c < 9
                invariant
                    c <= 9,
                    r < 9,
                    row@.len() == 9,
                    grid.len() == 9,
                    grid == grid_view(lines),
                    grid[r as int] == row@,
                    cells@.len() == r * 9 + c,
                    first_fault(grid, r as int) is None,
                    forall|k: int| 0 <= k < c ==> cell_of_entry(#[trigger] row@[k]) is Ok,
                    forall|p: int|
                        0 <= p < r * 9 + c ==> Ok::<CellView, UpdateError>((#[trigger] cells@[p])@)
                            == cell_of_entry(grid[p / 9][p % 9]),
                    forall|p: int| 0 <= p < r * 9 + c ==> cell_in_range((#[trigger] cells@[p])@),
                decreases 9 - c,
            {
                match Cell::new(row[c]) {
                    Ok(cell) => {
                        cell.in_range();
                        cells.push(cell);
                    },
                    Err(_) => {
                        proof {
                            assert(cell_of_entry(row@[c as int]) is Err);
                            assert(row_fault(grid[r as int], r as int) == Some(
                                BuildError::InvalidCellVal,
                            ));
                            lemma_first_fault_known(grid, r as int + 1);
                            lemma_build_succeeds(grid);
                        }
                        return Err(BuildError::InvalidCellVal);
                    },
                }
                c = c + 1;
            }
            proof {
                assert(row_fault(grid[r as int], r as int) is None);
            }
            r = r + 1;
        }
        let board = Board { cells };
        proof {
            lemma_build_succeeds(grid);
            assert(board@ =~= build_spec(grid)->Ok_0);
        }
        Ok(board)
    }

    /// The cell at a place.
    pub fn cell(&self, pos: CellPos) -> (r: &Cell)
        requires
            self.wf(),
        ensures
            r@ == self@[pos.flat()],
    {
        &self.cells[pos.index()]
    }

    /// Puts a cell at a place.
    pub fn set_cell(&mut self, pos: CellPos, val: Cell)
        requires
            old(self).wf(),
        ensures
            final(self)@ == old(self)@.update(pos.flat(), val@),
            final(self).wf(),
    {
        val.in_range();
        let p = pos.index();
        let ghost before = self@;
        self.cells[p] = val;
        proof {
            assert(self@ =~= before.update(pos.flat(), val@));
        }
    }

    /// A copy of the board with one cell replaced.
    pub fn update_cell(&self, pos: CellPos, val: Cell) -> (r: Self)
        requires
            self.wf(),
        ensures
            r@ == self@.update(pos.flat(), val@),
            r.wf(),
    {
        let mut board = self.clone();
        board.set_cell(pos, val);
        board
    }

    /// The grid that the board shows: a digit where a cell is fixed, a blank
    /// where it is still open.
    pub fn to_grid(&self) -> (r: [[Option<usize>; 9]; 9])
        requires
            self.wf(),
        ensures
            forall|i: int, j: int|
                0 <= i < 9 && 0 <= j < 9 ==> #[trigger] r@[i]@[j] == grid_of(self@)[i][j],
    {
        let blank: [Option<usize>; 9] = [None; 9];
        let mut arr: [[Option<usize>; 9]; 9] = [blank; 9];
        let mut i: usize = 0;
        while i < 9
            invariant
                i <= 9,
                self.cells@.len() == 81,
                forall|a: int, b: int|
                    0 <= a < i && 0 <= b < 9 ==> #[trigger] arr@[a]@[b] == entry_of(
                        self@[flat(a, b)],
                    ),
            decreases 9 - i,
        {
            let mut line: [Option<usize>; 9] = [None; 9];
            let mut j: usize = 0;
            while j < 9
                invariant
                    j <= 9,
                    i < 9,
                    self.cells@.len() == 81,
                    forall|b: int|
                        0 <= b < j ==> #[trigger] line@[b] == entry_of(self@[flat(i as int, b)]),
                decreases 9 - j,
            {
                let entry = match &self.cells[i * 9 + j] {
                    Cell::Concrete(cell_val) => Some(cell_val.inner()),
                    Cell::Possibilities(_) => None,
                };
                line[j] = entry;
                j = j + 1;
            }
            arr[i] = line;
            i = i + 1;
        }
        arr
    }

    /// The boards that a search tries next: those in which the first open
    /// cell, counting row by row, is fixed to one of its candidates, in
    /// ascending order of the value. None if no cell is open.
    pub fn possible_updates(&self) -> (r: Vec<Board>)
        requires
            self.wf(),
        ensures
            views(r@) == possible_updates_spec(self@),
            forall|k: int| 0 <= k < r@.len() ==> (#[trigger] r@[k]).wf(),
    {
        let mut p: usize = 0;
        while p < 81
            invariant
                p <= 81,
                self.wf(),
                forall|q: int| 0 <= q < p ==> #[trigger] self@[q] is Fixed,
            decreases 81 - p,
        {
            let pos = CellPos::at(p);
            match self.cell(pos) {
                Cell::Possibilities(_) => {
                    proof {
                        assert(self@[p as int] is Open);
                        lemma_first_open(self@, p as int);
                    }
                    return pos.make_concrete_boards(self);
                },
                Cell::Concrete(_) => {},
            }
            p = p + 1;
        }
        let out: Vec<Board> = Vec::new();
        proof {
            assert(all_fixed(self@));
            assert(views(out@) =~= possible_updates_spec(self@));
        }
        out
    }

    /// Whether every cell has its final value.
    pub fn is_finished(&self) -> (r: bool)
        requires
            self.wf(),
        ensures
            r == all_fixed(self@),
    {
        let mut p: usize = 0;
        while p < 81
            invariant
                p <= 81,
                self.cells@.len() == 81,
                forall|q: int| 0 <= q < p ==> #[trigger] self@[q] is Fixed,
            decreases 81 - p,
        {
            match &self.cells[p] {
                Cell::Concrete(_) => {},
                Cell::Possibilities(_) => {
                    assert(self@[p as int] is Open);
                    return false;
                },
            }
            p = p + 1;
        }
        true
    }
}

} // verus!
