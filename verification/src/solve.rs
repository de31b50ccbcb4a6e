use std::ops::ControlFlow;
use vstd::prelude::*;
use vstd::std_specs::convert::FromSpecImpl;
use crate::board::{board_result, grid_view, views, Board, CellPos};
use crate::branch::{
    lemma_possible_updates, lemma_refines_open_count, lemma_solve, lemma_solve_errors,
    no_solution, open_count,
    possible_updates_spec, search_spec, solve_spec, solve_state, solved,
};
use crate::cell::{Cell, CellView};
use crate::cell_set::Group;
use crate::closure::refines;
use crate::errors::{BuildError, UpdateError};
use crate::fixpoint::{
    lemma_sweep_refines, lemma_sweep_split, lemma_validate_greatest, lemma_validate_refines,
    lemma_weight, stable_all, sweep, validate_spec, validate_state, weight, weight_upto, StateView,
};
use crate::model::{all_fixed, build_spec, grid_of};
use crate::new_types::Index;

verus! {

/// How far a board has come.
#[derive(Debug, PartialEq, Eq)]
pub enum BoardState {
    /// Elimination has nothing left to do, and every cell is fixed.
    Finished(Board),
    /// Elimination has nothing left to do, and some cell is still open.
    Valid(Board),
    /// Elimination changed something in its last sweep. Only elimination
    /// itself ever sees this state.
    PartiallyValid(Board),
    /// The board was refused, or no solution of it was found.
    Failed(UpdateError),
}

impl View for BoardState {
    type V = StateView;

    open spec fn view(&self) -> StateView {
        match self {
            BoardState::Finished(b) => StateView::Finished(b@),
            BoardState::Valid(b) => StateView::Valid(b@),
            BoardState::PartiallyValid(b) => StateView::PartiallyValid(b@),
            BoardState::Failed(e) => StateView::Failed(*e),
        }
    }
}

impl Clone for BoardState {
    fn clone(&self) -> (r: Self)
        ensures
            r@ == self@,
    {
        match self {
            BoardState::Finished(b) => BoardState::Finished(b.clone()),
            BoardState::Valid(b) => BoardState::Valid(b.clone()),
            BoardState::PartiallyValid(b) => BoardState::PartiallyValid(b.clone()),
            BoardState::Failed(e) => BoardState::Failed(*e),
        }
    }
}

impl From<BoardState> for ControlFlow<Board, Result<Board, UpdateError>> {
    /// How a search goes on after a state: a finished or valid board ends
    /// it, anything else is kept while the search carries on.
    fn from(value: BoardState) -> (r: Self) {
        match value {
            BoardState::Finished(board) => ControlFlow::Break(board),
            BoardState::Valid(board) => ControlFlow::Break(board),
            BoardState::PartiallyValid(board) => ControlFlow::Continue(Ok(board)),
            BoardState::Failed(why) => ControlFlow::Continue(Err(why)),
        }
    }
}

impl FromSpecImpl<BoardState> for ControlFlow<Board, Result<Board, UpdateError>> {
    open spec fn obeys_from_spec() -> bool {
        true
    }

    open spec fn from_spec(value: BoardState) -> Self {
        match value {
            BoardState::Finished(board) => ControlFlow::Break(board),
            BoardState::Valid(board) => ControlFlow::Break(board),
            BoardState::PartiallyValid(board) => ControlFlow::Continue(Ok(board)),
            BoardState::Failed(why) => ControlFlow::Continue(Err(why)),
        }
    }
}

impl From<ControlFlow<Board, Result<Board, UpdateError>>> for BoardState {
    /// The state that a search ends in: finished where a board ended it,
    /// else what was kept last.
    fn from(value: ControlFlow<Board, Result<Board, UpdateError>>) -> (r: Self) {
        match value {
            ControlFlow::Break(board) => BoardState::Finished(board),
            ControlFlow::Continue(Ok(board)) => BoardState::Valid(board),
            ControlFlow::Continue(Err(why)) => BoardState::Failed(why),
        }
    }
}

impl FromSpecImpl<ControlFlow<Board, Result<Board, UpdateError>>> for BoardState {
    open spec fn obeys_from_spec() -> bool {
        true
    }

    open spec fn from_spec(value: ControlFlow<Board, Result<Board, UpdateError>>) -> Self {
        match value {
            ControlFlow::Break(board) => BoardState::Finished(board),
            ControlFlow::Continue(Ok(board)) => BoardState::Valid(board),
            ControlFlow::Continue(Err(why)) => BoardState::Failed(why),
        }
    }
}

impl BoardState {
    /// The board that the state holds, if it holds one, is well formed.
    pub open spec fn board_wf(&self) -> bool {
        match self {
            BoardState::Finished(b) => b.wf(),
            BoardState::Valid(b) => b.wf(),
            BoardState::PartiallyValid(b) => b.wf(),
            BoardState::Failed(_) => true,
        }
    }

    /// The board, if it is finished or valid.
    pub fn ok(&self) -> (r: Option<Board>)
        ensures
            match self {
                BoardState::Finished(b) => r is Some && r->Some_0@ == b@,
                BoardState::Valid(b) => r is Some && r->Some_0@ == b@,
                BoardState::PartiallyValid(_) => r is None,
                BoardState::Failed(_) => r is None,
            },
    {
        match self {
            BoardState::Finished(board) => Some(board.clone()),
            BoardState::Valid(board) => Some(board.clone()),
            BoardState::Failed(_) => None,
            BoardState::PartiallyValid(_) => None,
        }
    }

    /// Carries on with a board on which work is left: `f` says what becomes
    /// of it. A finished board and a failure are passed on as they are.
    pub fn and_then<F: FnOnce(&Board) -> BoardState>(&self, f: F) -> (r: BoardState)
        requires
            match self {
                BoardState::Valid(board) => f.requires((board,)),
                BoardState::PartiallyValid(board) => f.requires((board,)),
                _ => true,
            },
        ensures
            match self {
                BoardState::Valid(board) => f.ensures((board,), r),
                BoardState::PartiallyValid(board) => f.ensures((board,), r),
                _ => r@ == self@,
            },
    {
        match self {
            BoardState::Valid(board) => f(board),
            BoardState::PartiallyValid(board) => f(board),
            state => state.clone(),
        }
    }
}

/// Why a grid could not be solved.
#[derive(Debug, PartialEq, Eq, Clone, Copy, Hash, Structural)]
pub enum SolveError {
    /// The grid is not a board.
    Build(BuildError),
    /// The board has no solution.
    Update(UpdateError),
}

/// What solving a grid comes to: the grid of the solved board.
pub open spec fn solve_grid_spec(grid: Seq<Seq<Option<u8>>>) -> Result<
    Seq<Seq<Option<usize>>>,
    SolveError,
> {
    match build_spec(grid) {
        Err(e) => Err(SolveError::Build(e)),
        Ok(b) => match solve_spec(b) {
            Err(e) => Err(SolveError::Update(e)),
            Ok(s) => Ok(grid_of(s)),
        },
    }
}

/// Solves a grid of nine rows of nine entries, each blank or a digit from
/// 1 to 9, and gives the solved grid.
pub fn solve(lines: Vec<Vec<Option<u8>>>) -> (r: Result<[[Option<usize>; 9]; 9], SolveError>)
    ensures
        match solve_grid_spec(grid_view(lines)) {
            Err(e) => r == Err::<[[Option<usize>; 9]; 9], SolveError>(e),
            Ok(g) => r is Ok && forall|i: int, j: int|
                0 <= i < 9 && 0 <= j < 9 ==> #[trigger] r->Ok_0@[i]@[j] == g[i][j],
        },
{
    let board = match Board::build(lines) {
        Ok(board) => board,
        Err(e) => {
            return Err(SolveError::Build(e));
        },
    };
    match board.solve() {
        BoardState::Finished(done) => Ok(done.to_grid()),
        BoardState::Valid(done) => Ok(done.to_grid()),
        BoardState::PartiallyValid(done) => Ok(done.to_grid()),
        BoardState::Failed(e) => Err(SolveError::Update(e)),
    }
}

impl Board {
    /// What is still undecided in the board.
    pub fn weight(&self) -> (r: usize)
        requires
            self.wf(),
        ensures
            r == weight(self@),
    {
        let mut total: usize = 0;
        let mut p: usize = 0;
        while p < 81
            invariant
                p <= 81,
                self.wf(),
                total == weight_upto(self@, p as int),
                total <= 10 * p,
            decreases 81 - p,
        {
            let w = match self.cell(CellPos::at(p)) {
                Cell::Concrete(_) => 0,
                Cell::Possibilities(set) => set.len() + 1,
            };
            total = total + w;
            p = p + 1;
        }
        total
    }

    /// Elimination in the nine groups of one family, one after the other.
    pub fn validate_cell_lists(self, kind: Group) -> (r: Result<Self, UpdateError>)
        requires
            self.wf(),
        ensures
            board_result(r) == sweep(self@, kind.number(0), kind.number(9)),
            r matches Ok(b) ==> b.wf(),
    {
        let ghost base = kind.number(0);
        let mut board = self;
        let mut i: usize = 0;
        while i < 9
            invariant
                i <= 9,
                board.wf(),
                base == kind.number(0),
                sweep(board@, base + i, base + 9) == sweep(self@, base, base + 9),
            decreases 9 - i,
        {
            let index = Index::known(i);
            assert(kind.number(index@ as int) == base + i);
            match board.get_set(kind, index).check_and_update() {
                Ok(next) => {
                    board = next;
                },
                Err(e) => {
                    return Err(e);
                },
            }
            i = i + 1;
        }
        Ok(board)
    }

    /// Elimination over the whole board: sweeps over the rows, the columns
    /// and the houses, repeated until one changes nothing. The first
    /// contradiction that is met ends it.
    pub fn validate(self) -> (r: BoardState)
        requires
            self.wf(),
        ensures
            r@ == validate_state(self@),
            r.board_wf(),
            match r {
                BoardState::Finished(x) => refines(x@, self@) && stable_all(x@),
                BoardState::Valid(x) => refines(x@, self@) && stable_all(x@),
                BoardState::PartiallyValid(_) => false,
                BoardState::Failed(e) => (e == UpdateError::InvalidConcrete || e
                    == UpdateError::Impossible) && forall|y: Seq<CellView>| #[trigger]
                    refines(y, self@) ==> !stable_all(y),
            },
    {
        let mut board = self;
        loop
            invariant
                board.wf(),
                self.wf(),
                validate_spec(board@) == validate_spec(self@),
            decreases weight(board@),
        {
            let before = board.weight();
            let ghost was = board@;
            proof {
                lemma_sweep_split(was, 0, 9, 27);
                lemma_sweep_split(was, 0, 9, 18);
                lemma_sweep_split(was, 0, 18, 27);
            }
            let rows = match board.validate_cell_lists(Group::Row) {
                Ok(b) => b,
                Err(e) => {
                    proof {
                        lemma_validate_greatest(self@);
                    }
                    return BoardState::Failed(e);
                },
            };
            let columns = match rows.validate_cell_lists(Group::Column) {
                Ok(b) => b,
                Err(e) => {
                    proof {
                        lemma_validate_greatest(self@);
                    }
                    return BoardState::Failed(e);
                },
            };
            let houses = match columns.validate_cell_lists(Group::House) {
                Ok(b) => b,
                Err(e) => {
                    proof {
                        lemma_validate_greatest(self@);
                    }
                    return BoardState::Failed(e);
                },
            };
            board = houses;
            proof {
                assert(sweep(was, 0, 27) == Ok::<Seq<CellView>, UpdateError>(board@));
                lemma_sweep_refines(was, 0, 27);
                lemma_weight(board@, was);
            }
            if board.weight() == before {
                proof {
                    lemma_validate_greatest(self@);
                }
                if board.is_finished() {
                    return BoardState::Finished(board);
                } else {
                    return BoardState::Valid(board);
                }
            }
        }
    }

    /// Solves the board. Elimination comes first. If it leaves cells open,
    /// the boards in which the first open cell is fixed are solved in turn,
    /// in ascending order of the value, and the first that can be finished
    /// is the result. If none can, the search fails as the last of them
    /// did. The result is a solution of the board if the board has one, and
    /// a failure only if it has none.
    pub fn solve(self) -> (r: BoardState)
        requires
            self.wf(),
        ensures
            r@ == solve_state(self@),
            r.board_wf(),
            match r {
                BoardState::Finished(x) => solved(x@) && refines(x@, self@),
                BoardState::Failed(e) => no_solution(self@) && (e == UpdateError::InvalidConcrete
                    || e == UpdateError::Impossible),
                _ => false,
            },
        decreases open_count(self@),
    {
        let ghost b = self@;
        proof {
            lemma_solve(b);
            lemma_solve_errors(b);
        }
        match self.validate() {
            BoardState::Valid(board) => {
                proof {
                    lemma_validate_refines(b);
                    lemma_refines_open_count(board@, b);
                    lemma_possible_updates(board@);
                }
                let kids = board.possible_updates();
                let mut kept: Result<Board, UpdateError> = Err(UpdateError::InitError);
                let mut k: usize = 0;
                while k < kids.len()
                    invariant
                        k <= kids@.len(),
                        board.wf(),
                        b == self@,
                        self.wf(),
                        validate_spec(b) == Ok::<Seq<CellView>, UpdateError>(board@),
                        !all_fixed(board@),
                        open_count(board@) <= open_count(b),
                        views(kids@) == possible_updates_spec(board@),
                        forall|i: int| 0 <= i < kids@.len() ==> (#[trigger] kids@[i]).wf(),
                        forall|i: int|
                            0 <= i < kids@.len() ==> open_count(
                                #[trigger] possible_updates_spec(board@)[i],
                            ) < open_count(board@),
                        kept is Err,
                        search_spec(board@, k as int, kept->Err_0) == search_spec(
                            board@,
                            0,
                            UpdateError::InitError,
                        ),
                    decreases kids@.len() - k,
                {
                    let kid = kids[k].clone();
                    proof {
                        assert(views(kids@)[k as int] == kids@[k as int]@);
                        assert(kid@ == possible_updates_spec(board@)[k as int]);
                    }
                    let flow: ControlFlow<Board, Result<Board, UpdateError>> = ControlFlow::from(
                        kid.solve(),
                    );
                    match flow {
                        ControlFlow::Break(done) => {
                            proof {
                                lemma_solve(b);
                            }
                            return BoardState::from(
                                ControlFlow::<Board, Result<Board, UpdateError>>::Break(done),
                            );
                        },
                        ControlFlow::Continue(next) => {
                            kept = next;
                        },
                    }
                    k = k + 1;
                }
                BoardState::from(ControlFlow::<Board, Result<Board, UpdateError>>::Continue(kept))
            },
            other => other,
        }
    }
}

} // verus!
