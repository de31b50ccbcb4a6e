use vstd::prelude::*;
use crate::board::{board_result, Board, CellPos};
use crate::cell::{Cell, CellView};
use crate::closure::{
    cells_ok, closure_spec, finished_spec, get_update_set_spec, has_duplicate, in_progress,
    is_closure, lemma_closure_cases, lemma_closure_elsewhere, lemma_closure_unique,
    lemma_finished_is_closure, lemma_no_closure, lemma_start, lemma_update, open_in, refines,
    settled, stable_in, step_spec, update_from, update_spec, values_in, SetsView,
};
use crate::errors::UpdateError;
use crate::model::{group_cell, group_cells, lemma_group_cells};
use crate::new_types::{CellVal, Index};
use crate::possible_cells::{
    members, set_clone, set_contains, set_new, set_relative_complement, set_update, PossibleCells,
};

verus! {

/// The values that are fixed in a list of cells.
#[derive(Debug, PartialEq, Eq)]
pub struct ConcreteSet(pub PossibleCells);

impl View for ConcreteSet {
    type V = Set<usize>;

    open spec fn view(&self) -> Set<usize> {
        self.0@
    }
}

impl Clone for ConcreteSet {
    fn clone(&self) -> (r: Self)
        ensures
            r@ == self@,
    {
        ConcreteSet(self.0.clone())
    }
}

impl ConcreteSet {
    /// No value.
    pub fn new() -> (r: Self)
        ensures
            r@ == Set::<usize>::empty(),
    {
        ConcreteSet(PossibleCells::new())
    }

    /// Adds a value that is not fixed yet. One that is fixed already is
    /// refused, and the set stays as it is.
    pub fn insert(&mut self, val: CellVal) -> (r: Result<(), UpdateError>)
        ensures
            old(self)@.contains(val@) ==> r == Err::<(), UpdateError>(UpdateError::InvalidConcrete)
                && final(self)@ == old(self)@,
            !old(self)@.contains(val@) ==> r == Ok::<(), UpdateError>(()) && final(self)@ == old(
                self,
            )@.insert(val@),
    {
        if self.0.contains(val) {
            Err(UpdateError::InvalidConcrete)
        } else {
            self.0.insert(val);
            Ok(())
        }
    }
}

/// The places of a list of cells that are not fixed yet.
#[derive(Debug, PartialEq, Eq)]
pub struct PossibleSet {
    set: im::HashSet<usize>,
}

impl View for PossibleSet {
    type V = Set<int>;

    closed spec fn view(&self) -> Set<int> {
        Set::new(|p: int| 0 <= p < 81 && members(self.set).contains(p as usize))
    }
}

impl Clone for PossibleSet {
    fn clone(&self) -> (r: Self)
        ensures
            r@ == self@,
    {
        PossibleSet { set: set_clone(&self.set) }
    }
}

impl PossibleSet {
    /// No place.
    pub fn new() -> (r: Self)
        ensures
            r@ == Set::<int>::empty(),
    {
        let r = PossibleSet { set: set_new() };
        assert(r@ =~= Set::<int>::empty());
        r
    }

    /// Adds a place.
    pub fn insert(&mut self, pos: CellPos)
        ensures
            final(self)@ == old(self)@.insert(pos.flat()),
    {
        let ghost before = self@;
        self.set = set_update(&self.set, pos.index());
        assert(self@ =~= before.insert(pos.flat()));
    }

    /// Whether the place is in the set.
    pub fn contains(&self, pos: CellPos) -> (r: bool)
        ensures
            r == self@.contains(pos.flat()),
    {
        set_contains(&self.set, pos.index())
    }

    /// The places of this set that are not in the other.
    pub fn relative_complement(&self, other: &Self) -> (r: Self)
        ensures
            r@ == self@.difference(other@),
    {
        let r = PossibleSet {
            set: set_relative_complement(set_clone(&self.set), set_clone(&other.set)),
        };
        assert(r@ =~= self@.difference(other@));
        r
    }

    /// The places of the set, row by row.
    pub fn positions(&self) -> (r: Vec<CellPos>)
        ensures
            forall|i: int| 0 <= i < r@.len() ==> self@.contains((#[trigger] r@[i]).flat()),
            forall|i: int, j: int|
                0 <= i < j < r@.len() ==> (#[trigger] r@[i]).flat() < (#[trigger] r@[j]).flat(),
            forall|p: int|
                self@.contains(p) ==> exists|i: int|
                    0 <= i < r@.len() && (#[trigger] r@[i]).flat() == p,
    {
        let mut out: Vec<CellPos> = Vec::new();
        let mut n: usize = 0;
        while n < 81
            invariant
                n <= 81,
                forall|i: int| 0 <= i < out@.len() ==> self@.contains((#[trigger] out@[i]).flat()),
                forall|i: int| 0 <= i < out@.len() ==> (#[trigger] out@[i]).flat() < n,
                forall|i: int, j: int|
                    0 <= i < j < out@.len() ==> (#[trigger] out@[i]).flat() < (
                    #[trigger] out@[j]).flat(),
                forall|p: int|
                    self@.contains(p) && p < n ==> exists|i: int|
                        0 <= i < out@.len() && (#[trigger] out@[i]).flat() == p,
            decreases 81 - n,
        {
            if set_contains(&self.set, n) {
                let ghost before = out@;
                out.push(CellPos::at(n));
                proof {
                    assert forall|p: int| self@.contains(p) && p < n + 1 implies exists|i: int|
                        0 <= i < out@.len() && (#[trigger] out@[i]).flat() == p by {
                        if p < n {
                            let i = choose|i: int|
                                0 <= i < before.len() && (#[trigger] before[i]).flat() == p;
                            assert(out@[i] == before[i]);
                        } else {
                            assert(out@[before.len() as int].flat() == p);
                        }
                    }
                }
            }
            n = n + 1;
        }
        out
    }
}

/// The places of a list as numbers, counting row by row.
pub open spec fn flats(set: Seq<CellPos>) -> Seq<int> {
    set.map_values(|p: CellPos| p.flat())
}

/// The working state of elimination in one list of cells.
#[derive(Debug, PartialEq, Eq)]
pub struct UpdateSets {
    /// The board that is worked on.
    pub board: Board,
    /// The places of the list, in the order in which they are visited.
    pub set: Vec<CellPos>,
    /// The values that are fixed in the list.
    pub concrete_set: ConcreteSet,
    /// The places of the list that are not fixed yet.
    pub possible_set: PossibleSet,
}

impl View for UpdateSets {
    type V = SetsView;

    open spec fn view(&self) -> SetsView {
        SetsView {
            board: self.board@,
            cells: flats(self.set@),
            concrete: self.concrete_set@,
            possible: self.possible_set@,
        }
    }
}

/// The model of a fallible operation's result.
pub open spec fn sets_result(r: Result<UpdateSets, UpdateError>) -> Result<SetsView, UpdateError> {
    match r {
        Ok(s) => Ok(s@),
        Err(e) => Err(e),
    }
}

impl UpdateSets {
    /// Whether a pass would change nothing: each cell that is not fixed has
    /// at least two candidates, and none of them is fixed in the list.
    pub fn finished(&self) -> (r: bool)
        requires
            self.board.wf(),
        ensures
            r == finished_spec(self@),
    {
        let n = self.set.len();
        let mut j: usize = 0;
        while j < n
            invariant
                j <= n,
                n == self.set@.len(),
                self.board.wf(),
                forall|i: int|
                    0 <= i < j && self@.possible.contains(#[trigger] self@.cells[i]) ==> settled(
                        self@.board[self@.cells[i]],
                        self@.concrete,
                    ),
            decreases n - j,
        {
            let pos = self.set[j];
            assert(self@.cells[j as int] == pos.flat());
            if self.possible_set.contains(pos) {
                match self.board.cell(pos) {
                    Cell::Concrete(_) => {},
                    Cell::Possibilities(set) => {
                        let common = set.intersection(&self.concrete_set.0);
                        let ok = set.len() >= 2 && common.is_empty();
                        proof {
                            assert(common@.is_empty() <==> set@.disjoint(self.concrete_set@)) by {
                                if set@.disjoint(self.concrete_set@) {
                                    assert(common@ =~= Set::<usize>::empty());
                                }
                                if common@.is_empty() {
                                    assert forall|v: usize|
                                        set@.contains(v) implies !self.concrete_set@.contains(
                                        v,
                                    ) by {
                                        if self.concrete_set@.contains(v) {
                                            assert(common@.contains(v));
                                        }
                                    }
                                }
                            }
                        }
                        if !ok {
                            return false;
                        }
                    },
                }
            }
            j = j + 1;
        }
        true
    }

    /// One pass over the list. At each place that is not fixed, the fixed
    /// values are struck from the candidates; a cell left with none makes
    /// the pass fail, a cell left with one is fixed to it. After a failed
    /// pass the board is not to be used.
    pub fn update(&mut self) -> (r: Result<(), UpdateError>)
        requires
            old(self).board.wf(),
        ensures
            final(self).board.wf(),
            final(self).set == old(self).set,
            match r {
                Ok(()) => update_spec(old(self)@) == Ok::<SetsView, UpdateError>(final(self)@),
                Err(e) => update_spec(old(self)@) == Err::<SetsView, UpdateError>(e),
            },
    {
        let ghost start = self@;
        let ghost cells = start.cells;
        let mut new_concretes = PossibleSet::new();
        let n = self.set.len();
        let mut j: usize = 0;
        proof {
            assert(start.possible.difference(new_concretes@) =~= start.possible);
        }
        while j < n
            invariant
                j <= n,
                n == self.set@.len(),
                self.set == old(self).set,
                self.board.wf(),
                start == old(self)@,
                cells == start.cells,
                cells == flats(self.set@),
                self.possible_set@ == start.possible,
                forall|p: int| new_concretes@.contains(p) ==> 0 <= p < 81 && self.board@[p] is Fixed,
                update_from(
                    SetsView {
                        board: self.board@,
                        cells,
                        concrete: self.concrete_set@,
                        possible: start.possible.difference(new_concretes@),
                    },
                    cells,
                    j as int,
                ) == update_from(start, cells, 0),
            decreases n - j,
        {
            let pos = self.set[j];
            let ghost p = pos.flat();
            let ghost now = SetsView {
                board: self.board@,
                cells,
                concrete: self.concrete_set@,
                possible: start.possible.difference(new_concretes@),
            };
            assert(cells[j as int] == p);
            if self.possible_set.contains(pos) {
                let struck = self.board.cell(pos).remove_possibilities(&self.concrete_set.0);
                match struck {
                    Err(e) => {
                        proof {
                            assert(now.possible.contains(p));
                        }
                        return Err(e);
                    },
                    Ok(cell) => {
                        let single = cell.possible_is_concrete();
                        let ghost c = cell@;
                        self.board.set_cell(pos, cell);
                        match single {
                            None => {
                                proof {
                                    if new_concretes@.contains(p) {
                                        assert(self.board@ =~= now.board);
                                    } else {
                                        assert(step_spec(now, p) == Ok::<SetsView, UpdateError>(
                                            SetsView { board: self.board@, ..now },
                                        ));
                                    }
                                }
                            },
                            Some(val) => {
                                proof {
                                    assert(now.possible.contains(p));
                                    assert(c == CellView::Open(
                                        Set::<usize>::empty().insert(val@),
                                    ));
                                    assert(now.board[p] is Open);
                                    assert(now.board[p]->Open_0.difference(now.concrete).contains(
                                        val@,
                                    ));
                                }
                                match self.concrete_set.insert(val) {
                                    Ok(()) => {},
                                    Err(e) => {
                                        return Err(e);
                                    },
                                }
                                new_concretes.insert(pos);
                                match self.board.cell(pos).make_concrete_cell(val) {
                                    Ok(fixed) => {
                                        self.board.set_cell(pos, fixed);
                                    },
                                    Err(e) => {
                                        return Err(e);
                                    },
                                }
                                proof {
                                    let next = SetsView {
                                        board: self.board@,
                                        cells,
                                        concrete: self.concrete_set@,
                                        possible: start.possible.difference(new_concretes@),
                                    };
                                    assert(next.board =~= now.board.update(
                                        p,
                                        CellView::Fixed(val@),
                                    ));
                                    assert(next.possible =~= now.possible.remove(p));
                                    assert(step_spec(now, p) == Ok::<SetsView, UpdateError>(next));
                                }
                            },
                        }
                    },
                }
            }
            j = j + 1;
        }
        self.possible_set = self.possible_set.relative_complement(&new_concretes);
        Ok(())
    }
}

/// A list of cells of a board: a row, a column or a house.
#[derive(Debug, PartialEq, Eq)]
pub struct CellSet {
    /// The places of the list, in the order in which they are visited.
    pub set: Vec<CellPos>,
    /// The board that the list is taken from.
    pub board: Board,
}

impl CellSet {
    /// The places of the list as numbers, counting row by row.
    pub open spec fn cells(&self) -> Seq<int> {
        flats(self.set@)
    }

    /// Where elimination starts: the fixed values of the list and the
    /// places that are still open. A value that is fixed twice is refused.
    pub fn get_update_set(self) -> (r: Result<UpdateSets, UpdateError>)
        requires
            self.board.wf(),
        ensures
            sets_result(r) == get_update_set_spec(self.board@, self.cells()),
            r matches Ok(s) ==> s.board.wf() && s.set == self.set,
    {
        let ghost b = self.board@;
        let ghost cells = self.cells();
        let mut concrete_set = ConcreteSet::new();
        let mut possible_set = PossibleSet::new();
        let n = self.set.len();
        let mut j: usize = 0;
        while j < n
            invariant
                j <= n,
                n == self.set@.len(),
                self.board.wf(),
                b == self.board@,
                cells == flats(self.set@),
                forall|v: usize|
                    concrete_set@.contains(v) <==> exists|i: int|
                        0 <= i < j && b[#[trigger] cells[i]] == CellView::Fixed(v),
                forall|p: int|
                    possible_set@.contains(p) <==> exists|i: int|
                        0 <= i < j && #[trigger] cells[i] == p && b[p] is Open,
                forall|i1: int, i2: int|
                    0 <= i1 < i2 < j ==> !(b[#[trigger] cells[i1]] is Fixed && b[cells[i1]] == b[
                    #[trigger] cells[i2]]),
            decreases n - j,
        {
            let pos = self.set[j];
            assert(cells[j as int] == pos.flat());
            let ghost before_concrete = concrete_set@;
            let ghost before_possible = possible_set@;
            match self.board.cell(pos) {
                Cell::Concrete(val) => {
                    match concrete_set.insert(*val) {
                        Ok(()) => {},
                        Err(e) => {
                            proof {
                                let i = choose|i: int|
                                    0 <= i < j && b[#[trigger] cells[i]] == CellView::Fixed(val@);
                                assert(b[cells[i]] is Fixed && b[cells[i]] == b[cells[j as int]]);
                                assert(has_duplicate(b, cells));
                            }
                            return Err(e);
                        },
                    }
                    proof {
                        assert forall|v: usize| concrete_set@.contains(v) implies exists|i: int|
                            0 <= i < j + 1 && b[#[trigger] cells[i]] == CellView::Fixed(v) by {
                            if v == val@ {
                                assert(b[cells[j as int]] == CellView::Fixed(v));
                            } else {
                                assert(before_concrete.contains(v));
                            }
                        }
                    }
                },
                Cell::Possibilities(_) => {
                    possible_set.insert(pos);
                    proof {
                        assert forall|p: int| possible_set@.contains(p) implies exists|i: int|
                            0 <= i < j + 1 && #[trigger] cells[i] == p && b[p] is Open by {
                            if p == pos.flat() {
                                assert(cells[j as int] == p);
                            } else {
                                assert(before_possible.contains(p));
                            }
                        }
                    }
                },
            }
            j = j + 1;
        }
        proof {
            assert(concrete_set@ =~= values_in(b, cells));
            assert(possible_set@ =~= open_in(b, cells));
        }
        Ok(UpdateSets { board: self.board, set: self.set, concrete_set, possible_set })
    }

    /// Elimination in the list, driven to its end. A value that is fixed
    /// twice makes the board invalid. Otherwise the fixed values are struck
    /// from the candidates of the open cells, and a cell left with one
    /// candidate is fixed to it, until nothing changes: the result is the
    /// closure of the board. A cell left without a candidate makes the
    /// board impossible.
    pub fn check_and_update(self) -> (r: Result<Board, UpdateError>)
        requires
            self.board.wf(),
            cells_ok(self.cells()),
        ensures
            board_result(r) == closure_spec(self.board@, self.cells()),
            match r {
                Ok(x) => x.wf() && is_closure(x@, self.board@, self.cells()) && forall|q: int|
                    0 <= q < 81 && !self.cells().contains(q) ==> #[trigger] x@[q] == self.board@[q],
                Err(e) => if has_duplicate(self.board@, self.cells()) {
                    e == UpdateError::InvalidConcrete
                } else {
                    e == UpdateError::Impossible && forall|y: Seq<CellView>| #[trigger]
                        refines(y, self.board@) ==> !stable_in(y, self.cells())
                },
            },
    {
        let ghost b0 = self.board@;
        let ghost cells = self.cells();
        proof {
            lemma_closure_cases(b0, cells);
        }
        let mut update_sets = match self.get_update_set() {
            Ok(sets) => sets,
            Err(e) => {
                return Err(e);
            },
        };
        proof {
            lemma_start(b0, cells);
        }
        while !update_sets.finished()
            invariant
                update_sets.board.wf(),
                b0 == self.board@,
                cells == self.cells(),
                in_progress(update_sets@, b0, cells),
                !has_duplicate(b0, cells),
            decreases
                    2 * update_sets@.possible.len() + (if finished_spec(update_sets@) {
                        0int
                    } else {
                        1int
                    }),
        {
            let ghost before = update_sets@;
            proof {
                lemma_update(before, b0, cells);
            }
            match update_sets.update() {
                Ok(()) => {},
                Err(e) => {
                    proof {
                        lemma_no_closure(b0, cells);
                    }
                    return Err(e);
                },
            }
        }
        proof {
            lemma_finished_is_closure(update_sets@, b0, cells);
            lemma_closure_unique(update_sets@.board, b0, cells);
            lemma_closure_elsewhere(update_sets@.board, b0, cells);
        }
        Ok(update_sets.board)
    }
}

/// The three families of groups.
#[derive(Debug, Clone, Copy, PartialEq, Eq, Hash)]
pub enum Group {
    /// The nine rows, top to bottom.
    Row,
    /// The nine columns, left to right.
    Column,
    /// The nine houses, left to right and top to bottom, so that the house
    /// with index 4 is the one in the middle.
    House,
}

impl Group {
    /// The number of the family's `i`-th group among all 27.
    pub open spec fn number(self, i: int) -> int {
        match self {
            Group::Row => i,
            Group::Column => 9 + i,
            Group::House => 18 + i,
        }
    }

    /// The place of the `j`-th cell of the family's `i`-th group.
    pub fn cell_at(&self, i: Index, j: Index) -> (r: CellPos)
        ensures
            r.flat() == group_cell(self.number(i@ as int), j@ as int),
    {
        proof {
            use_type_invariant(i);
            i.lemma_in_range();
            use_type_invariant(j);
            j.lemma_in_range();
        }
        match self {
            Group::Row => CellPos { row: i, column: j },
            Group::Column => CellPos { column: i, row: j },
            Group::House => {
                let house = i.inner();
                let j = j.inner();
                CellPos {
                    column: Index::known((house % 3) * 3 + (j % 3)),
                    row: Index::known((house / 3) * 3 + (j / 3)),
                }
            },
        }
    }

    /// The nine places of the family's `i`-th group, in order.
    pub fn to_set(&self, i: Index) -> (r: Vec<CellPos>)
        ensures
            flats(r@) == group_cells(self.number(i@ as int)),
    {
        let ghost g = self.number(i@ as int);
        let mut out: Vec<CellPos> = Vec::new();
        let mut j: usize = 0;
        while j < 9
            invariant
                j <= 9,
                g == self.number(i@ as int),
                out@.len() == j,
                forall|k: int| 0 <= k < j ==> (#[trigger] out@[k]).flat() == group_cell(g, k),
            decreases 9 - j,
        {
            out.push(self.cell_at(i, Index::known(j)));
            j = j + 1;
        }
        assert(flats(out@) =~= group_cells(g));
        out
    }
}

impl Board {
    /// One group of the board: the `index`-th row, column or house.
    pub fn get_set(self, kind: Group, index: Index) -> (r: CellSet)
        requires
            self.wf(),
        ensures
            r.board == self,
            r.cells() == group_cells(kind.number(index@ as int)),
            cells_ok(r.cells()),
    {
        proof {
            use_type_invariant(index);
            index.lemma_in_range();
            lemma_group_cells(kind.number(index@ as int));
        }
        CellSet { set: kind.to_set(index), board: self }
    }
}

} // verus!
