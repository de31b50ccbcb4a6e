use vstd::prelude::*;
use vstd::set_lib::*;
use crate::errors::UpdateError;
use crate::new_types::CellVal;
use crate::possible_cells::{all_values, PossibleCells};

verus! {

/// What a cell is, as a mathematical value.
pub enum CellView {
    /// The cell's final value.
    Fixed(usize),
    /// The values that the cell could still take.
    Open(Set<usize>),
}

/// One cell of a board.
#[derive(Debug, PartialEq, Eq)]
pub enum Cell {
    /// The cell's final value.
    Concrete(CellVal),
    /// The values that the cell could still take.
    Possibilities(PossibleCells),
}

impl View for Cell {
    type V = CellView;

    open spec fn view(&self) -> CellView {
        match self {
            Cell::Concrete(v) => CellView::Fixed(v@),
            Cell::Possibilities(s) => CellView::Open(s@),
        }
    }
}

/// The model of a fallible operation's result.
pub open spec fn result_view(r: Result<Cell, UpdateError>) -> Result<CellView, UpdateError> {
    match r {
        Ok(c) => Ok(c@),
        Err(e) => Err(e),
    }
}

/// A cell is in range if it speaks of the values 1 to 9 only.
pub open spec fn cell_in_range(c: CellView) -> bool {
    match c {
        CellView::Fixed(v) => 1 <= v <= 9,
        CellView::Open(s) => s.subset_of(all_values()),
    }
}

/// The cell that a grid entry stands for.
pub open spec fn cell_of_entry(entry: Option<u8>) -> Result<CellView, UpdateError> {
    match entry {
        None => Ok(CellView::Open(all_values())),
        Some(d) => if 1 <= d <= 9 {
            Ok(CellView::Fixed(d as usize))
        } else {
            Err(UpdateError::InvalidCellVal)
        },
    }
}

/// Fixing a cell to `v`: allowed if the cell is already fixed to `v`, or
/// still has `v` among its candidates.
pub open spec fn make_concrete_spec(c: CellView, v: usize) -> Result<CellView, UpdateError> {
    match c {
        CellView::Fixed(w) => if w == v {
            Ok(c)
        } else {
            Err(UpdateError::InvalidConcrete)
        },
        CellView::Open(s) => if s.contains(v) {
            Ok(CellView::Fixed(v))
        } else {
            Err(UpdateError::InvalidConcrete)
        },
    }
}

/// Striking one candidate: a fixed cell stays as it is.
pub open spec fn remove_possibility_spec(c: CellView, v: usize) -> CellView {
    match c {
        CellView::Fixed(_) => c,
        CellView::Open(s) => CellView::Open(s.remove(v)),
    }
}

/// Striking several candidates: a cell that is left with none is
/// impossible.
pub open spec fn remove_possibilities_spec(c: CellView, vals: Set<usize>) -> Result<
    CellView,
    UpdateError,
> {
    match c {
        CellView::Fixed(_) => Ok(c),
        CellView::Open(s) => if s.difference(vals).is_empty() {
            Err(UpdateError::Impossible)
        } else {
            Ok(CellView::Open(s.difference(vals)))
        },
    }
}

/// The one candidate of an open cell that has exactly one.
pub open spec fn naked_single(c: CellView) -> Option<usize> {
    match c {
        CellView::Fixed(_) => None,
        CellView::Open(s) => if s.len() == 1 {
            Some(s.choose())
        } else {
            None
        },
    }
}

impl Clone for Cell {
    fn clone(&self) -> (r: Self)
        ensures
            r@ == self@,
    {
        match self {
            Cell::Concrete(v) => Cell::Concrete(*v),
            Cell::Possibilities(s) => Cell::Possibilities(s.clone()),
        }
    }
}

impl Default for Cell {
    /// A cell of which nothing is known yet.
    fn default() -> (r: Self)
        ensures
            r@ == CellView::Open(all_values()),
    {
        Cell::Possibilities(PossibleCells::all())
    }
}

impl Cell {
    /// The cell for one entry of a grid: a digit fixes it, a blank leaves all
    /// nine values open.
    pub fn new(inner: Option<u8>) -> (r: Result<Self, UpdateError>)
        ensures
            result_view(r) == cell_of_entry(inner),
    {
        match inner {
            None => Ok(Cell::Possibilities(PossibleCells::all())),
            Some(i) => match CellVal::build(i as usize) {
                Ok(v) => Ok(Cell::Concrete(v)),
                Err(_) => Err(UpdateError::InvalidCellVal),
            },
        }
    }

    /// Every cell that exists is in range: its parts keep their invariants.
    pub(crate) fn in_range(&self)
        ensures
            cell_in_range(self@),
    {
        match self {
            Cell::Concrete(v) => {
                proof {
                    use_type_invariant(v);
                    v.lemma_in_range();
                }
            },
            Cell::Possibilities(s) => {
                proof {
                    use_type_invariant(s);
                    s.lemma_in_range();
                }
            },
        }
    }

    /// Fixes the cell to `num`, if the cell has not ruled that value out.
    pub fn make_concrete_cell(&self, num: CellVal) -> (r: Result<Self, UpdateError>)
        ensures
            result_view(r) == make_concrete_spec(self@, num@),
    {
        match self {
            Cell::Concrete(val) => {
                if val.inner() == num.inner() {
                    Ok(Cell::Concrete(*val))
                } else {
                    Err(UpdateError::InvalidConcrete)
                }
            },
            Cell::Possibilities(set) => {
                if set.contains(num) {
                    Ok(Cell::Concrete(num))
                } else {
                    Err(UpdateError::InvalidConcrete)
                }
            },
        }
    }

    /// Strikes `num` from the candidates, if it is among them.
    pub fn remove_possibility(&self, num: CellVal) -> (r: Self)
        ensures
            r@ == remove_possibility_spec(self@, num@),
    {
        match self {
            Cell::Possibilities(set) => {
                if set.contains(num) {
                    Cell::Possibilities(set.without(num))
                } else {
                    proof {
                        assert(set@.remove(num@) =~= set@);
                    }
                    Cell::Possibilities(set.clone())
                }
            },
            Cell::Concrete(val) => Cell::Concrete(*val),
        }
    }

    /// Strikes all of `vals` from the candidates.
    pub fn remove_possibilities(&self, vals: &PossibleCells) -> (r: Result<Self, UpdateError>)
        ensures
            result_view(r) == remove_possibilities_spec(self@, vals@),
    {
        match self {
            Cell::Possibilities(set) => {
                if set.is_empty() {
                    proof {
                        assert(set@.difference(vals@) =~= Set::<usize>::empty());
                    }
                    return Err(UpdateError::Impossible);
                }
                let out = set.relative_complement(vals);
                if out.is_empty() {
                    Err(UpdateError::Impossible)
                } else {
                    Ok(Cell::Possibilities(out))
                }
            },
            Cell::Concrete(val) => Ok(Cell::Concrete(*val)),
        }
    }

    /// The value that the cell is forced to take: its only candidate.
    pub fn possible_is_concrete(&self) -> (r: Option<CellVal>)
        ensures
            r is Some <==> naked_single(self@) is Some,
            r matches Some(v) ==> naked_single(self@) == Some(v@) && self@ == CellView::Open(
                Set::<usize>::empty().insert(v@),
            ),
    {
        match self {
            Cell::Possibilities(set) => {
                let r = set.sole();
                proof {
                    if let Some(v) = r {
                        assert(set@.contains(v@));
                        assert(set@.contains(set@.choose()));
                    }
                }
                r
            },
            Cell::Concrete(_) => None,
        }
    }
}

} // verus!
