//! Elimination within one list of cells, as mathematics.
//!
//! A board `x` refines a board `b` if `x` knows at least as much: what `b`
//! has fixed stays fixed, and what `b` leaves open is fixed to one of its
//! candidates or left open with fewer of them. A list of cells is stable in
//! a board if no value is fixed twice in it, and each of its open cells has
//! at least two candidates, none of them fixed elsewhere in the list.
//! Elimination takes a board to its closure: the stable board that refines
//! it and that every other stable refinement refines in turn.

use vstd::prelude::*;
use vstd::set_lib::*;
use crate::cell::{
    cell_in_range, naked_single, remove_possibilities_spec, CellView,
};
use crate::errors::UpdateError;
use crate::model::board_in_range;
use crate::possible_cells::{all_values, lemma_all_values};

verus! {

/// The cell `x` knows at least what the cell `c` knows.
pub open spec fn cell_refines(x: CellView, c: CellView) -> bool {
    match c {
        CellView::Fixed(_) => x == c,
        CellView::Open(s) => match x {
            CellView::Fixed(w) => s.contains(w),
            CellView::Open(t) => t.subset_of(s),
        },
    }
}

/// The board `x` knows at least what the board `b` knows.
pub open spec fn refines(x: Seq<CellView>, b: Seq<CellView>) -> bool {
    &&& x.len() == b.len()
    &&& forall|p: int| 0 <= p < b.len() ==> cell_refines(#[trigger] x[p], b[p])
}

/// A list of places on the board, none of them twice.
pub open spec fn cells_ok(cells: Seq<int>) -> bool {
    &&& forall|j: int| 0 <= j < cells.len() ==> 0 <= #[trigger] cells[j] < 81
    &&& forall|i: int, j: int|
        0 <= i < cells.len() && 0 <= j < cells.len() && i != j ==> #[trigger] cells[i]
            != #[trigger] cells[j]
}

/// The values that are fixed somewhere in the list.
pub open spec fn values_in(b: Seq<CellView>, cells: Seq<int>) -> Set<usize> {
    Set::new(|v: usize| exists|j: int| 0 <= j < cells.len() && b[#[trigger] cells[j]] == CellView::Fixed(v))
}

/// The places of the list whose cell is still open.
pub open spec fn open_in(b: Seq<CellView>, cells: Seq<int>) -> Set<int> {
    Set::new(|p: int| exists|j: int| 0 <= j < cells.len() && #[trigger] cells[j] == p && b[p] is Open)
}

/// Some value is fixed at two places of the list.
pub open spec fn has_duplicate(b: Seq<CellView>, cells: Seq<int>) -> bool {
    exists|i: int, j: int|
        0 <= i < j < cells.len() && b[#[trigger] cells[i]] is Fixed && b[cells[i]] == b[#[trigger] cells[j]]
}

/// Nothing is left to do for a cell: it is fixed, or it has at least two
/// candidates and none of them is among the fixed values.
pub open spec fn settled(c: CellView, fixed: Set<usize>) -> bool {
    match c {
        CellView::Fixed(_) => true,
        CellView::Open(s) => s.len() >= 2 && s.disjoint(fixed),
    }
}

/// Elimination has nothing left to do in the list.
pub open spec fn stable_in(b: Seq<CellView>, cells: Seq<int>) -> bool {
    &&& !has_duplicate(b, cells)
    &&& forall|j: int|
        0 <= j < cells.len() ==> settled(b[#[trigger] cells[j]], values_in(b, cells))
}

/// `x` is the closure of `b` for the list: the greatest stable refinement.
pub open spec fn is_closure(x: Seq<CellView>, b: Seq<CellView>, cells: Seq<int>) -> bool {
    &&& refines(x, b)
    &&& stable_in(x, cells)
    &&& forall|y: Seq<CellView>| #[trigger] refines(y, b) && stable_in(y, cells) ==> refines(y, x)
}

/// What elimination in the list makes of a board: a duplicate among the
/// fixed values is an invalid board; otherwise the closure, if the board
/// has a stable refinement at all; otherwise the board is impossible.
pub open spec fn closure_spec(b: Seq<CellView>, cells: Seq<int>) -> Result<
    Seq<CellView>,
    UpdateError,
> {
    if has_duplicate(b, cells) {
        Err(UpdateError::InvalidConcrete)
    } else if exists|x: Seq<CellView>| is_closure(x, b, cells) {
        Ok(choose|x: Seq<CellView>| is_closure(x, b, cells))
    } else {
        Err(UpdateError::Impossible)
    }
}

/// The working state of elimination in one list of cells.
pub struct SetsView {
    /// The board as far as it is known.
    pub board: Seq<CellView>,
    /// The places of the list, in the order in which they are visited.
    pub cells: Seq<int>,
    /// The values that are fixed in the list.
    pub concrete: Set<usize>,
    /// The places that are not fixed yet.
    pub possible: Set<int>,
}

/// Where elimination starts: a duplicate among the fixed values is
/// refused at once.
pub open spec fn get_update_set_spec(b: Seq<CellView>, cells: Seq<int>) -> Result<
    SetsView,
    UpdateError,
> {
    if has_duplicate(b, cells) {
        Err(UpdateError::InvalidConcrete)
    } else {
        Ok(
            SetsView {
                board: b,
                cells,
                concrete: values_in(b, cells),
                possible: open_in(b, cells),
            },
        )
    }
}

/// Whether a pass would change nothing.
pub open spec fn finished_spec(st: SetsView) -> bool {
    forall|j: int|
        0 <= j < st.cells.len() && st.possible.contains(#[trigger] st.cells[j]) ==> settled(
            st.board[st.cells[j]],
            st.concrete,
        )
}

/// One place of a pass. The fixed values are struck from the cell's
/// candidates. A cell left with none is impossible; a cell left with one
/// is fixed to it, and the value joins the fixed ones.
pub open spec fn step_spec(st: SetsView, p: int) -> Result<SetsView, UpdateError> {
    if !st.possible.contains(p) {
        Ok(st)
    } else {
        match remove_possibilities_spec(st.board[p], st.concrete) {
            Err(e) => Err(e),
            Ok(c) => match naked_single(c) {
                None => Ok(SetsView { board: st.board.update(p, c), ..st }),
                Some(v) => Ok(
                    SetsView {
                        board: st.board.update(p, CellView::Fixed(v)),
                        concrete: st.concrete.insert(v),
                        possible: st.possible.remove(p),
                        ..st
                    },
                ),
            },
        }
    }
}

/// The rest of a pass, from the `j`-th place of the list on.
pub open spec fn update_from(st: SetsView, cells: Seq<int>, j: int) -> Result<
    SetsView,
    UpdateError,
>
    decreases cells.len() - j,
{
    if j < 0 || j >= cells.len() {
        Ok(st)
    } else {
        match step_spec(st, cells[j]) {
            Err(e) => Err(e),
            Ok(next) => update_from(next, cells, j + 1),
        }
    }
}

/// One pass over the list.
pub open spec fn update_spec(st: SetsView) -> Result<SetsView, UpdateError> {
    update_from(st, st.cells, 0)
}

/// Two boards that refine each other are the same board.
pub proof fn lemma_refines_antisymmetric(x: Seq<CellView>, y: Seq<CellView>)
    requires
        refines(x, y),
        refines(y, x),
    ensures
        x == y,
{
    assert forall|p: int| 0 <= p < x.len() implies x[p] == y[p] by {
        assert(cell_refines(x[p], y[p]));
        assert(cell_refines(y[p], x[p]));
        match x[p] {
            CellView::Fixed(_) => {},
            CellView::Open(t) => {
                assert(t =~= y[p]->Open_0);
            },
        }
    }
    assert(x =~= y);
}

/// Every board refines itself.
pub proof fn lemma_refines_reflexive(x: Seq<CellView>)
    ensures
        refines(x, x),
{
}

/// Refinement carries over: what refines a refinement of `b` refines `b`.
pub proof fn lemma_refines_transitive(x: Seq<CellView>, y: Seq<CellView>, b: Seq<CellView>)
    requires
        refines(x, y),
        refines(y, b),
    ensures
        refines(x, b),
{
    assert forall|p: int| 0 <= p < b.len() implies cell_refines(#[trigger] x[p], b[p]) by {
        assert(cell_refines(x[p], y[p]));
        assert(cell_refines(y[p], b[p]));
    }
}

/// A board has at most one closure, and elimination names it.
pub proof fn lemma_closure_unique(x: Seq<CellView>, b: Seq<CellView>, cells: Seq<int>)
    requires
        is_closure(x, b, cells),
        !has_duplicate(b, cells),
    ensures
        closure_spec(b, cells) == Ok::<Seq<CellView>, UpdateError>(x),
{
    let c = choose|c: Seq<CellView>| is_closure(c, b, cells);
    assert(refines(c, x));
    assert(refines(x, c));
    lemma_refines_antisymmetric(x, c);
}

/// A board without any stable refinement is impossible.
pub proof fn lemma_no_closure(b: Seq<CellView>, cells: Seq<int>)
    requires
        !has_duplicate(b, cells),
        forall|y: Seq<CellView>| #[trigger] refines(y, b) ==> !stable_in(y, cells),
    ensures
        closure_spec(b, cells) == Err::<Seq<CellView>, UpdateError>(UpdateError::Impossible),
{
}

/// A refinement keeps every fixed value of the list.
pub proof fn lemma_refines_keeps_fixed(y: Seq<CellView>, b: Seq<CellView>, cells: Seq<int>)
    requires
        refines(y, b),
        b.len() == 81,
        cells_ok(cells),
    ensures
        values_in(b, cells).subset_of(values_in(y, cells)),
{
    assert forall|v: usize| values_in(b, cells).contains(v) implies values_in(y, cells).contains(
        v,
    ) by {
        let k = choose|k: int| 0 <= k < cells.len() && b[#[trigger] cells[k]] == CellView::Fixed(v);
        assert(cell_refines(y[cells[k]], b[cells[k]]));
    }
}

/// In a stable refinement, a cell that the board leaves open takes none of
/// the values that the board has fixed in the list.
pub proof fn lemma_avoids(y: Seq<CellView>, b: Seq<CellView>, cells: Seq<int>, j: int)
    requires
        refines(y, b),
        stable_in(y, cells),
        b.len() == 81,
        cells_ok(cells),
        0 <= j < cells.len(),
        b[cells[j]] is Open,
    ensures
        cell_refines(
            y[cells[j]],
            CellView::Open(b[cells[j]]->Open_0.difference(values_in(b, cells))),
        ),
{
    let p = cells[j];
    let fixed = values_in(b, cells);
    lemma_refines_keeps_fixed(y, b, cells);
    assert(cell_refines(y[p], b[p]));
    match y[p] {
        CellView::Fixed(w) => {
            if fixed.contains(w) {
                let k = choose|k: int|
                    0 <= k < cells.len() && b[#[trigger] cells[k]] == CellView::Fixed(w);
                assert(cell_refines(y[cells[k]], b[cells[k]]));
                assert(k != j);
                if k < j {
                    assert(y[cells[k]] is Fixed && y[cells[k]] == y[cells[j]]);
                } else {
                    assert(y[cells[j]] is Fixed && y[cells[j]] == y[cells[k]]);
                }
                assert(has_duplicate(y, cells));
            }
        },
        CellView::Open(t) => {
            assert(settled(y[cells[j]], values_in(y, cells)));
            assert forall|v: usize| t.contains(v) implies b[p]->Open_0.difference(fixed).contains(
                v,
            ) by {
                if fixed.contains(v) {
                    assert(values_in(y, cells).contains(v));
                }
            }
        },
    }
}

/// The places that a board leaves open in a list are finitely many.
pub proof fn lemma_open_in_finite(b: Seq<CellView>, cells: Seq<int>)
    requires
        cells_ok(cells),
    ensures
        open_in(b, cells).finite(),
{
    lemma_int_range(0, 81);
    lemma_len_subset(open_in(b, cells), set_int_range(0, 81));
}

/// What holds between two passes of elimination that started from the
/// board `b0`: the board refines `b0`, the two working sets say what is
/// fixed and what is open in the list, no value is fixed twice, and every
/// stable refinement of `b0` still refines the board.
pub open spec fn in_progress(st: SetsView, b0: Seq<CellView>, cells: Seq<int>) -> bool {
    &&& st.cells == cells
    &&& cells_ok(cells)
    &&& board_in_range(st.board)
    &&& refines(st.board, b0)
    &&& st.concrete == values_in(st.board, cells)
    &&& !has_duplicate(st.board, cells)
    &&& st.possible == open_in(st.board, cells)
    &&& forall|y: Seq<CellView>|
        #[trigger] refines(y, b0) && stable_in(y, cells) ==> refines(y, st.board)
}

/// How far a pass has come at the `j`-th place: it has fixed a cell, or
/// every open cell before that place is settled.
pub open spec fn progress(st0: SetsView, st: SetsView, j: int) -> bool {
    ||| st.possible.len() < st0.possible.len()
    ||| (st.possible == st0.possible && forall|i: int|
        0 <= i < j && i < st.cells.len() && st.possible.contains(#[trigger] st.cells[i])
            ==> settled(st.board[st.cells[i]], st.concrete))
}

/// Elimination starts in a state that satisfies its invariant.
pub proof fn lemma_start(b: Seq<CellView>, cells: Seq<int>)
    requires
        board_in_range(b),
        cells_ok(cells),
        !has_duplicate(b, cells),
    ensures
        get_update_set_spec(b, cells) is Ok,
        in_progress(get_update_set_spec(b, cells)->Ok_0, b, cells),
{
}

/// A cell whose candidates are all fixed elsewhere in the list leaves the
/// board without a stable refinement.
proof fn lemma_step_impossible(st: SetsView, b0: Seq<CellView>, cells: Seq<int>, j: int)
    requires
        in_progress(st, b0, cells),
        0 <= j < cells.len(),
        st.board[cells[j]] is Open,
        st.board[cells[j]]->Open_0.difference(st.concrete).is_empty(),
    ensures
        forall|y: Seq<CellView>| #[trigger] refines(y, b0) ==> !stable_in(y, cells),
{
    let p = cells[j];
    assert forall|y: Seq<CellView>| #[trigger] refines(y, b0) implies !stable_in(y, cells) by {
        if stable_in(y, cells) {
            assert(refines(y, st.board));
            lemma_avoids(y, st.board, cells, j);
            match y[p] {
                CellView::Fixed(w) => {},
                CellView::Open(t) => {
                    assert(settled(y[cells[j]], values_in(y, cells)));
                    assert(t =~= Set::<usize>::empty());
                },
            }
        }
    }
}

/// Striking fixed values from a cell that keeps two candidates or more
/// preserves the invariant.
proof fn lemma_step_strike(st: SetsView, b0: Seq<CellView>, cells: Seq<int>, j: int)
    requires
        in_progress(st, b0, cells),
        0 <= j < cells.len(),
        st.board[cells[j]] is Open,
    ensures
        in_progress(
            SetsView {
                board: st.board.update(
                    cells[j],
                    CellView::Open(st.board[cells[j]]->Open_0.difference(st.concrete)),
                ),
                ..st
            },
            b0,
            cells,
        ),
{
    let p = cells[j];
    let d = st.board[p]->Open_0.difference(st.concrete);
    let nb = st.board.update(p, CellView::Open(d));
    let next = SetsView { board: nb, ..st };
    assert(cell_refines(st.board[p], b0[p]));
    assert(cell_in_range(st.board[p]));
    assert(refines(nb, b0)) by {
        assert forall|q: int| 0 <= q < b0.len() implies cell_refines(#[trigger] nb[q], b0[q]) by {
            assert(cell_refines(st.board[q], b0[q]));
        }
    }
    assert(board_in_range(nb)) by {
        assert forall|q: int| 0 <= q < 81 implies cell_in_range(#[trigger] nb[q]) by {
            assert(cell_in_range(st.board[q]));
        }
    }
    assert(values_in(nb, cells) =~= values_in(st.board, cells)) by {
        assert forall|v: usize| values_in(nb, cells).contains(v) implies values_in(
            st.board,
            cells,
        ).contains(v) by {
            let k = choose|k: int|
                0 <= k < cells.len() && nb[#[trigger] cells[k]] == CellView::Fixed(v);
            assert(st.board[cells[k]] == CellView::Fixed(v));
        }
        assert forall|v: usize| values_in(st.board, cells).contains(v) implies values_in(
            nb,
            cells,
        ).contains(v) by {
            let k = choose|k: int|
                0 <= k < cells.len() && st.board[#[trigger] cells[k]] == CellView::Fixed(v);
            assert(nb[cells[k]] == CellView::Fixed(v));
        }
    }
    assert(!has_duplicate(nb, cells)) by {
        if has_duplicate(nb, cells) {
            let (i1, i2) = choose|i1: int, i2: int|
                0 <= i1 < i2 < cells.len() && nb[#[trigger] cells[i1]] is Fixed && nb[cells[i1]]
                    == nb[#[trigger] cells[i2]];
            assert(st.board[cells[i1]] is Fixed && st.board[cells[i1]] == st.board[cells[i2]]);
        }
    }
    assert(open_in(nb, cells) =~= open_in(st.board, cells)) by {
        assert forall|q: int| open_in(nb, cells).contains(q) implies open_in(
            st.board,
            cells,
        ).contains(q) by {
            let k = choose|k: int| 0 <= k < cells.len() && #[trigger] cells[k] == q && nb[q] is Open;
            assert(cells[k] == q && st.board[q] is Open);
        }
        assert forall|q: int| open_in(st.board, cells).contains(q) implies open_in(
            nb,
            cells,
        ).contains(q) by {
            let k = choose|k: int|
                0 <= k < cells.len() && #[trigger] cells[k] == q && st.board[q] is Open;
            assert(cells[k] == q && nb[q] is Open);
        }
    }
    assert forall|y: Seq<CellView>| #[trigger] refines(y, b0) && stable_in(y, cells) implies refines(
        y,
        nb,
    ) by {
        assert(refines(y, st.board));
        lemma_avoids(y, st.board, cells, j);
        assert forall|q: int| 0 <= q < nb.len() implies cell_refines(#[trigger] y[q], nb[q]) by {
            assert(cell_refines(y[q], st.board[q]));
        }
    }
}

/// Fixing a cell to its last candidate preserves the invariant.
proof fn lemma_step_promote(st: SetsView, b0: Seq<CellView>, cells: Seq<int>, j: int, v: usize)
    requires
        in_progress(st, b0, cells),
        0 <= j < cells.len(),
        st.board[cells[j]] is Open,
        st.board[cells[j]]->Open_0.difference(st.concrete) == Set::<usize>::empty().insert(v),
    ensures
        in_progress(
            SetsView {
                board: st.board.update(cells[j], CellView::Fixed(v)),
                cells: st.cells,
                concrete: st.concrete.insert(v),
                possible: st.possible.remove(cells[j]),
            },
            b0,
            cells,
        ),
{
    let p = cells[j];
    let s = st.board[p]->Open_0;
    let d = s.difference(st.concrete);
    let nb = st.board.update(p, CellView::Fixed(v));
    assert(d.contains(v));
    assert(s.contains(v) && !st.concrete.contains(v));
    assert(cell_refines(st.board[p], b0[p]));
    assert(cell_in_range(st.board[p]));
    assert(all_values().contains(v));
    assert(refines(nb, b0)) by {
        assert forall|q: int| 0 <= q < b0.len() implies cell_refines(#[trigger] nb[q], b0[q]) by {
            assert(cell_refines(st.board[q], b0[q]));
        }
    }
    assert(board_in_range(nb)) by {
        assert forall|q: int| 0 <= q < 81 implies cell_in_range(#[trigger] nb[q]) by {
            assert(cell_in_range(st.board[q]));
        }
    }
    assert(values_in(nb, cells) =~= st.concrete.insert(v)) by {
        assert forall|w: usize| values_in(nb, cells).contains(w) implies st.concrete.insert(
            v,
        ).contains(w) by {
            let k = choose|k: int|
                0 <= k < cells.len() && nb[#[trigger] cells[k]] == CellView::Fixed(w);
            if k != j {
                assert(st.board[cells[k]] == CellView::Fixed(w));
            }
        }
        assert forall|w: usize| st.concrete.insert(v).contains(w) implies values_in(
            nb,
            cells,
        ).contains(w) by {
            if w == v {
                assert(nb[cells[j]] == CellView::Fixed(w));
            } else {
                let k = choose|k: int|
                    0 <= k < cells.len() && st.board[#[trigger] cells[k]] == CellView::Fixed(w);
                assert(nb[cells[k]] == CellView::Fixed(w));
            }
        }
    }
    assert(!has_duplicate(nb, cells)) by {
        if has_duplicate(nb, cells) {
            let (i1, i2) = choose|i1: int, i2: int|
                0 <= i1 < i2 < cells.len() && nb[#[trigger] cells[i1]] is Fixed && nb[cells[i1]]
                    == nb[#[trigger] cells[i2]];
            if i1 != j && i2 != j {
                assert(st.board[cells[i1]] is Fixed && st.board[cells[i1]] == st.board[cells[i2]]);
            } else if i1 == j {
                assert(st.board[cells[i2]] == CellView::Fixed(v));
                assert(values_in(st.board, cells).contains(v));
            } else {
                assert(st.board[cells[i1]] == CellView::Fixed(v));
                assert(values_in(st.board, cells).contains(v));
            }
        }
    }
    assert(open_in(nb, cells) =~= st.possible.remove(p)) by {
        assert forall|q: int| open_in(nb, cells).contains(q) implies st.possible.remove(
            p,
        ).contains(q) by {
            let k = choose|k: int| 0 <= k < cells.len() && #[trigger] cells[k] == q && nb[q] is Open;
            assert(cells[k] == q && st.board[q] is Open);
        }
        assert forall|q: int| st.possible.remove(p).contains(q) implies open_in(
            nb,
            cells,
        ).contains(q) by {
            let k = choose|k: int|
                0 <= k < cells.len() && #[trigger] cells[k] == q && st.board[q] is Open;
            assert(cells[k] == q && nb[q] is Open);
        }
    }
    assert forall|y: Seq<CellView>| #[trigger] refines(y, b0) && stable_in(y, cells) implies refines(
        y,
        nb,
    ) by {
        assert(refines(y, st.board));
        lemma_avoids(y, st.board, cells, j);
        match y[p] {
            CellView::Fixed(w) => {},
            CellView::Open(t) => {
                assert(settled(y[cells[j]], values_in(y, cells)));
                lemma_len_subset(t, d);
            },
        }
        assert forall|q: int| 0 <= q < nb.len() implies cell_refines(#[trigger] y[q], nb[q]) by {
            assert(cell_refines(y[q], st.board[q]));
        }
    }
}

/// One place of a pass preserves the invariant and makes progress, or it
/// shows that the board has no stable refinement.
pub proof fn lemma_step(st0: SetsView, st: SetsView, b0: Seq<CellView>, cells: Seq<int>, j: int)
    requires
        in_progress(st, b0, cells),
        0 <= j < cells.len(),
        progress(st0, st, j),
        st0.possible.finite(),
        st.possible.subset_of(st0.possible),
    ensures
        match step_spec(st, cells[j]) {
            Ok(next) => in_progress(next, b0, cells) && progress(st0, next, j + 1)
                && next.possible.subset_of(st0.possible),
            Err(e) => e == UpdateError::Impossible && forall|y: Seq<CellView>| #[trigger]
                refines(y, b0) ==> !stable_in(y, cells),
        },
{
    let p = cells[j];
    lemma_len_subset(st.possible, st0.possible);
    if st.possible.contains(p) {
        assert(st.board[p] is Open);
        let s = st.board[p]->Open_0;
        let d = s.difference(st.concrete);
        assert(cell_in_range(st.board[p]));
        lemma_all_values();
        lemma_len_subset(s, all_values());
        lemma_len_subset(d, s);
        if d.is_empty() {
            lemma_step_impossible(st, b0, cells, j);
        } else if d.len() == 1 {
            let v = d.choose();
            Set::lemma_is_singleton(d);
            assert(d.contains(v)) by {
                lemma_set_empty_equivalency_len(d);
            }
            assert(d =~= Set::<usize>::empty().insert(v));
            lemma_step_promote(st, b0, cells, j, v);
            let next = step_spec(st, p)->Ok_0;
            lemma_len_subset(next.possible, st0.possible);
        } else {
            lemma_step_strike(st, b0, cells, j);
            let next = step_spec(st, p)->Ok_0;
            assert(d.len() != 0) by {
                lemma_set_empty_equivalency_len(d);
            }
            if !(st.possible.len() < st0.possible.len()) {
                assert forall|i: int|
                    0 <= i < j + 1 && i < next.cells.len() && next.possible.contains(
                        #[trigger] next.cells[i],
                    ) implies settled(next.board[next.cells[i]], next.concrete) by {
                    if i < j {
                        assert(next.board[cells[i]] == st.board[cells[i]]);
                    }
                }
            }
        }
    } else {
        if !(st.possible.len() < st0.possible.len()) {
            assert forall|i: int|
                0 <= i < j + 1 && i < st.cells.len() && st.possible.contains(
                    #[trigger] st.cells[i],
                ) implies settled(st.board[st.cells[i]], st.concrete) by {}
        }
    }
}

/// The rest of a pass preserves the invariant and makes progress, or it
/// shows that the board has no stable refinement.
pub proof fn lemma_update_from(
    st0: SetsView,
    st: SetsView,
    b0: Seq<CellView>,
    cells: Seq<int>,
    j: int,
)
    requires
        in_progress(st, b0, cells),
        0 <= j <= cells.len(),
        progress(st0, st, j),
        st0.possible.finite(),
        st.possible.subset_of(st0.possible),
    ensures
        match update_from(st, cells, j) {
            Ok(end) => in_progress(end, b0, cells) && progress(st0, end, cells.len() as int)
                && end.possible.subset_of(st0.possible),
            Err(e) => e == UpdateError::Impossible && forall|y: Seq<CellView>| #[trigger]
                refines(y, b0) ==> !stable_in(y, cells),
        },
    decreases cells.len() - j,
{
    if j < cells.len() {
        lemma_step(st0, st, b0, cells, j);
        match step_spec(st, cells[j]) {
            Ok(next) => {
                lemma_update_from(st0, next, b0, cells, j + 1);
            },
            Err(_) => {},
        }
    }
}

/// A pass of elimination preserves the invariant, and either fixes a cell
/// or leaves nothing to do; a pass that fails shows that the board it
/// started from has no stable refinement.
pub proof fn lemma_update(st: SetsView, b0: Seq<CellView>, cells: Seq<int>)
    requires
        in_progress(st, b0, cells),
    ensures
        st.possible.finite(),
        match update_spec(st) {
            Ok(end) => in_progress(end, b0, cells) && end.possible.finite() && end.possible.len()
                <= st.possible.len() && (end.possible.len() < st.possible.len() || finished_spec(
                end,
            )),
            Err(e) => e == UpdateError::Impossible && forall|y: Seq<CellView>| #[trigger]
                refines(y, b0) ==> !stable_in(y, cells),
        },
{
    lemma_open_in_finite(st.board, cells);
    lemma_update_from(st, st, b0, cells, 0);
    match update_spec(st) {
        Ok(end) => {
            lemma_open_in_finite(end.board, cells);
            lemma_len_subset(end.possible, st.possible);
        },
        Err(_) => {},
    }
}

/// Once no pass has anything left to do, the board is the closure of the
/// board that elimination started from.
pub proof fn lemma_finished_is_closure(st: SetsView, b0: Seq<CellView>, cells: Seq<int>)
    requires
        in_progress(st, b0, cells),
        finished_spec(st),
    ensures
        is_closure(st.board, b0, cells),
{
    assert forall|j: int| 0 <= j < cells.len() implies settled(
        st.board[#[trigger] cells[j]],
        values_in(st.board, cells),
    ) by {
        if st.board[cells[j]] is Open {
            assert(open_in(st.board, cells).contains(cells[j]));
        }
    }
}

/// From any state between two passes, elimination reaches the closure of
/// the board it started from, unless that board has no stable refinement.
proof fn lemma_passes(st: SetsView, b0: Seq<CellView>, cells: Seq<int>)
    requires
        in_progress(st, b0, cells),
    ensures
        (exists|x: Seq<CellView>| is_closure(x, b0, cells)) || (forall|y: Seq<CellView>| #[trigger]
            refines(y, b0) ==> !stable_in(y, cells)),
    decreases
            2 * st.possible.len() + (if finished_spec(st) {
                0int
            } else {
                1int
            }),
{
    if finished_spec(st) {
        lemma_finished_is_closure(st, b0, cells);
    } else {
        lemma_update(st, b0, cells);
        match update_spec(st) {
            Ok(end) => {
                lemma_passes(end, b0, cells);
            },
            Err(_) => {},
        }
    }
}

/// The three ways in which elimination in a list of cells can end, each
/// with the boards on which it ends so: with `InvalidConcrete` exactly if
/// a value is fixed twice; else with `Impossible` exactly if the board has
/// no stable refinement; else with the board's closure.
pub proof fn lemma_closure_cases(b: Seq<CellView>, cells: Seq<int>)
    requires
        board_in_range(b),
        cells_ok(cells),
    ensures
        match closure_spec(b, cells) {
            Ok(x) => !has_duplicate(b, cells) && is_closure(x, b, cells),
            Err(e) => if has_duplicate(b, cells) {
                e == UpdateError::InvalidConcrete
            } else {
                e == UpdateError::Impossible && forall|y: Seq<CellView>| #[trigger]
                    refines(y, b) ==> !stable_in(y, cells)
            },
        },
{
    if !has_duplicate(b, cells) {
        lemma_start(b, cells);
        lemma_passes(get_update_set_spec(b, cells)->Ok_0, b, cells);
    }
}

/// A refinement of a board in which a value is fixed twice has that value
/// fixed twice too, so such a board has no stable refinement.
pub proof fn lemma_refines_keeps_duplicate(y: Seq<CellView>, b: Seq<CellView>, cells: Seq<int>)
    requires
        refines(y, b),
        b.len() == 81,
        cells_ok(cells),
        has_duplicate(b, cells),
    ensures
        has_duplicate(y, cells),
{
    let (i, j) = choose|i: int, j: int|
        0 <= i < j < cells.len() && b[#[trigger] cells[i]] is Fixed && b[cells[i]] == b[#[trigger] cells[j]];
    assert(cell_refines(y[cells[i]], b[cells[i]]));
    assert(cell_refines(y[cells[j]], b[cells[j]]));
    assert(y[cells[i]] is Fixed && y[cells[i]] == y[cells[j]]);
}

/// Exhaustion: an open cell whose candidates are all fixed elsewhere in the
/// list makes the board impossible.
pub proof fn lemma_exhausted(b: Seq<CellView>, cells: Seq<int>, j: int)
    requires
        board_in_range(b),
        cells_ok(cells),
        !has_duplicate(b, cells),
        0 <= j < cells.len(),
        b[cells[j]] is Open,
        b[cells[j]]->Open_0.subset_of(values_in(b, cells)),
    ensures
        closure_spec(b, cells) == Err::<Seq<CellView>, UpdateError>(UpdateError::Impossible),
{
    lemma_start(b, cells);
    let st = get_update_set_spec(b, cells)->Ok_0;
    assert(b[cells[j]]->Open_0.difference(st.concrete) =~= Set::<usize>::empty());
    lemma_step_impossible(st, b, cells, j);
    lemma_no_closure(b, cells);
}

/// Idempotence within a list: a board in which the list is stable is its
/// own closure.
pub proof fn lemma_stable_is_closure(b: Seq<CellView>, cells: Seq<int>)
    requires
        stable_in(b, cells),
    ensures
        closure_spec(b, cells) == Ok::<Seq<CellView>, UpdateError>(b),
{
    lemma_refines_reflexive(b);
    lemma_closure_unique(b, b, cells);
}

/// Elimination in a list leaves the cells outside the list as they are.
pub proof fn lemma_closure_elsewhere(x: Seq<CellView>, b: Seq<CellView>, cells: Seq<int>)
    requires
        is_closure(x, b, cells),
        b.len() == 81,
        cells_ok(cells),
    ensures
        forall|q: int| 0 <= q < 81 && !cells.contains(q) ==> #[trigger] x[q] == b[q],
{
    let y = Seq::new(
        81,
        |q: int|
            if cells.contains(q) {
                x[q]
            } else {
                b[q]
            },
    );
    assert forall|j: int| 0 <= j < cells.len() implies y[#[trigger] cells[j]] == x[cells[j]] by {
        assert(cells.contains(cells[j]));
    }
    assert(refines(y, b)) by {
        assert forall|q: int| 0 <= q < b.len() implies cell_refines(#[trigger] y[q], b[q]) by {
            assert(cell_refines(x[q], b[q]));
        }
    }
    assert(values_in(y, cells) =~= values_in(x, cells)) by {
        assert forall|v: usize| values_in(y, cells).contains(v) implies values_in(
            x,
            cells,
        ).contains(v) by {
            let k = choose|k: int|
                0 <= k < cells.len() && y[#[trigger] cells[k]] == CellView::Fixed(v);
            assert(x[cells[k]] == CellView::Fixed(v));
        }
        assert forall|v: usize| values_in(x, cells).contains(v) implies values_in(
            y,
            cells,
        ).contains(v) by {
            let k = choose|k: int|
                0 <= k < cells.len() && x[#[trigger] cells[k]] == CellView::Fixed(v);
            assert(y[cells[k]] == CellView::Fixed(v));
        }
    }
    assert(!has_duplicate(y, cells)) by {
        if has_duplicate(y, cells) {
            let (i1, i2) = choose|i1: int, i2: int|
                0 <= i1 < i2 < cells.len() && y[#[trigger] cells[i1]] is Fixed && y[cells[i1]]
                    == y[#[trigger] cells[i2]];
            assert(x[cells[i1]] is Fixed && x[cells[i1]] == x[cells[i2]]);
        }
    }
    assert(stable_in(y, cells)) by {
        assert forall|j: int| 0 <= j < cells.len() implies settled(
            y[#[trigger] cells[j]],
            values_in(y, cells),
        ) by {
            assert(settled(x[cells[j]], values_in(x, cells)));
        }
    }
    assert(refines(y, x));
    assert forall|q: int| 0 <= q < 81 && !cells.contains(q) implies #[trigger] x[q] == b[q] by {
        assert(cell_refines(y[q], x[q]));
        assert(cell_refines(x[q], b[q]));
        match b[q] {
            CellView::Fixed(_) => {},
            CellView::Open(t) => {
                assert(t =~= x[q]->Open_0);
            },
        }
    }
}

/// How many of the first `n` cells of the list are open.
pub open spec fn opens_upto(b: Seq<CellView>, cells: Seq<int>, n: int) -> nat
    decreases n,
{
    if n <= 0 {
        0
    } else {
        opens_upto(b, cells, n - 1) + if b[cells[n - 1]] is Open {
            1nat
        } else {
            0nat
        }
    }
}

/// The values that are fixed among the first `n` cells of the list.
pub open spec fn values_upto(b: Seq<CellView>, cells: Seq<int>, n: int) -> Set<usize>
    decreases n,
{
    if n <= 0 {
        Set::empty()
    } else {
        match b[cells[n - 1]] {
            CellView::Fixed(v) => values_upto(b, cells, n - 1).insert(v),
            CellView::Open(_) => values_upto(b, cells, n - 1),
        }
    }
}

/// Among the first `n` cells of a list there are at most as many fixed
/// values as there are cells that are not open.
proof fn lemma_values_upto(b: Seq<CellView>, cells: Seq<int>, n: int)
    requires
        0 <= n <= cells.len(),
    ensures
        values_upto(b, cells, n).finite(),
        values_upto(b, cells, n).len() + opens_upto(b, cells, n) <= n,
        forall|v: usize|
            values_upto(b, cells, n).contains(v) <==> exists|j: int|
                0 <= j < n && b[#[trigger] cells[j]] == CellView::Fixed(v),
    decreases n,
{
    if n > 0 {
        lemma_values_upto(b, cells, n - 1);
        let before = values_upto(b, cells, n - 1);
        assert forall|v: usize| values_upto(b, cells, n).contains(v) implies exists|j: int|
            0 <= j < n && b[#[trigger] cells[j]] == CellView::Fixed(v) by {
            if before.contains(v) {
                let j = choose|j: int|
                    0 <= j < n - 1 && b[#[trigger] cells[j]] == CellView::Fixed(v);
                assert(0 <= j < n && b[cells[j]] == CellView::Fixed(v));
            } else {
                assert(b[cells[n - 1]] == CellView::Fixed(v));
            }
        }
        assert forall|v: usize|
            (exists|j: int|
                0 <= j < n && b[#[trigger] cells[j]] == CellView::Fixed(v)) implies values_upto(
            b,
            cells,
            n,
        ).contains(v) by {
            let j = choose|j: int| 0 <= j < n && b[#[trigger] cells[j]] == CellView::Fixed(v);
            if j < n - 1 {
                assert(before.contains(v));
            }
        }
    }
}

/// An open cell among the first `n` counts, and two count twice.
proof fn lemma_opens_upto(b: Seq<CellView>, cells: Seq<int>, n: int, i1: int, i2: int)
    requires
        0 <= i1 < n,
        0 <= i2 < n,
        b[cells[i1]] is Open,
        b[cells[i2]] is Open,
    ensures
        opens_upto(b, cells, n) >= 1,
        i1 != i2 ==> opens_upto(b, cells, n) >= 2,
    decreases n,
{
    if i1 < n - 1 && i2 < n - 1 {
        lemma_opens_upto(b, cells, n - 1, i1, i2);
    } else if i1 < n - 1 {
        lemma_opens_upto(b, cells, n - 1, i1, i1);
    } else if i2 < n - 1 {
        lemma_opens_upto(b, cells, n - 1, i2, i2);
    }
}

/// A list of nine cells in which every open cell still has all nine
/// candidates, and no value is fixed twice, is never impossible.
pub proof fn lemma_untouched_list(x: Seq<CellView>, cells: Seq<int>)
    requires
        board_in_range(x),
        cells_ok(cells),
        cells.len() == 9,
        forall|j: int|
            0 <= j < 9 && x[#[trigger] cells[j]] is Open ==> x[cells[j]] == CellView::Open(
                all_values(),
            ),
        !has_duplicate(x, cells),
    ensures
        closure_spec(x, cells) is Ok,
{
    let fixed = values_in(x, cells);
    let unused = all_values().difference(fixed);
    lemma_values_upto(x, cells, 9);
    assert(fixed =~= values_upto(x, cells, 9));
    lemma_all_values();
    lemma_set_difference_len(all_values(), fixed);
    lemma_len_subset(all_values().intersect(fixed), fixed);
    lemma_len_subset(unused, all_values());
    assert(unused.len() >= opens_upto(x, cells, 9));
    let u = unused.choose();
    let y = Seq::new(
        81,
        |q: int|
            if cells.contains(q) && x[q] is Open {
                if unused.len() >= 2 {
                    CellView::Open(unused)
                } else {
                    CellView::Fixed(u)
                }
            } else {
                x[q]
            },
    );
    assert forall|j: int| 0 <= j < 9 implies y[#[trigger] cells[j]] == (if x[cells[j]] is Open {
        if unused.len() >= 2 {
            CellView::Open(unused)
        } else {
            CellView::Fixed(u)
        }
    } else {
        x[cells[j]]
    }) by {
        assert(cells.contains(cells[j]));
    }
    if exists|j: int| 0 <= j < 9 && x[#[trigger] cells[j]] is Open {
        let j = choose|j: int| 0 <= j < 9 && x[#[trigger] cells[j]] is Open;
        lemma_opens_upto(x, cells, 9, j, j);
        assert(unused.len() >= 1);
        lemma_set_empty_equivalency_len(unused);
        assert(unused.contains(u));
    }
    assert(refines(y, x)) by {
        assert forall|q: int| 0 <= q < x.len() implies cell_refines(#[trigger] y[q], x[q]) by {
            if cells.contains(q) && x[q] is Open {
                let j = choose|j: int| 0 <= j < cells.len() && cells[j] == q;
                assert(x[cells[j]] is Open);
                assert(unused.contains(u));
            } else {
                assert(cell_in_range(x[q]));
            }
        }
    }
    if unused.len() >= 2 {
        assert(values_in(y, cells) =~= fixed) by {
            assert forall|v: usize| values_in(y, cells).contains(v) implies fixed.contains(v) by {
                let k = choose|k: int|
                    0 <= k < cells.len() && y[#[trigger] cells[k]] == CellView::Fixed(v);
                assert(x[cells[k]] == CellView::Fixed(v));
            }
            assert forall|v: usize| fixed.contains(v) implies values_in(y, cells).contains(v) by {
                let k = choose|k: int|
                    0 <= k < cells.len() && x[#[trigger] cells[k]] == CellView::Fixed(v);
                assert(y[cells[k]] == CellView::Fixed(v));
            }
        }
        if has_duplicate(y, cells) {
            let (i1, i2) = choose|i1: int, i2: int|
                0 <= i1 < i2 < cells.len() && y[#[trigger] cells[i1]] is Fixed && y[cells[i1]]
                    == y[#[trigger] cells[i2]];
            assert(x[cells[i1]] is Fixed && x[cells[i1]] == x[cells[i2]]);
        }
        assert forall|j: int| 0 <= j < cells.len() implies settled(
            y[#[trigger] cells[j]],
            values_in(y, cells),
        ) by {}
    } else {
        if has_duplicate(y, cells) {
            let (i1, i2) = choose|i1: int, i2: int|
                0 <= i1 < i2 < cells.len() && y[#[trigger] cells[i1]] is Fixed && y[cells[i1]]
                    == y[#[trigger] cells[i2]];
            if x[cells[i1]] is Open && x[cells[i2]] is Open {
                lemma_opens_upto(x, cells, 9, i1, i2);
            } else if x[cells[i1]] is Open {
                assert(x[cells[i2]] == CellView::Fixed(u));
                assert(fixed.contains(u));
            } else if x[cells[i2]] is Open {
                assert(x[cells[i1]] == CellView::Fixed(u));
                assert(fixed.contains(u));
            } else {
                assert(x[cells[i1]] is Fixed && x[cells[i1]] == x[cells[i2]]);
            }
        }
        assert forall|j: int| 0 <= j < cells.len() implies settled(
            y[#[trigger] cells[j]],
            values_in(y, cells),
        ) by {}
    }
    assert(stable_in(y, cells));
    lemma_closure_cases(x, cells);
}

} // verus!
