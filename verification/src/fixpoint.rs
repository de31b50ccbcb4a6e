//! Elimination over the whole board, as mathematics: sweeps over the 27
//! groups, repeated until a sweep changes nothing.

use vstd::prelude::*;
use vstd::set_lib::*;
use crate::cell::{cell_in_range, cell_of_entry, CellView};
use crate::closure::{
    cell_refines, closure_spec, has_duplicate, is_closure, lemma_closure_cases,
    lemma_closure_elsewhere, lemma_untouched_list,
    lemma_refines_antisymmetric, lemma_refines_keeps_duplicate, lemma_refines_reflexive,
    lemma_refines_transitive, lemma_stable_is_closure, refines, stable_in,
};
use crate::errors::UpdateError;
use crate::model::{
    all_fixed, board_in_range, build_spec, group_cells, lemma_build_succeeds, lemma_group_cells,
};
use crate::possible_cells::{all_values, lemma_all_values};

verus! {

/// Elimination in the groups from `g` up to, not including, `end`, one
/// after the other. The first group that fails ends the sweep.
pub open spec fn sweep(b: Seq<CellView>, g: int, end: int) -> Result<Seq<CellView>, UpdateError>
    decreases end - g,
{
    if g >= end {
        Ok(b)
    } else {
        match closure_spec(b, group_cells(g)) {
            Err(e) => Err(e),
            Ok(next) => sweep(next, g + 1, end),
        }
    }
}

/// What is still undecided in a cell: nothing once it is fixed, else one
/// more than the number of its candidates.
pub open spec fn cell_weight(c: CellView) -> nat {
    match c {
        CellView::Fixed(_) => 0,
        CellView::Open(s) => s.len() + 1,
    }
}

/// What is still undecided in the first `n` cells of a board.
pub open spec fn weight_upto(b: Seq<CellView>, n: int) -> nat
    decreases n,
{
    if n <= 0 {
        0
    } else {
        weight_upto(b, n - 1) + cell_weight(b[n - 1])
    }
}

/// What is still undecided in a board.
pub open spec fn weight(b: Seq<CellView>) -> nat {
    weight_upto(b, b.len() as int)
}

/// Sweeps over all 27 groups, rows first, then columns, then houses,
/// repeated until one changes nothing. The first group that fails ends
/// it.
pub open spec fn validate_spec(b: Seq<CellView>) -> Result<Seq<CellView>, UpdateError>
    decreases weight(b),
    when board_in_range(b)
    via validate_decreases
{
    match sweep(b, 0, 27) {
        Err(e) => Err(e),
        Ok(next) => if next == b {
            Ok(b)
        } else {
            validate_spec(next)
        },
    }
}

/// How elimination over the whole board ends, as a mathematical value.
pub enum StateView {
    /// Nothing changes any more, and every cell is fixed.
    Finished(Seq<CellView>),
    /// Nothing changes any more, and some cell is still open.
    Valid(Seq<CellView>),
    /// Something changed in the last sweep.
    PartiallyValid(Seq<CellView>),
    /// The board was refused, or no solution of it was found.
    Failed(UpdateError),
}

/// How elimination over the whole board ends.
pub open spec fn validate_state(b: Seq<CellView>) -> StateView {
    match validate_spec(b) {
        Err(e) => StateView::Failed(e),
        Ok(x) => if all_fixed(x) {
            StateView::Finished(x)
        } else {
            StateView::Valid(x)
        },
    }
}

#[via_fn]
proof fn validate_decreases(b: Seq<CellView>) {
    match sweep(b, 0, 27) {
        Err(_) => {},
        Ok(next) => {
            if next != b {
                lemma_sweep_refines(b, 0, 27);
                lemma_weight(next, b);
            }
        },
    }
}

/// A refinement of a board in range is in range.
pub proof fn lemma_refines_in_range(x: Seq<CellView>, b: Seq<CellView>)
    requires
        refines(x, b),
        board_in_range(b),
    ensures
        board_in_range(x),
{
    assert forall|p: int| 0 <= p < 81 implies cell_in_range(#[trigger] x[p]) by {
        assert(cell_refines(x[p], b[p]));
        assert(cell_in_range(b[p]));
    }
}

/// What elimination in one list makes of a board is the board's closure.
pub proof fn lemma_closure(b: Seq<CellView>, cells: Seq<int>)
    requires
        closure_spec(b, cells) is Ok,
    ensures
        is_closure(closure_spec(b, cells)->Ok_0, b, cells),
{
}

/// A sweep refines the board.
pub proof fn lemma_sweep_refines(b: Seq<CellView>, g: int, end: int)
    requires
        board_in_range(b),
        sweep(b, g, end) is Ok,
    ensures
        refines(sweep(b, g, end)->Ok_0, b),
        board_in_range(sweep(b, g, end)->Ok_0),
    decreases end - g,
{
    if g < end {
        let next = closure_spec(b, group_cells(g))->Ok_0;
        lemma_closure(b, group_cells(g));
        lemma_refines_in_range(next, b);
        lemma_sweep_refines(next, g + 1, end);
        lemma_refines_transitive(sweep(b, g, end)->Ok_0, next, b);
    }
}

/// A sweep can be cut in two.
pub proof fn lemma_sweep_split(b: Seq<CellView>, g: int, mid: int, end: int)
    requires
        g <= mid <= end,
    ensures
        sweep(b, g, end) == match sweep(b, g, mid) {
            Err(e) => Err(e),
            Ok(x) => sweep(x, mid, end),
        },
    decreases mid - g,
{
    if g < mid {
        match closure_spec(b, group_cells(g)) {
            Err(_) => {},
            Ok(next) => {
                lemma_sweep_split(next, g + 1, mid, end);
            },
        }
    }
}

/// A cell that refines another has at most its weight, and the same
/// weight only if it is the same cell.
pub proof fn lemma_cell_weight(x: CellView, c: CellView)
    requires
        cell_refines(x, c),
        cell_in_range(c),
    ensures
        cell_weight(x) <= cell_weight(c),
        cell_weight(x) == cell_weight(c) ==> x == c,
{
    lemma_all_values();
    match c {
        CellView::Fixed(_) => {},
        CellView::Open(s) => {
            lemma_len_subset(s, all_values());
            match x {
                CellView::Fixed(_) => {},
                CellView::Open(t) => {
                    lemma_len_subset(t, s);
                    if t.len() == s.len() && t != s {
                        assert(!(t =~= s));
                        let a = choose|a: usize| s.contains(a) && !t.contains(a);
                        lemma_len_subset(t, s.remove(a));
                    }
                },
            }
        },
    }
}

/// The first `n` cells of a refinement weigh at most what those of the
/// board weigh, and the same only if they are the same cells.
pub proof fn lemma_weight_upto(x: Seq<CellView>, b: Seq<CellView>, n: int)
    requires
        refines(x, b),
        board_in_range(b),
        0 <= n <= 81,
    ensures
        weight_upto(x, n) <= weight_upto(b, n),
        weight_upto(x, n) == weight_upto(b, n) ==> forall|p: int|
            0 <= p < n ==> #[trigger] x[p] == b[p],
    decreases n,
{
    if n > 0 {
        lemma_weight_upto(x, b, n - 1);
        assert(cell_refines(x[n - 1], b[n - 1]));
        assert(cell_in_range(b[n - 1]));
        lemma_cell_weight(x[n - 1], b[n - 1]);
    }
}

/// A refinement weighs at most what the board weighs, and the same only
/// if it is the same board.
pub proof fn lemma_weight(x: Seq<CellView>, b: Seq<CellView>)
    requires
        refines(x, b),
        board_in_range(b),
    ensures
        weight(x) <= weight(b),
        weight(x) == weight(b) ==> x == b,
{
    lemma_weight_upto(x, b, 81);
    if weight(x) == weight(b) {
        assert(x =~= b);
    }
}

/// Elimination refines the board.
pub proof fn lemma_validate_refines(b: Seq<CellView>)
    requires
        board_in_range(b),
        validate_spec(b) is Ok,
    ensures
        refines(validate_spec(b)->Ok_0, b),
        board_in_range(validate_spec(b)->Ok_0),
    decreases weight(b),
{
    let next = sweep(b, 0, 27)->Ok_0;
    if next != b {
        lemma_sweep_refines(b, 0, 27);
        lemma_weight(next, b);
        lemma_validate_refines(next);
        lemma_refines_transitive(validate_spec(b)->Ok_0, next, b);
    }
}

/// Idempotence: on the board that elimination ends with, elimination
/// changes nothing, and ends in the same state.
pub proof fn lemma_validate_idempotent(b: Seq<CellView>)
    requires
        board_in_range(b),
        validate_spec(b) is Ok,
    ensures
        validate_spec(validate_spec(b)->Ok_0) == validate_spec(b),
        validate_state(validate_spec(b)->Ok_0) == validate_state(b),
        sweep(validate_spec(b)->Ok_0, 0, 27) == validate_spec(b),
    decreases weight(b),
{
    let next = sweep(b, 0, 27)->Ok_0;
    if next != b {
        lemma_sweep_refines(b, 0, 27);
        lemma_weight(next, b);
        lemma_validate_idempotent(next);
    }
}

/// Elimination has nothing left to do in any of the 27 groups.
pub open spec fn stable_all(b: Seq<CellView>) -> bool {
    forall|g: int| 0 <= g < 27 ==> stable_in(b, #[trigger] group_cells(g))
}

/// A sweep loses no refinement of the board in which all groups are stable,
/// and it fails only if there is none.
pub proof fn lemma_sweep_greatest(b: Seq<CellView>, g: int, end: int)
    requires
        board_in_range(b),
        0 <= g <= end <= 27,
    ensures
        match sweep(b, g, end) {
            Ok(x) => forall|y: Seq<CellView>| #[trigger]
                refines(y, b) && stable_all(y) ==> refines(y, x),
            Err(e) => (e == UpdateError::InvalidConcrete || e == UpdateError::Impossible)
                && forall|y: Seq<CellView>| #[trigger] refines(y, b) ==> !stable_all(y),
        },
    decreases end - g,
{
    if g < end {
        let cells = group_cells(g);
        lemma_group_cells(g);
        lemma_closure_cases(b, cells);
        match closure_spec(b, cells) {
            Ok(next) => {
                lemma_refines_in_range(next, b);
                lemma_sweep_greatest(next, g + 1, end);
                match sweep(next, g + 1, end) {
                    Ok(x) => {
                        assert forall|y: Seq<CellView>| #[trigger]
                            refines(y, b) && stable_all(y) implies refines(y, x) by {
                            assert(stable_in(y, group_cells(g)));
                            assert(refines(y, next));
                        }
                    },
                    Err(_) => {
                        assert forall|y: Seq<CellView>| #[trigger] refines(y, b) implies !stable_all(
                            y,
                        ) by {
                            if stable_all(y) {
                                assert(stable_in(y, group_cells(g)));
                                assert(refines(y, next));
                            }
                        }
                    },
                }
            },
            Err(_) => {
                assert forall|y: Seq<CellView>| #[trigger] refines(y, b) implies !stable_all(y) by {
                    if has_duplicate(b, cells) {
                        lemma_refines_keeps_duplicate(y, b, cells);
                    }
                    if stable_all(y) {
                        assert(stable_in(y, group_cells(g)));
                    }
                }
            },
        }
    }
}

/// A sweep that gives the board back found every group on its way stable.
pub proof fn lemma_sweep_fixed(b: Seq<CellView>, g: int, end: int)
    requires
        board_in_range(b),
        0 <= g <= end <= 27,
        sweep(b, g, end) == Ok::<Seq<CellView>, UpdateError>(b),
    ensures
        forall|h: int| g <= h < end ==> stable_in(b, #[trigger] group_cells(h)),
    decreases end - g,
{
    if g < end {
        let next = closure_spec(b, group_cells(g))->Ok_0;
        lemma_closure(b, group_cells(g));
        lemma_refines_in_range(next, b);
        lemma_sweep_refines(next, g + 1, end);
        lemma_refines_antisymmetric(next, b);
        lemma_sweep_fixed(b, g + 1, end);
        assert forall|h: int| g <= h < end implies stable_in(b, #[trigger] group_cells(h)) by {
            if h == g {
                assert(stable_in(b, group_cells(g)));
            }
        }
    }
}

/// What elimination over the whole board comes to. It ends well exactly
/// if the board has a refinement in which all 27 groups are stable, and
/// then with the greatest such refinement: one that every other refines.
/// It fails, with `InvalidConcrete` or `Impossible`, exactly if there is
/// none.
pub proof fn lemma_validate_greatest(b: Seq<CellView>)
    requires
        board_in_range(b),
    ensures
        match validate_spec(b) {
            Ok(x) => refines(x, b) && stable_all(x) && forall|y: Seq<CellView>| #[trigger]
                refines(y, b) && stable_all(y) ==> refines(y, x),
            Err(e) => (e == UpdateError::InvalidConcrete || e == UpdateError::Impossible)
                && forall|y: Seq<CellView>| #[trigger] refines(y, b) ==> !stable_all(y),
        },
    decreases weight(b),
{
    lemma_sweep_greatest(b, 0, 27);
    match sweep(b, 0, 27) {
        Err(_) => {},
        Ok(next) => {
            if next == b {
                lemma_sweep_fixed(b, 0, 27);
                lemma_refines_reflexive(b);
            } else {
                lemma_sweep_refines(b, 0, 27);
                lemma_weight(next, b);
                lemma_validate_greatest(next);
                match validate_spec(next) {
                    Ok(x) => {
                        lemma_refines_transitive(x, next, b);
                        assert forall|y: Seq<CellView>| #[trigger]
                            refines(y, b) && stable_all(y) implies refines(y, x) by {
                            assert(refines(y, next));
                        }
                    },
                    Err(_) => {
                        assert forall|y: Seq<CellView>| #[trigger] refines(y, b) implies !stable_all(
                            y,
                        ) by {
                            if stable_all(y) {
                                assert(refines(y, next));
                            }
                        }
                    },
                }
            }
        },
    }
}

/// A sweep over groups that are all stable gives the board back.
pub proof fn lemma_sweep_of_stable(b: Seq<CellView>, g: int, end: int)
    requires
        0 <= g <= end <= 27,
        stable_all(b),
    ensures
        sweep(b, g, end) == Ok::<Seq<CellView>, UpdateError>(b),
    decreases end - g,
{
    if g < end {
        assert(stable_in(b, group_cells(g)));
        lemma_stable_is_closure(b, group_cells(g));
        lemma_sweep_of_stable(b, g + 1, end);
    }
}

/// Idempotence: a board in which all 27 groups are stable is returned as
/// it is.
pub proof fn lemma_validate_of_stable(b: Seq<CellView>)
    requires
        board_in_range(b),
        stable_all(b),
    ensures
        validate_spec(b) == Ok::<Seq<CellView>, UpdateError>(b),
{
    lemma_sweep_of_stable(b, 0, 27);
}

/// Contradiction: a board in which some group has a value fixed twice is
/// refused; and with `InvalidConcrete`, unless a group that is swept before
/// that one is found impossible first.
pub proof fn lemma_duplicate(b: Seq<CellView>, g: int)
    requires
        board_in_range(b),
        0 <= g < 27,
        has_duplicate(b, group_cells(g)),
    ensures
        validate_spec(b) is Err,
        sweep(b, 0, g) != Err::<Seq<CellView>, UpdateError>(UpdateError::Impossible)
            ==> validate_spec(b) == Err::<Seq<CellView>, UpdateError>(
            UpdateError::InvalidConcrete,
        ),
{
    lemma_sweep_split(b, 0, g, 27);
    lemma_sweep_greatest(b, 0, g);
    match sweep(b, 0, g) {
        Err(_) => {},
        Ok(x) => {
            lemma_sweep_refines(b, 0, g);
            lemma_group_cells(g);
            lemma_refines_keeps_duplicate(x, b, group_cells(g));
        },
    }
}

/// Contradiction in the first row: a board in whose first row a value is
/// fixed twice is refused with `InvalidConcrete`.
pub proof fn lemma_duplicate_first_group(b: Seq<CellView>)
    requires
        board_in_range(b),
        has_duplicate(b, group_cells(0)),
    ensures
        validate_spec(b) == Err::<Seq<CellView>, UpdateError>(UpdateError::InvalidConcrete),
{
    lemma_duplicate(b, 0);
}

/// A board as it is built from a grid: each cell is fixed, or has all nine
/// candidates still.
pub open spec fn untouched(b: Seq<CellView>) -> bool {
    &&& board_in_range(b)
    &&& forall|p: int|
        0 <= p < 81 && (#[trigger] b[p]) is Open ==> b[p] == CellView::Open(all_values())
}

/// The board that a grid stands for is untouched.
pub proof fn lemma_build_untouched(grid: Seq<Seq<Option<u8>>>)
    requires
        build_spec(grid) is Ok,
    ensures
        untouched(build_spec(grid)->Ok_0),
{
    lemma_build_succeeds(grid);
    let b = build_spec(grid)->Ok_0;
    assert forall|p: int| 0 <= p < 81 implies cell_in_range(#[trigger] b[p]) && (b[p] is Open
        ==> b[p] == CellView::Open(all_values())) by {
        assert(cell_of_entry(grid[p / 9][p % 9]) is Ok);
    }
}

/// In an untouched board, the sweep over the first `g` rows ends well or
/// finds a value fixed twice, and it changes nothing below those rows.
proof fn lemma_rows_of_untouched(b: Seq<CellView>, g: int)
    requires
        untouched(b),
        0 <= g <= 9,
    ensures
        match sweep(b, 0, g) {
            Ok(x) => board_in_range(x) && forall|p: int|
                9 * g <= p < 81 ==> #[trigger] x[p] == b[p],
            Err(e) => e == UpdateError::InvalidConcrete,
        },
    decreases g,
{
    if g > 0 {
        lemma_rows_of_untouched(b, g - 1);
        lemma_sweep_split(b, 0, g - 1, g);
        match sweep(b, 0, g - 1) {
            Err(_) => {},
            Ok(x) => {
                let cells = group_cells(g - 1);
                lemma_group_cells(g - 1);
                assert(sweep(x, g, g) == Ok::<Seq<CellView>, UpdateError>(x));
                lemma_closure_cases(x, cells);
                if !has_duplicate(x, cells) {
                    assert forall|j: int| 0 <= j < 9 && x[#[trigger] cells[j]] is Open implies x[cells[j]]
                        == CellView::Open(all_values()) by {
                        assert(x[cells[j]] == b[cells[j]]);
                    }
                    lemma_untouched_list(x, cells);
                    let next = closure_spec(x, cells)->Ok_0;
                    lemma_closure_elsewhere(next, x, cells);
                    lemma_refines_in_range(next, x);
                    assert(sweep(next, g, g) == Ok::<Seq<CellView>, UpdateError>(next));
                    assert forall|p: int| 9 * g <= p < 81 implies #[trigger] next[p] == b[p] by {
                        assert(!cells.contains(p)) by {
                            assert forall|j: int| 0 <= j < cells.len() implies cells[j] != p by {}
                        }
                        assert(next[p] == x[p]);
                    }
                }
            },
        }
    }
}

/// Contradiction in a board as it is built from a grid: if a value is fixed
/// twice in a row, the board is refused with `InvalidConcrete`.
pub proof fn lemma_duplicate_in_row(b: Seq<CellView>, r: int)
    requires
        untouched(b),
        0 <= r < 9,
        has_duplicate(b, group_cells(r)),
    ensures
        validate_spec(b) == Err::<Seq<CellView>, UpdateError>(UpdateError::InvalidConcrete),
{
    lemma_rows_of_untouched(b, r);
    lemma_duplicate(b, r);
}

} // verus!
