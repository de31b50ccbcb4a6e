//! Branching, as mathematics: the boards that a search tries next, and the
//! search itself.

use vstd::prelude::*;
use vstd::set_lib::*;
use crate::cell::{cell_in_range, remove_possibility_spec, CellView};
use crate::closure::{
    cell_refines, has_duplicate, lemma_refines_transitive, refines, settled, stable_in, values_in,
};
use crate::errors::UpdateError;
use crate::fixpoint::{
    lemma_validate_greatest, lemma_validate_refines, stable_all, validate_spec, StateView,
};
use crate::model::{all_fixed, board_in_range, group_cell, group_cells};
use crate::possible_cells::{all_values, lemma_all_values};

verus! {

/// Two places in the same house.
pub open spec fn same_house(p: int, q: int) -> bool {
    (p / 9) / 3 == (q / 9) / 3 && (p % 9) / 3 == (q % 9) / 3
}

/// Two different places that share a row, a column or a house.
pub open spec fn peers(p: int, q: int) -> bool {
    p != q && (p / 9 == q / 9 || p % 9 == q % 9 || same_house(p, q))
}

/// The cell at `q` once the cell at `p` is fixed to `v`: the cell at `p`
/// holds `v`, its peers lose `v` as a candidate, the others stay.
pub open spec fn child_cell(b: Seq<CellView>, p: int, v: usize, q: int) -> CellView {
    if q == p {
        CellView::Fixed(v)
    } else if peers(p, q) {
        remove_possibility_spec(b[q], v)
    } else {
        b[q]
    }
}

/// The board once the cell at `p` is fixed to `v`.
pub open spec fn child(b: Seq<CellView>, p: int, v: usize) -> Seq<CellView> {
    Seq::new(81, |q: int| child_cell(b, p, v, q))
}

/// A peer can live with `v` being fixed next to it: it is not fixed to `v`
/// itself, and `v` is not its last candidate.
pub open spec fn peer_allows(c: CellView, v: usize) -> bool {
    match c {
        CellView::Fixed(w) => w != v,
        CellView::Open(t) => !t.remove(v).is_empty(),
    }
}

/// The open cell at `p` can be fixed to `v`: `v` is one of its candidates,
/// and every peer can live with it.
pub open spec fn child_feasible(b: Seq<CellView>, p: int, v: usize) -> bool {
    &&& b[p] is Open
    &&& b[p]->Open_0.contains(v)
    &&& forall|q: int| 0 <= q < 81 && peers(p, q) ==> peer_allows(#[trigger] b[q], v)
}

/// The boards in which the cell at `p` is fixed to one of the values from
/// `v` to 9 that it can be fixed to, in ascending order of the value.
pub open spec fn children_from(b: Seq<CellView>, p: int, v: int) -> Seq<Seq<CellView>>
    decreases 10 - v,
{
    if v < 1 || v > 9 {
        Seq::empty()
    } else if child_feasible(b, p, v as usize) {
        seq![child(b, p, v as usize)] + children_from(b, p, v + 1)
    } else {
        children_from(b, p, v + 1)
    }
}

/// The boards in which the cell at `p` is fixed; none if it is fixed
/// already.
pub open spec fn boards_at(b: Seq<CellView>, p: int) -> Seq<Seq<CellView>> {
    children_from(b, p, 1)
}

/// `p` is the first open cell, counting row by row.
pub open spec fn is_first_open(b: Seq<CellView>, p: int) -> bool {
    &&& 0 <= p < 81
    &&& b[p] is Open
    &&& forall|q: int| 0 <= q < p ==> #[trigger] b[q] is Fixed
}

/// The first open cell, counting row by row.
pub open spec fn first_open(b: Seq<CellView>) -> int {
    choose|p: int| is_first_open(b, p)
}

/// The boards that a search tries next: those in which the first open cell
/// is fixed, in ascending order of its value. None if no cell is open.
pub open spec fn possible_updates_spec(b: Seq<CellView>) -> Seq<Seq<CellView>> {
    if all_fixed(b) {
        Seq::empty()
    } else {
        boards_at(b, first_open(b))
    }
}

/// How many of the first `n` cells are open.
pub open spec fn open_upto(b: Seq<CellView>, n: int) -> nat
    decreases n,
{
    if n <= 0 {
        0
    } else {
        open_upto(b, n - 1) + if b[n - 1] is Open {
            1nat
        } else {
            0nat
        }
    }
}

/// How many cells are open.
pub open spec fn open_count(b: Seq<CellView>) -> nat {
    open_upto(b, b.len() as int)
}

/// The search. Elimination comes first; if it leaves cells open, the boards
/// to try next are searched in order, and the first that can be finished
/// is the result. If none can, the search fails as the last of them did.
/// (It would fail with `InitError` if there were none to try; there always
/// is one.)
pub open spec fn solve_spec(b: Seq<CellView>) -> Result<Seq<CellView>, UpdateError>
    decreases open_count(b), 1int, 0int,
    when board_in_range(b)
    via solve_decreases
{
    match validate_spec(b) {
        Err(e) => Err(e),
        Ok(b1) => if all_fixed(b1) {
            Ok(b1)
        } else {
            search_spec(b1, 0, UpdateError::InitError)
        },
    }
}

/// The search among the boards to try next, from the `k`-th on; `last` is
/// how the one before failed.
pub open spec fn search_spec(b: Seq<CellView>, k: int, last: UpdateError) -> Result<
    Seq<CellView>,
    UpdateError,
>
    decreases open_count(b), 0int, possible_updates_spec(b).len() - k,
    when board_in_range(b) && 0 <= k
    via search_decreases
{
    if k >= possible_updates_spec(b).len() {
        Err(last)
    } else {
        match solve_spec(possible_updates_spec(b)[k]) {
            Ok(s) => Ok(s),
            Err(e) => search_spec(b, k + 1, e),
        }
    }
}

#[via_fn]
proof fn solve_decreases(b: Seq<CellView>) {
    match validate_spec(b) {
        Err(_) => {},
        Ok(b1) => {
            lemma_validate_refines(b);
            lemma_refines_open_count(b1, b);
        },
    }
}

#[via_fn]
proof fn search_decreases(b: Seq<CellView>, k: int, last: UpdateError) {
    if k < possible_updates_spec(b).len() {
        lemma_possible_updates(b);
    }
}

/// The first open cell is the only one that is first.
pub proof fn lemma_first_open(b: Seq<CellView>, p: int)
    requires
        is_first_open(b, p),
    ensures
        first_open(b) == p,
{
    let f = first_open(b);
    assert(is_first_open(b, f));
    if f < p {
        assert(b[f] is Fixed);
    }
    if p < f {
        assert(b[p] is Fixed);
    }
}

/// A board that is not all fixed has a first open cell.
pub proof fn lemma_first_open_exists(b: Seq<CellView>, n: int)
    requires
        b.len() == 81,
        0 <= n <= 81,
        exists|p: int| 0 <= p < n && #[trigger] b[p] is Open,
    ensures
        is_first_open(b, first_open(b)),
        first_open(b) < n,
    decreases n,
{
    if exists|p: int| 0 <= p < n - 1 && #[trigger] b[p] is Open {
        lemma_first_open_exists(b, n - 1);
    } else {
        assert(b[n - 1] is Open);
        assert(is_first_open(b, n - 1));
        lemma_first_open(b, n - 1);
    }
}

/// Among the first `n` cells at most `n` are open.
pub proof fn lemma_open_upto_bound(b: Seq<CellView>, n: int)
    requires
        0 <= n,
    ensures
        open_upto(b, n) <= n,
    decreases n,
{
    if n > 0 {
        lemma_open_upto_bound(b, n - 1);
    }
}

/// A board has at most 81 open cells, so a search never nests deeper than
/// that: each board that it tries has fewer open cells than the one before.
pub proof fn lemma_open_count_bound(b: Seq<CellView>)
    requires
        b.len() == 81,
    ensures
        open_count(b) <= 81,
{
    lemma_open_upto_bound(b, 81);
}

/// A refinement has at most as many open cells among the first `n`.
pub proof fn lemma_refines_open_upto(x: Seq<CellView>, b: Seq<CellView>, n: int)
    requires
        refines(x, b),
        0 <= n <= b.len(),
    ensures
        open_upto(x, n) <= open_upto(b, n),
    decreases n,
{
    if n > 0 {
        lemma_refines_open_upto(x, b, n - 1);
        assert(cell_refines(x[n - 1], b[n - 1]));
    }
}

/// A refinement has at most as many open cells.
pub proof fn lemma_refines_open_count(x: Seq<CellView>, b: Seq<CellView>)
    requires
        refines(x, b),
    ensures
        open_count(x) <= open_count(b),
{
    lemma_refines_open_upto(x, b, b.len() as int);
}

/// Fixing an open cell leaves one open cell fewer.
pub proof fn lemma_child_open_upto(b: Seq<CellView>, p: int, v: usize, n: int)
    requires
        b.len() == 81,
        0 <= p < 81,
        b[p] is Open,
        0 <= n <= 81,
    ensures
        open_upto(child(b, p, v), n) + (if p < n {
            1nat
        } else {
            0nat
        }) == open_upto(b, n),
    decreases n,
{
    if n > 0 {
        lemma_child_open_upto(b, p, v, n - 1);
    }
}

/// A child of a board in range is in range, and so is every board to try
/// next.
pub proof fn lemma_child_in_range(b: Seq<CellView>, p: int, v: usize)
    requires
        board_in_range(b),
        0 <= p < 81,
        child_feasible(b, p, v),
    ensures
        board_in_range(child(b, p, v)),
        refines(child(b, p, v), b),
{
    assert(cell_in_range(b[p]));
    assert(all_values().contains(v));
    assert forall|q: int| 0 <= q < 81 implies cell_in_range(#[trigger] child(b, p, v)[q])
        && cell_refines(child(b, p, v)[q], b[q]) by {
        assert(cell_in_range(b[q]));
    }
}

/// A cell that is fixed already gives no board to try.
pub proof fn lemma_children_of_fixed(b: Seq<CellView>, p: int, v: int)
    requires
        !(b[p] is Open),
    ensures
        children_from(b, p, v) == Seq::<Seq<CellView>>::empty(),
    decreases 10 - v,
{
    if 1 <= v <= 9 {
        lemma_children_of_fixed(b, p, v + 1);
    }
}

/// How a search ends.
pub open spec fn solve_state(b: Seq<CellView>) -> StateView {
    match solve_spec(b) {
        Ok(x) => StateView::Finished(x),
        Err(e) => StateView::Failed(e),
    }
}

/// `x` is the board in which the cell at `p` is fixed to a value from `lo`
/// to 9 that it can be fixed to.
pub open spec fn is_child(x: Seq<CellView>, b: Seq<CellView>, p: int, lo: int) -> bool {
    exists|w: usize| lo <= w <= 9 && #[trigger] child_feasible(b, p, w) && x == child(b, p, w)
}

/// Each of the boards in which the cell at `p` is fixed is a child of the
/// board.
pub proof fn lemma_children_from(b: Seq<CellView>, p: int, v: int)
    requires
        1 <= v,
    ensures
        forall|k: int|
            0 <= k < children_from(b, p, v).len() ==> is_child(
                #[trigger] children_from(b, p, v)[k],
                b,
                p,
                v,
            ),
    decreases 10 - v,
{
    if v <= 9 {
        lemma_children_from(b, p, v + 1);
        let rest = children_from(b, p, v + 1);
        assert forall|k: int| 0 <= k < children_from(b, p, v).len() implies is_child(
            #[trigger] children_from(b, p, v)[k],
            b,
            p,
            v,
        ) by {
            if child_feasible(b, p, v as usize) {
                if k == 0 {
                    assert(children_from(b, p, v)[k] == child(b, p, v as usize));
                } else {
                    assert(children_from(b, p, v)[k] == rest[k - 1]);
                    assert(is_child(rest[k - 1], b, p, v + 1));
                    let w = choose|w: usize|
                        v + 1 <= w <= 9 && #[trigger] child_feasible(b, p, w) && rest[k - 1]
                            == child(b, p, w);
                    assert(v <= w <= 9 && child_feasible(b, p, w));
                }
            } else {
                assert(is_child(rest[k], b, p, v + 1));
                let w = choose|w: usize|
                    v + 1 <= w <= 9 && #[trigger] child_feasible(b, p, w) && rest[k] == child(
                        b,
                        p,
                        w,
                    );
                assert(v <= w <= 9 && child_feasible(b, p, w));
            }
        }
    }
}

/// Each board to try next is in range, refines the board, and has fewer
/// open cells.
pub proof fn lemma_possible_updates(b: Seq<CellView>)
    requires
        board_in_range(b),
    ensures
        forall|k: int|
            0 <= k < possible_updates_spec(b).len() ==> board_in_range(
                #[trigger] possible_updates_spec(b)[k],
            ) && refines(possible_updates_spec(b)[k], b) && open_count(possible_updates_spec(b)[k])
                < open_count(b),
{
    if !all_fixed(b) {
        let q = choose|q: int| 0 <= q < b.len() && !(#[trigger] b[q] is Fixed);
        assert(b[q] is Open);
        lemma_first_open_exists(b, 81);
        let p = first_open(b);
        lemma_children_from(b, p, 1);
        assert forall|k: int| 0 <= k < possible_updates_spec(b).len() implies board_in_range(
            #[trigger] possible_updates_spec(b)[k],
        ) && refines(possible_updates_spec(b)[k], b) && open_count(possible_updates_spec(b)[k])
            < open_count(b) by {
            assert(is_child(children_from(b, p, 1)[k], b, p, 1));
            let w = choose|w: usize|
                1 <= w <= 9 && #[trigger] child_feasible(b, p, w) && children_from(b, p, 1)[k]
                    == child(b, p, w);
            lemma_child_in_range(b, p, w);
            lemma_child_open_upto(b, p, w, 81);
        }
    }
}

/// A solved board: every cell is fixed, and no value is fixed twice in any
/// row, column or house.
pub open spec fn solved(s: Seq<CellView>) -> bool {
    &&& s.len() == 81
    &&& all_fixed(s)
    &&& stable_all(s)
}

/// No solved board refines `b`: the board has no solution.
pub open spec fn no_solution(b: Seq<CellView>) -> bool {
    forall|s: Seq<CellView>| #[trigger] refines(s, b) ==> !solved(s)
}

/// A group that two peers share.
pub open spec fn shared_group(p: int, q: int) -> int {
    if p / 9 == q / 9 {
        p / 9
    } else if p % 9 == q % 9 {
        9 + p % 9
    } else {
        18 + ((p / 9) / 3) * 3 + (p % 9) / 3
    }
}

/// Where a place stands within the group that it shares with a peer.
pub open spec fn place_in_shared(p: int, q: int) -> int {
    if p / 9 == q / 9 {
        p % 9
    } else if p % 9 == q % 9 {
        p / 9
    } else {
        ((p / 9) % 3) * 3 + (p % 9) % 3
    }
}

/// Two peers stand at different places of a group.
pub proof fn lemma_peers_share_group(p: int, q: int)
    requires
        0 <= p < 81,
        0 <= q < 81,
        peers(p, q),
    ensures
        0 <= shared_group(p, q) < 27,
        0 <= place_in_shared(p, q) < 9,
        0 <= place_in_shared(q, p) < 9,
        place_in_shared(p, q) != place_in_shared(q, p),
        group_cell(shared_group(p, q), place_in_shared(p, q)) == p,
        group_cell(shared_group(p, q), place_in_shared(q, p)) == q,
{
    let r1 = p / 9;
    let c1 = p % 9;
    let r2 = q / 9;
    let c2 = q % 9;
    assert(p == r1 * 9 + c1 && q == r2 * 9 + c2);
    if r1 == r2 {
    } else if c1 == c2 {
    } else {
        lemma_house_cell(r1, c1);
        lemma_house_cell(r2, c2);
        assert(r1 / 3 == r2 / 3 && c1 / 3 == c2 / 3);
        if place_in_shared(p, q) == place_in_shared(q, p) {
            assert(r1 % 3 == r2 % 3 && c1 % 3 == c2 % 3) by {
                lemma_house_place(r1 % 3, c1 % 3);
                lemma_house_place(r2 % 3, c2 % 3);
            }
        }
    }
}

/// The place of a cell within its house, taken apart again.
proof fn lemma_house_place(ri: int, ci: int)
    requires
        0 <= ri < 3,
        0 <= ci < 3,
    ensures
        0 <= ri * 3 + ci < 9,
        (ri * 3 + ci) / 3 == ri,
        (ri * 3 + ci) % 3 == ci,
{
}

/// A cell stands in its house where its row and its column say.
proof fn lemma_house_cell(r: int, c: int)
    requires
        0 <= r < 9,
        0 <= c < 9,
    ensures
        18 <= 18 + (r / 3) * 3 + c / 3 < 27,
        0 <= (r % 3) * 3 + c % 3 < 9,
        group_cell(18 + (r / 3) * 3 + c / 3, (r % 3) * 3 + c % 3) == r * 9 + c,
{
    let h = (r / 3) * 3 + c / 3;
    let i = (r % 3) * 3 + c % 3;
    lemma_house_place(r / 3, c / 3);
    lemma_house_place(r % 3, c % 3);
    assert(h / 3 == r / 3 && h % 3 == c / 3);
    assert(i / 3 == r % 3 && i % 3 == c % 3);
    assert((h / 3) * 3 + i / 3 == r);
    assert((h % 3) * 3 + i % 3 == c);
}

/// In a solved board two peers hold different values.
pub proof fn lemma_solved_peers_differ(s: Seq<CellView>, p: int, q: int)
    requires
        solved(s),
        0 <= p < 81,
        0 <= q < 81,
        peers(p, q),
    ensures
        s[p] != s[q],
{
    lemma_peers_share_group(p, q);
    let g = shared_group(p, q);
    let i = place_in_shared(p, q);
    let j = place_in_shared(q, p);
    let cells = group_cells(g);
    assert(stable_in(s, group_cells(g)));
    assert(cells[i] == p && cells[j] == q);
    assert(s[p] is Fixed && s[q] is Fixed);
    if s[p] == s[q] {
        if i < j {
            assert(s[cells[i]] is Fixed && s[cells[i]] == s[cells[j]]);
        } else {
            assert(s[cells[j]] is Fixed && s[cells[j]] == s[cells[i]]);
        }
        assert(has_duplicate(s, cells));
    }
}

/// A solution of a board is a solution of the child in which an open cell
/// is fixed to the value that the solution gives it, and that child is one
/// that the search tries.
pub proof fn lemma_solution_in_child(s: Seq<CellView>, b: Seq<CellView>, p: int)
    requires
        solved(s),
        refines(s, b),
        board_in_range(b),
        0 <= p < 81,
        b[p] is Open,
    ensures
        1 <= s[p]->Fixed_0 <= 9,
        child_feasible(b, p, s[p]->Fixed_0),
        refines(s, child(b, p, s[p]->Fixed_0)),
{
    let v = s[p]->Fixed_0;
    assert(s[p] is Fixed);
    assert(cell_refines(s[p], b[p]));
    assert(cell_in_range(b[p]));
    assert(all_values().contains(v));
    assert forall|q: int| 0 <= q < 81 && peers(p, q) implies peer_allows(#[trigger] b[q], v) by {
        lemma_solved_peers_differ(s, p, q);
        assert(s[q] is Fixed);
        assert(cell_refines(s[q], b[q]));
        match b[q] {
            CellView::Fixed(_) => {},
            CellView::Open(t) => {
                assert(t.remove(v).contains(s[q]->Fixed_0));
            },
        }
    }
    assert forall|q: int| 0 <= q < 81 implies cell_refines(
        #[trigger] s[q],
        child(b, p, v)[q],
    ) by {
        assert(cell_refines(s[q], b[q]));
        assert(s[q] is Fixed);
        if q != p && peers(p, q) {
            lemma_solved_peers_differ(s, p, q);
        }
    }
}

/// Every child that is feasible is among the boards that the search tries.
pub proof fn lemma_child_listed(b: Seq<CellView>, p: int, v: usize, lo: int)
    requires
        1 <= lo <= v <= 9,
        child_feasible(b, p, v),
    ensures
        exists|k: int|
            0 <= k < children_from(b, p, lo).len() && #[trigger] children_from(b, p, lo)[k]
                == child(b, p, v),
    decreases v - lo,
{
    if lo == v {
        assert(children_from(b, p, lo)[0] == child(b, p, v));
    } else {
        lemma_child_listed(b, p, v, lo + 1);
        let rest = children_from(b, p, lo + 1);
        let k = choose|k: int| 0 <= k < rest.len() && #[trigger] rest[k] == child(b, p, v);
        if child_feasible(b, p, lo as usize) {
            assert(children_from(b, p, lo)[k + 1] == rest[k]);
        } else {
            assert(children_from(b, p, lo)[k] == rest[k]);
        }
    }
}

/// The search is sound and complete. Where it ends well, its result is a
/// solved board that refines the board it was given; where it fails, the
/// board has no solution.
pub proof fn lemma_solve(b: Seq<CellView>)
    requires
        board_in_range(b),
    ensures
        match solve_spec(b) {
            Ok(s) => solved(s) && refines(s, b),
            Err(_) => no_solution(b),
        },
    decreases open_count(b), 1int, 0int,
{
    lemma_validate_greatest(b);
    match validate_spec(b) {
        Err(_) => {
            assert forall|s: Seq<CellView>| #[trigger] refines(s, b) implies !solved(s) by {}
        },
        Ok(b1) => {
            lemma_validate_refines(b);
            if !all_fixed(b1) {
                lemma_refines_open_count(b1, b);
                lemma_search(b1, 0, UpdateError::InitError);
                match search_spec(b1, 0, UpdateError::InitError) {
                    Ok(s) => {
                        lemma_refines_transitive(s, b1, b);
                    },
                    Err(_) => {
                        assert forall|s: Seq<CellView>| #[trigger] refines(s, b) implies !solved(
                            s,
                        ) by {
                            if solved(s) {
                                assert(refines(s, b1));
                                let q = choose|q: int|
                                    0 <= q < b1.len() && !(#[trigger] b1[q] is Fixed);
                                assert(b1[q] is Open);
                                lemma_first_open_exists(b1, 81);
                                let p = first_open(b1);
                                lemma_solution_in_child(s, b1, p);
                                let v = s[p]->Fixed_0;
                                lemma_child_listed(b1, p, v, 1);
                                let k = choose|k: int|
                                    0 <= k < children_from(b1, p, 1).len() && #[trigger] children_from(
                                        b1,
                                        p,
                                        1,
                                    )[k] == child(b1, p, v);
                                assert(no_solution(possible_updates_spec(b1)[k]));
                                assert(refines(s, possible_updates_spec(b1)[k]));
                            }
                        }
                    },
                }
            }
        },
    }
}

/// The search among the boards to try is sound and complete: where it ends
/// well, its result is a solution of the board; where it fails, none of
/// the boards from the `k`-th on has a solution.
pub proof fn lemma_search(b: Seq<CellView>, k: int, last: UpdateError)
    requires
        board_in_range(b),
        0 <= k,
    ensures
        match search_spec(b, k, last) {
            Ok(s) => solved(s) && refines(s, b),
            Err(_) => forall|i: int|
                k <= i < possible_updates_spec(b).len() ==> no_solution(
                    #[trigger] possible_updates_spec(b)[i],
                ),
        },
    decreases open_count(b), 0int, possible_updates_spec(b).len() - k,
{
    let kids = possible_updates_spec(b);
    if k < kids.len() {
        lemma_possible_updates(b);
        assert(board_in_range(kids[k]));
        lemma_solve(kids[k]);
        match solve_spec(kids[k]) {
            Ok(s) => {
                lemma_refines_transitive(s, kids[k], b);
            },
            Err(e) => {
                lemma_search(b, k + 1, e);
                match search_spec(b, k + 1, e) {
                    Ok(_) => {},
                    Err(_) => {
                        assert forall|i: int| k <= i < kids.len() implies no_solution(
                            #[trigger] possible_updates_spec(b)[i],
                        ) by {
                            if i == k {
                            }
                        }
                    },
                }
            },
        }
    }
}

/// A board on which elimination has nothing left to do, and in which a cell
/// is open, gives the search a board to try.
pub proof fn lemma_stable_board_branches(b: Seq<CellView>)
    requires
        board_in_range(b),
        stable_all(b),
        !all_fixed(b),
    ensures
        possible_updates_spec(b).len() > 0,
{
    let q0 = choose|q: int| 0 <= q < b.len() && !(#[trigger] b[q] is Fixed);
    assert(b[q0] is Open);
    lemma_first_open_exists(b, 81);
    let p = first_open(b);
    let s = b[p]->Open_0;
    assert(cell_in_range(b[p]));
    lemma_all_values();
    lemma_len_subset(s, all_values());
    // the cell's own row says that it has a candidate
    let row = p / 9;
    assert(stable_in(b, group_cells(row)));
    assert(group_cells(row)[p % 9] == p);
    assert(settled(b[group_cells(row)[p % 9]], values_in(b, group_cells(row))));
    lemma_set_empty_equivalency_len(s);
    let v = s.choose();
    assert(s.contains(v));
    assert(all_values().contains(v));
    assert forall|q: int| 0 <= q < 81 && peers(p, q) implies peer_allows(#[trigger] b[q], v) by {
        lemma_peers_share_group(p, q);
        let g = shared_group(p, q);
        let i = place_in_shared(p, q);
        let j = place_in_shared(q, p);
        let cells = group_cells(g);
        assert(stable_in(b, group_cells(g)));
        assert(cells[i] == p && cells[j] == q);
        assert(settled(b[cells[i]], values_in(b, cells)));
        assert(settled(b[cells[j]], values_in(b, cells)));
        match b[q] {
            CellView::Fixed(w) => {
                assert(b[cells[j]] == CellView::Fixed(w));
                assert(values_in(b, cells).contains(w));
            },
            CellView::Open(t) => {
                assert(cell_in_range(b[q]));
                lemma_len_subset(t, all_values());
                if t.remove(v).is_empty() {
                    if t.contains(v) {
                        assert(t.remove(v).len() == t.len() - 1);
                    } else {
                        assert(t.remove(v) =~= t);
                    }
                    lemma_set_empty_equivalency_len(t.remove(v));
                }
            },
        }
    }
    lemma_child_listed(b, p, v, 1);
}

/// The search fails with `InvalidConcrete` or `Impossible` only: the error
/// of elimination, on the board itself or on the last board that was tried.
pub proof fn lemma_solve_errors(b: Seq<CellView>)
    requires
        board_in_range(b),
    ensures
        solve_spec(b) matches Err(e) ==> e == UpdateError::InvalidConcrete || e
            == UpdateError::Impossible,
    decreases open_count(b), 1int, 0int,
{
    lemma_validate_greatest(b);
    match validate_spec(b) {
        Err(_) => {},
        Ok(b1) => {
            lemma_validate_refines(b);
            if !all_fixed(b1) {
                lemma_refines_open_count(b1, b);
                lemma_stable_board_branches(b1);
                lemma_search_errors(b1, 0, UpdateError::InitError);
            }
        },
    }
}

/// The search among the boards to try fails as the last of them did, with
/// `InvalidConcrete` or `Impossible`; with `last` if none was left to try.
pub proof fn lemma_search_errors(b: Seq<CellView>, k: int, last: UpdateError)
    requires
        board_in_range(b),
        0 <= k,
    ensures
        search_spec(b, k, last) matches Err(e) ==> if k < possible_updates_spec(b).len() {
            e == UpdateError::InvalidConcrete || e == UpdateError::Impossible
        } else {
            e == last
        },
    decreases open_count(b), 0int, possible_updates_spec(b).len() - k,
{
    let kids = possible_updates_spec(b);
    if k < kids.len() {
        lemma_possible_updates(b);
        assert(board_in_range(kids[k]));
        lemma_solve_errors(kids[k]);
        match solve_spec(kids[k]) {
            Ok(_) => {},
            Err(e) => {
                lemma_search_errors(b, k + 1, e);
            },
        }
    }
}

/// Determinism: boards that are the same as mathematical values are solved
/// to the same end.
pub proof fn lemma_solve_deterministic(a: Seq<CellView>, b: Seq<CellView>)
    requires
        a == b,
    ensures
        solve_state(a) == solve_state(b),
        validate_spec(a) == validate_spec(b),
        possible_updates_spec(a) == possible_updates_spec(b),
{
}

} // verus!
