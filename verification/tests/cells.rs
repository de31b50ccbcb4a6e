use sudoku_solver::{Cell, CellPos, CellVal, Group, Index, PossibleCells, UpdateError};

fn cell_val(n: usize) -> CellVal {
    CellVal::build(n).unwrap()
}

fn index(n: usize) -> Index {
    Index::build(n).unwrap()
}

fn pos(row: usize, column: usize) -> CellPos {
    CellPos { row: index(row), column: index(column) }
}

fn set_of(vals: &[usize]) -> PossibleCells {
    let mut set = PossibleCells::new();
    for &v in vals {
        set.insert(cell_val(v));
    }
    set
}

fn fixed(n: usize) -> Cell {
    Cell::Concrete(cell_val(n))
}

fn open(vals: &[usize]) -> Cell {
    Cell::Possibilities(set_of(vals))
}

fn inners(vals: &[CellVal]) -> Vec<usize> {
    vals.iter().map(|v| v.inner()).collect()
}

#[test]
fn make_concrete_throws_error_for_different_val() {
    let cell = fixed(1);
    assert_eq!(cell.make_concrete_cell(cell_val(3)), Err(UpdateError::InvalidConcrete));
}

#[test]
fn make_concrete_keeps_same_val() {
    let cell = fixed(1);
    assert_eq!(cell.make_concrete_cell(cell_val(1)), Ok(fixed(1)));
}

#[test]
fn make_concrete_makes_concrete() {
    let cell = open(&[3, 4, 8]);
    assert_eq!(cell.make_concrete_cell(cell_val(3)), Ok(fixed(3)));
}

#[test]
fn make_concrete_fails_if_not_possible() {
    let cell = open(&[1, 5, 8, 9]);
    assert_eq!(cell.make_concrete_cell(cell_val(3)), Err(UpdateError::InvalidConcrete));
}

#[test]
fn remove_possibility_does_nothing_for_concrete() {
    let cell = fixed(6);
    assert_eq!(cell.remove_possibility(cell_val(6)), fixed(6));
    assert_eq!(cell.remove_possibility(cell_val(8)), fixed(6));
}

#[test]
fn remove_possibility_removes_possibility() {
    let cell = open(&[5, 7]);
    assert_eq!(cell.remove_possibility(cell_val(5)), open(&[7]));
}

#[test]
fn remove_possibilities_does_nothing_if_not_needed() {
    let cell = open(&[5, 7]);
    assert_eq!(cell.remove_possibility(cell_val(2)), open(&[5, 7]));
}

#[test]
fn possible_is_concrete_gets_correct_val() {
    let cell = open(&[1]);
    assert_eq!(cell.possible_is_concrete(), Some(cell_val(1)))
}

#[test]
fn possible_is_concrete_returns_none_for_concrete() {
    let cell = fixed(3);
    assert_eq!(cell.possible_is_concrete(), None);
}

#[test]
fn possible_is_concrete_returns_none_for_more_then_one() {
    let cell = open(&[3, 5]);
    assert_eq!(cell.possible_is_concrete(), None)
}

#[test]
fn cell_house_cell_at_works() {
    assert_eq!(Group::House.cell_at(index(3), index(5)), pos(4, 2))
}

#[test]
fn possible_is_concrete_returns_none_for_empty() {
    assert_eq!(open(&[]).possible_is_concrete(), None);
}

#[test]
fn possible_is_concrete_finds_the_largest_value() {
    assert_eq!(open(&[9]).possible_is_concrete(), Some(cell_val(9)));
}

#[test]
fn remove_possibility_can_leave_nothing() {
    assert_eq!(open(&[4]).remove_possibility(cell_val(4)), open(&[]));
}

#[test]
fn remove_possibilities_strikes_all_given_values() {
    let cell = open(&[1, 2, 3, 4, 5]);
    assert_eq!(cell.remove_possibilities(&set_of(&[2, 4, 9])), Ok(open(&[1, 3, 5])));
}

#[test]
fn remove_possibilities_keeps_a_concrete_cell() {
    assert_eq!(fixed(7).remove_possibilities(&set_of(&[7, 8])), Ok(fixed(7)));
}

#[test]
fn remove_possibilities_fails_when_nothing_is_left() {
    let cell = open(&[2, 4]);
    assert_eq!(cell.remove_possibilities(&set_of(&[1, 2, 4])), Err(UpdateError::Impossible));
}

#[test]
fn remove_possibilities_fails_on_an_empty_set() {
    assert_eq!(open(&[]).remove_possibilities(&set_of(&[])), Err(UpdateError::Impossible));
    assert_eq!(open(&[]).remove_possibilities(&set_of(&[3])), Err(UpdateError::Impossible));
}

#[test]
fn remove_possibilities_with_nothing_to_strike_changes_nothing() {
    assert_eq!(open(&[6, 8]).remove_possibilities(&set_of(&[])), Ok(open(&[6, 8])));
}

#[test]
fn default_cell_has_all_nine_values() {
    assert_eq!(Cell::default(), open(&[1, 2, 3, 4, 5, 6, 7, 8, 9]));
}

#[test]
fn new_cell_from_an_entry() {
    assert_eq!(Cell::new(None), Ok(Cell::default()));
    assert_eq!(Cell::new(Some(1)), Ok(fixed(1)));
    assert_eq!(Cell::new(Some(9)), Ok(fixed(9)));
    assert_eq!(Cell::new(Some(0)), Err(UpdateError::InvalidCellVal));
    assert_eq!(Cell::new(Some(10)), Err(UpdateError::InvalidCellVal));
    assert_eq!(Cell::new(Some(255)), Err(UpdateError::InvalidCellVal));
}

#[test]
fn cell_clone_is_equal() {
    assert_eq!(open(&[2, 3]).clone(), open(&[2, 3]));
    assert_eq!(fixed(4).clone(), fixed(4));
}

#[test]
fn cell_val_build_accepts_one_to_nine() {
    assert_eq!(CellVal::build(0), Err(UpdateError::InvalidCellVal));
    assert_eq!(CellVal::build(10), Err(UpdateError::InvalidCellVal));
    assert_eq!(CellVal::build(usize::MAX), Err(UpdateError::InvalidCellVal));
    for n in 1..=9 {
        assert_eq!(CellVal::build(n).unwrap().inner(), n);
    }
}

#[test]
fn cell_vals_are_one_to_nine_ascending() {
    assert_eq!(inners(&CellVal::cell_vals()), vec![1, 2, 3, 4, 5, 6, 7, 8, 9]);
    assert_eq!(inners(&CellVal::cell_vals()), inners(&CellVal::cell_vals()));
}

#[test]
fn index_build_accepts_zero_to_eight() {
    assert_eq!(Index::build(9), Err(UpdateError::InvalidIndex));
    assert_eq!(Index::build(usize::MAX), Err(UpdateError::InvalidIndex));
    for n in 0..9 {
        assert_eq!(Index::build(n).unwrap().inner(), n);
    }
}

#[test]
fn indexes_are_zero_to_eight_ascending() {
    let all: Vec<usize> = Index::indexes().iter().map(|i| i.inner()).collect();
    assert_eq!(all, vec![0, 1, 2, 3, 4, 5, 6, 7, 8]);
}

#[test]
fn cell_pos_new_checks_both_coordinates() {
    assert_eq!(CellPos::new(8, 0), Ok(pos(8, 0)));
    assert_eq!(CellPos::new(0, 8), Ok(pos(0, 8)));
    assert_eq!(CellPos::new(9, 0), Err(UpdateError::InvalidIndex));
    assert_eq!(CellPos::new(0, 9), Err(UpdateError::InvalidIndex));
    assert_eq!(CellPos::new(9, 9), Err(UpdateError::InvalidIndex));
}

#[test]
fn cell_pos_index_counts_row_by_row() {
    assert_eq!(pos(0, 0).index(), 0);
    assert_eq!(pos(0, 8).index(), 8);
    assert_eq!(pos(1, 0).index(), 9);
    assert_eq!(pos(4, 2).index(), 38);
    assert_eq!(pos(8, 8).index(), 80);
}

#[test]
fn all_cell_pos_lists_the_board_row_by_row() {
    let all = CellPos::all_cell_pos();
    assert_eq!(all.len(), 81);
    assert_eq!(all[0], pos(0, 0));
    assert_eq!(all[10], pos(1, 1));
    assert_eq!(all[80], pos(8, 8));
    for (n, p) in all.iter().enumerate() {
        assert_eq!(p.index(), n);
    }
}

#[test]
fn peers_share_a_row_a_column_or_a_house() {
    let at = pos(4, 4);
    assert!(at.is_peer(&pos(4, 0)));
    assert!(at.is_peer(&pos(0, 4)));
    assert!(at.is_peer(&pos(3, 5)));
    assert!(at.is_peer(&pos(5, 3)));
    assert!(!at.is_peer(&pos(4, 4)));
    assert!(!at.is_peer(&pos(2, 5)));
    assert!(!at.is_peer(&pos(5, 6)));
    assert!(!at.is_peer(&pos(0, 0)));
}

#[test]
fn group_cells_of_each_family() {
    assert_eq!(Group::Row.cell_at(index(2), index(7)), pos(2, 7));
    assert_eq!(Group::Column.cell_at(index(2), index(7)), pos(7, 2));
    assert_eq!(Group::House.cell_at(index(4), index(0)), pos(3, 3));
    assert_eq!(Group::House.cell_at(index(4), index(4)), pos(4, 4));
    assert_eq!(Group::House.cell_at(index(8), index(8)), pos(8, 8));
    assert_eq!(Group::House.cell_at(index(2), index(3)), pos(1, 6));
    let house: Vec<CellPos> = Group::House.to_set(index(5));
    assert_eq!(
        house,
        vec![
            pos(3, 6),
            pos(3, 7),
            pos(3, 8),
            pos(4, 6),
            pos(4, 7),
            pos(4, 8),
            pos(5, 6),
            pos(5, 7),
            pos(5, 8)
        ]
    );
    let column: Vec<CellPos> = Group::Column.to_set(index(3));
    assert_eq!(column, (0..9).map(|r| pos(r, 3)).collect::<Vec<_>>());
}

#[test]
fn new_set_is_empty() {
    let set = PossibleCells::new();
    assert!(set.is_empty());
    assert_eq!(set.len(), 0);
    assert!(!set.contains(cell_val(1)));
    assert!(set.values().is_empty());
}

#[test]
fn full_set_holds_all_nine_values() {
    let set = PossibleCells::all();
    assert!(!set.is_empty());
    assert_eq!(set.len(), 9);
    assert_eq!(inners(&set.values()), vec![1, 2, 3, 4, 5, 6, 7, 8, 9]);
}

#[test]
fn insert_adds_a_value_once() {
    let mut set = PossibleCells::new();
    set.insert(cell_val(4));
    assert!(set.contains(cell_val(4)));
    assert!(!set.contains(cell_val(5)));
    assert_eq!(set.len(), 1);
    assert!(!set.is_empty());
    set.insert(cell_val(4));
    assert_eq!(set.len(), 1);
    set.insert(cell_val(2));
    assert_eq!(inners(&set.values()), vec![2, 4]);
}

#[test]
fn without_removes_one_value_and_leaves_the_set() {
    let set = set_of(&[3, 6, 9]);
    let less = set.without(cell_val(6));
    assert_eq!(inners(&less.values()), vec![3, 9]);
    assert_eq!(inners(&set.values()), vec![3, 6, 9]);
    assert_eq!(set.without(cell_val(1)), set);
}

#[test]
fn relative_complement_keeps_what_the_other_lacks() {
    let a = set_of(&[1, 2, 3, 4]);
    let b = set_of(&[2, 4, 6]);
    assert_eq!(inners(&a.relative_complement(&b).values()), vec![1, 3]);
    assert_eq!(inners(&b.relative_complement(&a).values()), vec![6]);
    assert!(a.relative_complement(&a).is_empty());
}

#[test]
fn intersection_keeps_what_both_hold() {
    let a = set_of(&[1, 2, 3, 4]);
    let b = set_of(&[2, 4, 6]);
    assert_eq!(inners(&a.intersection(&b).values()), vec![2, 4]);
    assert!(a.intersection(&set_of(&[7, 8])).is_empty());
}

#[test]
fn sole_is_the_member_of_a_singleton() {
    assert_eq!(set_of(&[7]).sole(), Some(cell_val(7)));
    assert_eq!(set_of(&[]).sole(), None);
    assert_eq!(set_of(&[7, 8]).sole(), None);
}

#[test]
fn clone_of_a_set_holds_the_same_values() {
    let set = set_of(&[1, 5, 9]);
    let copy = set.clone();
    assert_eq!(copy, set);
    assert_eq!(inners(&copy.values()), vec![1, 5, 9]);
}
