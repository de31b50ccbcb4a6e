use sudoku_solver::{Board, BuildError, Cell, CellPos, CellVal, Index, PossibleCells};

fn cell_val(n: usize) -> CellVal {
    CellVal::build(n).unwrap()
}

fn index(n: usize) -> Index {
    Index::build(n).unwrap()
}

fn pos(row: usize, column: usize) -> CellPos {
    CellPos { row: index(row), column: index(column) }
}

fn fixed(n: usize) -> Cell {
    Cell::Concrete(cell_val(n))
}

fn open(vals: &[usize]) -> Cell {
    let mut set = PossibleCells::new();
    for &v in vals {
        set.insert(cell_val(v));
    }
    Cell::Possibilities(set)
}

fn any() -> Cell {
    Cell::default()
}

fn make_board(rows: Vec<Vec<Cell>>) -> Board {
    let mut board = Board::default();
    for (r, row) in rows.iter().enumerate().take(9) {
        for (c, cell) in row.iter().enumerate().take(9) {
            board.set_cell(pos(r, c), cell.clone());
        }
    }
    board
}

fn grid(text: &str) -> Vec<Vec<Option<u8>>> {
    let digits: Vec<Option<u8>> =
        text.bytes().map(|b| if b == b'0' { None } else { Some(b - b'0') }).collect();
    digits.chunks(9).map(|row| row.to_vec()).collect()
}

fn blank_grid() -> Vec<Vec<Option<u8>>> {
    vec![vec![None; 9]; 9]
}

const SOLVED: &str =
    "239478651865319247147652398658734129472195836913286475784963512396521784521847963";

#[test]
fn build_of_a_blank_grid_is_the_default_board() {
    assert_eq!(Board::build(blank_grid()), Ok(Board::default()));
}

#[test]
fn build_fixes_the_digits_and_leaves_the_blanks_open() {
    let mut lines = blank_grid();
    lines[0][0] = Some(5);
    lines[4][7] = Some(1);
    lines[8][8] = Some(9);
    let board = Board::build(lines).unwrap();
    assert_eq!(board.cell(pos(0, 0)), &fixed(5));
    assert_eq!(board.cell(pos(4, 7)), &fixed(1));
    assert_eq!(board.cell(pos(8, 8)), &fixed(9));
    assert_eq!(board.cell(pos(0, 1)), &any());
    assert_eq!(board.cell(pos(7, 4)), &any());
}

#[test]
fn build_refuses_a_wrong_number_of_rows() {
    assert_eq!(Board::build(vec![]), Err(BuildError::RowCount));
    assert_eq!(Board::build(vec![vec![None; 9]; 8]), Err(BuildError::RowCount));
    assert_eq!(Board::build(vec![vec![None; 9]; 10]), Err(BuildError::RowCount));
    assert_eq!(Board::build(vec![vec![Some(0); 3]; 10]), Err(BuildError::RowCount));
}

#[test]
fn build_refuses_a_row_of_the_wrong_length() {
    let mut lines = blank_grid();
    lines[3] = vec![None; 8];
    assert_eq!(Board::build(lines), Err(BuildError::CellCount(3)));
    let mut lines = blank_grid();
    lines[8] = vec![None; 10];
    assert_eq!(Board::build(lines), Err(BuildError::CellCount(8)));
    let mut lines = blank_grid();
    lines[0] = vec![];
    lines[5] = vec![];
    assert_eq!(Board::build(lines), Err(BuildError::CellCount(0)));
}

#[test]
fn build_refuses_a_digit_out_of_range() {
    let mut lines = blank_grid();
    lines[2][2] = Some(0);
    assert_eq!(Board::build(lines), Err(BuildError::InvalidCellVal));
    let mut lines = blank_grid();
    lines[8][8] = Some(10);
    assert_eq!(Board::build(lines), Err(BuildError::InvalidCellVal));
}

#[test]
fn build_reports_the_first_faulty_row() {
    let mut lines = blank_grid();
    lines[1][4] = Some(12);
    lines[2] = vec![None; 4];
    assert_eq!(Board::build(lines), Err(BuildError::InvalidCellVal));
    let mut lines = blank_grid();
    lines[1] = vec![None; 4];
    lines[2][4] = Some(12);
    assert_eq!(Board::build(lines), Err(BuildError::CellCount(1)));
    let mut lines = blank_grid();
    lines[1] = vec![Some(77); 4];
    assert_eq!(Board::build(lines), Err(BuildError::CellCount(1)));
}

#[test]
fn build_does_not_look_for_contradictions() {
    let mut lines = blank_grid();
    lines[0][0] = Some(5);
    lines[0][1] = Some(5);
    assert!(Board::build(lines).is_ok());
}

#[test]
fn to_grid_shows_fixed_cells_only() {
    let board = make_board(vec![vec![fixed(4), open(&[1, 2]), open(&[7]), any()]]);
    let shown = board.to_grid();
    assert_eq!(shown[0][0], Some(4));
    assert_eq!(shown[0][1], None);
    assert_eq!(shown[0][2], None);
    assert_eq!(shown[0][3], None);
    assert_eq!(shown[8][8], None);
}

#[test]
fn round_trip_of_a_full_grid() {
    let lines = grid(SOLVED);
    let shown = Board::build(lines.clone()).unwrap().to_grid();
    for r in 0..9 {
        for c in 0..9 {
            assert_eq!(shown[r][c], lines[r][c].map(|d| d as usize));
        }
    }
}

#[test]
fn round_trip_of_a_grid_with_blanks() {
    let lines =
        grid("000470050800300000100000090050000100000000806003200400004000000000001000020000000");
    let shown = Board::build(lines.clone()).unwrap().to_grid();
    for r in 0..9 {
        for c in 0..9 {
            assert_eq!(shown[r][c], lines[r][c].map(|d| d as usize));
        }
    }
    assert_eq!(shown[0][3], Some(4));
    assert_eq!(shown[0][0], None);
}

#[test]
fn is_finished_needs_every_cell_fixed() {
    assert!(Board::build(grid(SOLVED)).unwrap().is_finished());
    assert!(!Board::default().is_finished());
    let mut lines = grid(SOLVED);
    lines[8][8] = None;
    assert!(!Board::build(lines).unwrap().is_finished());
    let mut lines = grid(SOLVED);
    lines[0][0] = None;
    assert!(!Board::build(lines).unwrap().is_finished());
}

#[test]
fn update_cell_changes_a_copy() {
    let board = Board::default();
    let changed = board.update_cell(pos(2, 3), fixed(8));
    assert_eq!(changed.cell(pos(2, 3)), &fixed(8));
    assert_eq!(changed.cell(pos(3, 2)), &any());
    assert_eq!(board.cell(pos(2, 3)), &any());
    assert_eq!(board, Board::default());
}

#[test]
fn set_cell_changes_the_board_in_place() {
    let mut board = Board::default();
    board.set_cell(pos(8, 0), open(&[1, 2]));
    assert_eq!(board.cell(pos(8, 0)), &open(&[1, 2]));
    assert_eq!(board.cell(pos(0, 8)), &any());
}

#[test]
fn clone_of_a_board_is_equal() {
    let board = make_board(vec![vec![fixed(4), open(&[1, 2])]]);
    assert_eq!(board.clone(), board);
}

#[test]
fn weight_counts_what_is_undecided() {
    assert_eq!(Board::default().weight(), 810);
    assert_eq!(Board::build(grid(SOLVED)).unwrap().weight(), 0);
    let board = make_board(vec![vec![fixed(4), open(&[1, 2]), open(&[])]]);
    assert_eq!(board.weight(), 78 * 10 + 3 + 1);
}

#[test]
fn possible_updates_of_a_finished_board_are_none() {
    assert!(Board::build(grid(SOLVED)).unwrap().possible_updates().is_empty());
}

#[test]
fn possible_updates_branch_on_the_first_open_cell() {
    let mut lines = grid(SOLVED);
    lines[4][4] = None;
    lines[6][1] = None;
    let board = Board::build(lines).unwrap();
    let next = board.possible_updates();
    // Every value but 9 is fixed in a peer of the first open cell.
    assert_eq!(next.len(), 1);
    assert_eq!(next[0].cell(pos(4, 4)), &fixed(9));
    assert_eq!(next[0].cell(pos(6, 1)), &any());
    assert_eq!(next[0].cell(pos(4, 3)), &fixed(1));
}

#[test]
fn possible_updates_come_in_ascending_order_of_the_value() {
    let board = make_board(vec![vec![fixed(1), open(&[7, 2, 5])]]);
    let next = board.possible_updates();
    assert_eq!(next.len(), 3);
    assert_eq!(next[0].cell(pos(0, 1)), &fixed(2));
    assert_eq!(next[1].cell(pos(0, 1)), &fixed(5));
    assert_eq!(next[2].cell(pos(0, 1)), &fixed(7));
    assert_eq!(board.possible_updates(), next);
}

#[test]
fn possible_updates_strike_the_value_from_the_peers_only() {
    let board = make_board(vec![vec![open(&[2, 5])]]);
    let next = board.possible_updates();
    assert_eq!(next.len(), 2);
    let without_2 = open(&[1, 3, 4, 5, 6, 7, 8, 9]);
    let without_5 = open(&[1, 2, 3, 4, 6, 7, 8, 9]);
    for (child, value, less) in [(&next[0], 2, &without_2), (&next[1], 5, &without_5)] {
        assert_eq!(child.cell(pos(0, 0)), &fixed(value));
        // the row
        assert_eq!(child.cell(pos(0, 1)), less);
        assert_eq!(child.cell(pos(0, 8)), less);
        // the column
        assert_eq!(child.cell(pos(1, 0)), less);
        assert_eq!(child.cell(pos(8, 0)), less);
        // the house
        assert_eq!(child.cell(pos(1, 1)), less);
        assert_eq!(child.cell(pos(2, 2)), less);
        // the others
        assert_eq!(child.cell(pos(1, 3)), &any());
        assert_eq!(child.cell(pos(3, 1)), &any());
        assert_eq!(child.cell(pos(3, 3)), &any());
        assert_eq!(child.cell(pos(8, 8)), &any());
    }
}

#[test]
fn possible_updates_leave_out_what_a_peer_cannot_live_with() {
    // a peer in the row is fixed to 2: only 5 is tried
    let board = make_board(vec![vec![
        open(&[2, 5]),
        any(),
        any(),
        any(),
        fixed(2),
    ]]);
    let next = board.possible_updates();
    assert_eq!(next.len(), 1);
    assert_eq!(next[0].cell(pos(0, 0)), &fixed(5));

    // a peer in the house has 5 as its last candidate: only 2 is tried
    let board = make_board(vec![vec![open(&[2, 5])], vec![any(), any(), open(&[5])]]);
    let next = board.possible_updates();
    assert_eq!(next.len(), 1);
    assert_eq!(next[0].cell(pos(0, 0)), &fixed(2));
    assert_eq!(next[0].cell(pos(1, 2)), &open(&[5]));

    // both at once, the second in the column: nothing is tried
    let board = make_board(vec![
        vec![open(&[2, 5]), any(), any(), any(), fixed(2)],
        vec![],
        vec![],
        vec![],
        vec![open(&[5])],
    ]);
    assert!(board.possible_updates().is_empty());
}

#[test]
fn possible_updates_skip_fixed_cells() {
    let board = make_board(vec![vec![fixed(1), fixed(2), open(&[3, 4])]]);
    let next = board.possible_updates();
    assert_eq!(next.len(), 2);
    assert_eq!(next[0].cell(pos(0, 0)), &fixed(1));
    assert_eq!(next[0].cell(pos(0, 2)), &fixed(3));
    assert_eq!(next[1].cell(pos(0, 2)), &fixed(4));
    assert_eq!(next[0].cell(pos(0, 3)), &open(&[1, 2, 4, 5, 6, 7, 8, 9]));
}

#[test]
fn make_concrete_boards_of_a_fixed_cell_are_none() {
    let board = make_board(vec![vec![fixed(1), open(&[3, 4])]]);
    assert!(pos(0, 0).make_concrete_boards(&board).is_empty());
}

#[test]
fn make_concrete_boards_of_any_open_cell() {
    let board = make_board(vec![vec![fixed(1), open(&[3, 4]), open(&[4, 6])]]);
    let next = pos(0, 2).make_concrete_boards(&board);
    assert_eq!(next.len(), 2);
    assert_eq!(next[0].cell(pos(0, 2)), &fixed(4));
    assert_eq!(next[0].cell(pos(0, 1)), &open(&[3]));
    assert_eq!(next[1].cell(pos(0, 2)), &fixed(6));
    assert_eq!(next[1].cell(pos(0, 1)), &open(&[3, 4]));
    assert_eq!(next[1].cell(pos(0, 0)), &fixed(1));
}
