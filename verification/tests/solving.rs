use std::ops::ControlFlow;
use sudoku_solver::{
    solve, Board, BoardState, BuildError, Cell, CellPos, CellVal, Index, PossibleCells,
    SolveError, UpdateError,
};

fn cell_val(n: usize) -> CellVal {
    CellVal::build(n).unwrap()
}

fn index(n: usize) -> Index {
    Index::build(n).unwrap()
}

fn pos(row: usize, column: usize) -> CellPos {
    CellPos { row: index(row), column: index(column) }
}

fn fixed(n: usize) -> Cell {
    Cell::Concrete(cell_val(n))
}

fn open(vals: &[usize]) -> Cell {
    let mut set = PossibleCells::new();
    for &v in vals {
        set.insert(cell_val(v));
    }
    Cell::Possibilities(set)
}

fn any() -> Cell {
    Cell::default()
}

fn make_board(rows: Vec<Vec<Cell>>) -> Board {
    let mut board = Board::default();
    for (r, row) in rows.iter().enumerate().take(9) {
        for (c, cell) in row.iter().enumerate().take(9) {
            board.set_cell(pos(r, c), cell.clone());
        }
    }
    board
}

fn grid(text: &str) -> Vec<Vec<Option<u8>>> {
    let digits: Vec<Option<u8>> =
        text.bytes().map(|b| if b == b'0' { None } else { Some(b - b'0') }).collect();
    digits.chunks(9).map(|row| row.to_vec()).collect()
}

fn board(text: &str) -> Board {
    Board::build(grid(text)).unwrap()
}

fn shown(board: &Board) -> String {
    let mut text = String::new();
    for row in board.to_grid() {
        for entry in row {
            match entry {
                Some(d) => text.push_str(&format!("{}", d)),
                None => text.push('0'),
            }
        }
    }
    text
}

const SOLVED: &str =
    "239478651865319247147652398658734129472195836913286475784963512396521784521847963";

const SEVENTEEN: &str =
    "000470050800300000100000090050000100000000806003200400004000000000001000020000000";

#[test]
fn solve_returns_a_full_grid_unchanged() {
    let full = board(SOLVED);
    assert_eq!(full.clone().solve(), BoardState::Finished(full));
}

#[test]
fn solve_completes_a_puzzle_of_17_clues() {
    assert_eq!(SEVENTEEN.bytes().filter(|b| *b != b'0').count(), 17);
    match board(SEVENTEEN).solve() {
        BoardState::Finished(done) => assert_eq!(shown(&done), SOLVED),
        other => panic!("not finished: {:?}", other),
    }
}

#[test]
fn solve_refuses_a_row_with_a_digit_twice() {
    let mut lines = vec![vec![None; 9]; 9];
    lines[2][1] = Some(5);
    lines[2][7] = Some(5);
    assert_eq!(
        Board::build(lines).unwrap().solve(),
        BoardState::Failed(UpdateError::InvalidConcrete)
    );
}

#[test]
fn validate_fills_the_last_blank() {
    let mut lines = grid(SOLVED);
    lines[4][4] = None;
    assert_eq!(Board::build(lines).unwrap().validate(), BoardState::Finished(board(SOLVED)));
}

#[test]
fn validate_fills_blanks_that_force_each_other() {
    let mut lines = grid(SOLVED);
    lines[4][4] = None;
    lines[4][0] = None;
    lines[0][0] = None;
    lines[8][8] = None;
    assert_eq!(Board::build(lines).unwrap().validate(), BoardState::Finished(board(SOLVED)));
}

#[test]
fn validate_of_a_finished_board_changes_nothing() {
    let full = board(SOLVED);
    assert_eq!(full.clone().validate(), BoardState::Finished(full));
}

#[test]
fn validate_stops_where_elimination_has_nothing_left_to_do() {
    match board(SEVENTEEN).validate() {
        BoardState::Valid(after) => {
            assert_eq!(after.cell(pos(5, 7)), &fixed(7));
            assert_eq!(after.cell(pos(0, 0)), &open(&[2, 3, 6, 9]));
            assert_eq!(after.cell(pos(0, 1)), &open(&[3, 6, 9]));
            assert_eq!(after.cell(pos(5, 0)), &open(&[6, 9]));
            assert_eq!(after.cell(pos(8, 8)), &open(&[1, 3, 4, 5, 7, 8, 9]));
            assert_eq!(
                shown(&after),
                "000470050800300000100000090050000100000000806003200470004000000000001000020000000"
            );
        },
        other => panic!("not valid: {:?}", other),
    }
}

#[test]
fn validate_is_idempotent() {
    let once = board(SEVENTEEN).validate();
    match &once {
        BoardState::Valid(after) => assert_eq!(after.clone().validate(), once),
        other => panic!("not valid: {:?}", other),
    }
    let blank = Board::default();
    assert_eq!(blank.clone().validate(), BoardState::Valid(blank));
}

#[test]
fn validate_refuses_a_value_twice_in_a_group() {
    let mut row = vec![vec![None; 9]; 9];
    row[6][0] = Some(3);
    row[6][8] = Some(3);
    assert_eq!(
        Board::build(row).unwrap().validate(),
        BoardState::Failed(UpdateError::InvalidConcrete)
    );
    let mut column = vec![vec![None; 9]; 9];
    column[0][3] = Some(7);
    column[5][3] = Some(7);
    assert_eq!(
        Board::build(column).unwrap().validate(),
        BoardState::Failed(UpdateError::InvalidConcrete)
    );
    let mut house = vec![vec![None; 9]; 9];
    house[0][0] = Some(7);
    house[1][1] = Some(7);
    assert_eq!(
        Board::build(house).unwrap().validate(),
        BoardState::Failed(UpdateError::InvalidConcrete)
    );
}

#[test]
fn validate_refuses_a_cell_left_without_a_candidate() {
    // The last two cells of the first row can only be 8 or 9, and the
    // column of the first of them holds both.
    let mut lines = vec![vec![None; 9]; 9];
    for c in 0..7 {
        lines[0][c] = Some(c as u8 + 1);
    }
    lines[3][7] = Some(8);
    lines[6][7] = Some(9);
    assert_eq!(
        Board::build(lines.clone()).unwrap().validate(),
        BoardState::Failed(UpdateError::Impossible)
    );
    assert_eq!(
        Board::build(lines).unwrap().solve(),
        BoardState::Failed(UpdateError::Impossible)
    );

    let by_hand = make_board(vec![vec![
        fixed(1),
        fixed(2),
        fixed(3),
        fixed(4),
        fixed(5),
        fixed(6),
        fixed(7),
        fixed(8),
        open(&[1, 2]),
    ]]);
    assert_eq!(by_hand.validate(), BoardState::Failed(UpdateError::Impossible));
}

#[test]
fn validate_meets_a_forced_value_that_is_fixed_elsewhere() {
    // The last cell of the first row must be 9, which its column holds.
    let mut lines = vec![vec![None; 9]; 9];
    for c in 0..8 {
        lines[0][c] = Some(c as u8 + 1);
    }
    lines[4][8] = Some(9);
    assert_eq!(
        Board::build(lines).unwrap().validate(),
        BoardState::Failed(UpdateError::InvalidConcrete)
    );
}

#[test]
fn validate_cell_lists_sweeps_one_family() {
    let mut lines = vec![vec![None; 9]; 9];
    lines[0][0] = Some(1);
    let start = Board::build(lines).unwrap();
    let rows = start.validate_cell_lists(sudoku_solver::Group::Row).unwrap();
    let less = open(&[2, 3, 4, 5, 6, 7, 8, 9]);
    assert_eq!(rows.cell(pos(0, 5)), &less);
    assert_eq!(rows.cell(pos(5, 0)), &any());
    assert_eq!(rows.cell(pos(1, 1)), &any());
    let columns = rows.validate_cell_lists(sudoku_solver::Group::Column).unwrap();
    assert_eq!(columns.cell(pos(5, 0)), &less);
    assert_eq!(columns.cell(pos(1, 1)), &any());
    let houses = columns.validate_cell_lists(sudoku_solver::Group::House).unwrap();
    assert_eq!(houses.cell(pos(1, 1)), &less);
    assert_eq!(houses.cell(pos(3, 3)), &any());
}

#[test]
fn solve_is_deterministic() {
    let first = Board::default().solve();
    let second = Board::default().solve();
    assert_eq!(first, second);
    match first {
        BoardState::Finished(done) => assert_eq!(
            shown(&done),
            "123456789456789123789123456214365897365897214897214365531642978642978531978531642"
        ),
        other => panic!("not finished: {:?}", other),
    }
    assert_eq!(board(SEVENTEEN).solve(), board(SEVENTEEN).solve());
}

#[test]
fn solve_result_keeps_the_clues() {
    match board(SEVENTEEN).solve() {
        BoardState::Finished(done) => {
            assert!(done.is_finished());
            let clues = grid(SEVENTEEN);
            let result = done.to_grid();
            for r in 0..9 {
                for c in 0..9 {
                    if let Some(d) = clues[r][c] {
                        assert_eq!(result[r][c], Some(d as usize));
                    }
                }
            }
        },
        other => panic!("not finished: {:?}", other),
    }
}

#[test]
fn solve_fails_as_its_last_branch_did() {
    assert_eq!(
        board("030000401805309000147650098058004009002000006010000000000903000306001000021000960")
            .solve(),
        BoardState::Failed(UpdateError::Impossible)
    );
    assert_eq!(
        board("030070650005009240040050390000034029002000800901000000704000010006000080500000000")
            .solve(),
        BoardState::Failed(UpdateError::InvalidConcrete)
    );
}

#[test]
fn state_ok_gives_the_board_of_a_good_state() {
    let full = board(SOLVED);
    assert_eq!(BoardState::Finished(full.clone()).ok(), Some(full.clone()));
    assert_eq!(BoardState::Valid(full.clone()).ok(), Some(full.clone()));
    assert_eq!(BoardState::PartiallyValid(full.clone()).ok(), None);
    assert_eq!(BoardState::Failed(UpdateError::Incomplete).ok(), None);
    assert_eq!(BoardState::Valid(full.clone()).clone(), BoardState::Valid(full));
}

#[test]
fn state_and_then_carries_on_where_work_is_left() {
    let full = board(SOLVED);
    let blank = Board::default();
    let finish = |_: &Board| BoardState::Finished(board(SOLVED));
    assert_eq!(BoardState::Valid(blank.clone()).and_then(finish), BoardState::Finished(full.clone()));
    assert_eq!(
        BoardState::PartiallyValid(blank.clone()).and_then(|b| BoardState::Valid(b.clone())),
        BoardState::Valid(blank.clone())
    );
    assert_eq!(
        BoardState::Finished(blank.clone()).and_then(finish),
        BoardState::Finished(blank.clone())
    );
    assert_eq!(
        BoardState::Failed(UpdateError::Impossible).and_then(finish),
        BoardState::Failed(UpdateError::Impossible)
    );
}

#[test]
fn state_to_control_flow_and_back() {
    let full = board(SOLVED);
    let blank = Board::default();
    type Flow = ControlFlow<Board, Result<Board, UpdateError>>;
    assert_eq!(Flow::from(BoardState::Finished(full.clone())), ControlFlow::Break(full.clone()));
    assert_eq!(Flow::from(BoardState::Valid(blank.clone())), ControlFlow::Break(blank.clone()));
    assert_eq!(
        Flow::from(BoardState::PartiallyValid(blank.clone())),
        ControlFlow::Continue(Ok(blank.clone()))
    );
    assert_eq!(
        Flow::from(BoardState::Failed(UpdateError::InitError)),
        ControlFlow::Continue(Err(UpdateError::InitError))
    );
    let broke: Flow = ControlFlow::Break(full.clone());
    assert_eq!(BoardState::from(broke), BoardState::Finished(full));
    let kept: Flow = ControlFlow::Continue(Ok(blank.clone()));
    assert_eq!(BoardState::from(kept), BoardState::Valid(blank));
    let failed: Flow = ControlFlow::Continue(Err(UpdateError::Impossible));
    assert_eq!(BoardState::from(failed), BoardState::Failed(UpdateError::Impossible));
}

#[test]
fn solve_of_a_grid_gives_the_solved_grid() {
    let solved = solve(grid(SEVENTEEN)).unwrap();
    let expected = grid(SOLVED);
    for r in 0..9 {
        for c in 0..9 {
            assert_eq!(solved[r][c], expected[r][c].map(|d| d as usize));
        }
    }
}

#[test]
fn solve_of_a_grid_names_what_went_wrong() {
    assert_eq!(solve(vec![]), Err(SolveError::Build(BuildError::RowCount)));
    let mut short = vec![vec![None; 9]; 9];
    short[7] = vec![None; 2];
    assert_eq!(solve(short), Err(SolveError::Build(BuildError::CellCount(7))));
    let mut digit = vec![vec![None; 9]; 9];
    digit[7][7] = Some(11);
    assert_eq!(solve(digit), Err(SolveError::Build(BuildError::InvalidCellVal)));
    let mut twice = vec![vec![None; 9]; 9];
    twice[2][1] = Some(5);
    twice[2][7] = Some(5);
    assert_eq!(solve(twice), Err(SolveError::Update(UpdateError::InvalidConcrete)));
    assert_eq!(
        solve(grid(
            "030000401805309000147650098058004009002000006010000000000903000306001000021000960"
        )),
        Err(SolveError::Update(UpdateError::Impossible))
    );
}

#[test]
fn validate_reports_what_it_meets_first() {
    // The first row is impossible and the second has a value twice: the
    // rows are swept top to bottom.
    let rows = vec![
        vec![
            fixed(1),
            fixed(2),
            fixed(3),
            fixed(4),
            fixed(5),
            fixed(6),
            fixed(7),
            fixed(8),
            open(&[1, 2]),
        ],
        vec![fixed(5), any(), any(), any(), any(), any(), any(), any(), fixed(5)],
    ];
    assert_eq!(make_board(rows).validate(), BoardState::Failed(UpdateError::Impossible));

    let rows = vec![
        vec![fixed(5), any(), any(), any(), any(), any(), any(), any(), fixed(5)],
        vec![
            fixed(1),
            fixed(2),
            fixed(3),
            fixed(4),
            fixed(5),
            fixed(6),
            fixed(7),
            fixed(8),
            open(&[1, 2]),
        ],
    ];
    assert_eq!(make_board(rows).validate(), BoardState::Failed(UpdateError::InvalidConcrete));
}
