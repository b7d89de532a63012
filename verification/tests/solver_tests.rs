use sudoku::board::Board;
use sudoku::board::Entry;
use sudoku::wave_function_solver::can_entry_have_value;
use sudoku::wave_function_solver::collapse_options;
use sudoku::wave_function_solver::guess_target;
use sudoku::wave_function_solver::option_count;
use sudoku::wave_function_solver::solve;

const FULL: [[usize; 9]; 9] = [
    [1, 2, 3, 4, 5, 6, 7, 8, 9],
    [4, 5, 6, 7, 8, 9, 1, 2, 3],
    [7, 8, 9, 1, 2, 3, 4, 5, 6],
    [2, 3, 4, 5, 6, 7, 8, 9, 1],
    [5, 6, 7, 8, 9, 1, 2, 3, 4],
    [8, 9, 1, 2, 3, 4, 5, 6, 7],
    [3, 4, 5, 6, 7, 8, 9, 1, 2],
    [6, 7, 8, 9, 1, 2, 3, 4, 5],
    [9, 1, 2, 3, 4, 5, 6, 7, 8],
];

const VERY_EASY: [[usize; 9]; 9] = [
    [9, 2, 0, 0, 4, 1, 0, 5, 0],
    [1, 0, 0, 7, 0, 5, 0, 6, 3],
    [7, 0, 3, 8, 9, 0, 2, 0, 0],
    [0, 0, 0, 1, 6, 3, 8, 0, 0],
    [0, 0, 0, 0, 0, 0, 5, 4, 7],
    [2, 9, 8, 0, 0, 0, 0, 0, 1],
    [5, 4, 0, 0, 3, 7, 0, 8, 9],
    [0, 6, 0, 9, 0, 0, 4, 2, 0],
    [0, 1, 0, 0, 5, 2, 0, 7, 0],
];

const VERY_EASY_SOLVED: [[usize; 9]; 9] = [
    [9, 2, 6, 3, 4, 1, 7, 5, 8],
    [1, 8, 4, 7, 2, 5, 9, 6, 3],
    [7, 5, 3, 8, 9, 6, 2, 1, 4],
    [4, 7, 5, 1, 6, 3, 8, 9, 2],
    [6, 3, 1, 2, 8, 9, 5, 4, 7],
    [2, 9, 8, 5, 7, 4, 6, 3, 1],
    [5, 4, 2, 6, 3, 7, 1, 8, 9],
    [3, 6, 7, 9, 1, 8, 4, 2, 5],
    [8, 1, 9, 4, 5, 2, 3, 7, 6],
];

/// In row 6 the digit 5 is missing, and each of its blank cells shares a box
/// or a column with a 5.
const NO_COMPLETION: [[usize; 9]; 9] = [
    [0, 0, 0, 4, 0, 5, 0, 0, 0],
    [0, 0, 9, 0, 6, 0, 0, 8, 0],
    [5, 0, 0, 0, 0, 8, 0, 7, 4],
    [0, 0, 0, 3, 9, 6, 2, 0, 0],
    [0, 3, 2, 1, 0, 7, 4, 0, 6],
    [1, 0, 6, 0, 8, 4, 0, 0, 0],
    [0, 8, 0, 0, 7, 2, 6, 3, 1],
    [0, 5, 7, 0, 3, 0, 0, 4, 0],
    [6, 0, 3, 5, 4, 0, 0, 2, 0],
];

fn values(board: &Board) -> [[usize; 9]; 9] {
    let mut array = [[0; 9]; 9];
    for row in 0..9 {
        for col in 0..9 {
            array[row][col] = board.entries[row * 9 + col].value;
        }
    }
    array
}

fn digits(entry: &Entry) -> Vec<usize> {
    (1..=9).filter(|digit| entry.options[digit - 1]).collect()
}

#[test]
fn simple_solver() {
    let near_complete_array = [
        [1, 2, 3, 4, 5, 6, 7, 8, 9],
        [4, 5, 6, 7, 8, 9, 1, 2, 3],
        [7, 8, 9, 1, 2, 3, 4, 5, 6],
        [2, 3, 4, 5, 6, 7, 8, 9, 1],
        [5, 6, 0, 8, 9, 1, 2, 3, 4],
        [8, 9, 1, 2, 3, 4, 5, 6, 7],
        [3, 4, 5, 6, 7, 8, 9, 1, 2],
        [6, 7, 8, 9, 1, 2, 3, 4, 5],
        [9, 1, 2, 3, 4, 5, 6, 7, 8],
    ];

    let mut test_board = Board::new_from_array(&near_complete_array);

    assert_eq!(true, test_board.is_valid());
    assert_eq!(false, test_board.is_solved());

    assert_eq!(true, solve(&mut test_board));
    assert_eq!(true, test_board.is_valid());
    assert_eq!(true, test_board.is_solved());
}

#[test]
fn solve_a_few_missing() {
    let test_array = [
        [0, 2, 3, 4, 5, 0, 7, 8, 9],
        [4, 5, 0, 7, 8, 9, 1, 2, 3],
        [7, 8, 9, 1, 2, 3, 4, 5, 6],
        [2, 3, 4, 5, 6, 7, 8, 9, 1],
        [5, 6, 7, 8, 9, 1, 2, 3, 4],
        [8, 9, 1, 2, 3, 4, 5, 6, 7],
        [3, 4, 5, 6, 7, 8, 9, 1, 2],
        [0, 7, 8, 9, 1, 0, 3, 4, 5],
        [9, 1, 2, 3, 4, 5, 6, 7, 8],
    ];

    let mut test_board = Board::new_from_array(&test_array);

    assert_eq!(true, test_board.is_valid());
    assert_eq!(false, test_board.is_solved());

    assert_eq!(true, solve(&mut test_board));
    assert_eq!(true, test_board.is_valid());
    assert_eq!(true, test_board.is_solved());
}

#[test]
fn very_easy_solve() {
    let test_array = [
        [9, 2, 0, 0, 4, 1, 0, 5, 0],
        [1, 0, 0, 7, 0, 5, 0, 6, 3],
        [7, 0, 3, 8, 9, 0, 2, 0, 0],
        [0, 0, 0, 1, 6, 3, 8, 0, 0],
        [0, 0, 0, 0, 0, 0, 5, 4, 7],
        [2, 9, 8, 0, 0, 0, 0, 0, 1],
        [5, 4, 0, 0, 3, 7, 0, 8, 9],
        [0, 6, 0, 9, 0, 0, 4, 2, 0],
        [0, 1, 0, 0, 5, 2, 0, 7, 0],
    ];

    let mut test_board = Board::new_from_array(&test_array);

    assert_eq!(true, test_board.is_valid());
    assert_eq!(false, test_board.is_solved());

    assert_eq!(true, solve(&mut test_board));
    assert_eq!(true, test_board.is_valid());
    assert_eq!(true, test_board.is_solved());
}

#[test]
fn the_one_blank_is_filled_with_seven() {
    let mut array = FULL;
    array[4][2] = 0;
    let mut board = Board::new_from_array(&array);
    assert_eq!(true, board.is_valid());
    assert_eq!(false, board.is_solved());

    assert_eq!(true, solve(&mut board));
    assert_eq!(7, board.entries[38].value);
    assert_eq!(FULL, values(&board));
    assert_eq!(true, board.is_solved());
}

#[test]
fn a_few_missing_are_filled_in() {
    let mut array = FULL;
    array[0][0] = 0;
    array[0][5] = 0;
    array[1][2] = 0;
    array[7][0] = 0;
    array[7][5] = 0;
    let mut board = Board::new_from_array(&array);
    assert_eq!(true, solve(&mut board));
    assert_eq!(FULL, values(&board));
}

#[test]
fn solve_leaves_a_solved_board_as_it_is() {
    let mut board = Board::new_from_array(&FULL);
    let before = board;
    assert_eq!(true, board.is_solved());

    assert_eq!(true, solve(&mut board));
    assert_eq!(FULL, values(&board));
    for index in 0..81 {
        assert!(before.entries[index] == board.entries[index]);
    }
    assert_eq!(true, board.is_solved());

    let mut narrowed = before;
    collapse_options(&mut narrowed);
    for index in 0..81 {
        assert_eq!(narrowed.entries[index].options, board.entries[index].options);
    }
}

#[test]
fn solve_completes_the_empty_board() {
    let mut board = Board::new_from_array(&[[0; 9]; 9]);
    assert_eq!(true, solve(&mut board));
    assert_eq!(true, board.is_valid());
    assert_eq!(true, board.is_solved());
    let expected = [
        [1, 2, 3, 4, 5, 6, 7, 8, 9],
        [4, 5, 6, 7, 8, 9, 1, 2, 3],
        [7, 8, 9, 1, 2, 3, 4, 5, 6],
        [2, 3, 1, 6, 7, 4, 8, 9, 5],
        [8, 7, 5, 9, 1, 2, 3, 6, 4],
        [6, 9, 4, 5, 3, 8, 2, 1, 7],
        [3, 1, 7, 2, 6, 5, 9, 4, 8],
        [5, 4, 2, 8, 9, 7, 6, 3, 1],
        [9, 6, 8, 3, 4, 1, 5, 7, 2],
    ];
    assert_eq!(expected, values(&board));
}

#[test]
fn very_easy_puzzle_gets_its_solution() {
    let mut board = Board::new_from_array(&VERY_EASY);
    assert_eq!(true, solve(&mut board));
    assert_eq!(VERY_EASY_SOLVED, values(&board));
    for index in 0..81 {
        let entry = &board.entries[index];
        assert_eq!(vec![entry.value], digits(entry));
    }
}

#[test]
fn puzzle_with_fifty_six_givens_is_solved() {
    let array = [
        [9, 2, 0, 3, 4, 1, 7, 5, 0],
        [1, 8, 0, 7, 2, 5, 0, 6, 3],
        [7, 0, 3, 8, 9, 0, 2, 0, 0],
        [4, 7, 0, 1, 6, 3, 8, 9, 2],
        [0, 0, 1, 0, 0, 9, 5, 4, 7],
        [2, 9, 8, 5, 7, 0, 0, 3, 1],
        [5, 4, 2, 0, 3, 7, 0, 8, 9],
        [3, 6, 0, 9, 0, 0, 4, 2, 0],
        [0, 1, 0, 0, 5, 2, 0, 7, 6],
    ];
    let givens = array.iter().flatten().filter(|value| **value != 0).count();
    assert_eq!(56, givens);

    let mut board = Board::new_from_array(&array);
    assert_eq!(true, solve(&mut board));
    assert_eq!(true, board.is_solved());
    assert_eq!(VERY_EASY_SOLVED, values(&board));
}

#[test]
fn solve_keeps_the_given_digits() {
    let mut board = Board::new_from_array(&VERY_EASY);
    assert_eq!(true, solve(&mut board));
    for row in 0..9 {
        for col in 0..9 {
            let entry = &board.entries[row * 9 + col];
            if VERY_EASY[row][col] != 0 {
                assert_eq!(VERY_EASY[row][col], entry.value);
            }
            assert_eq!(row, entry.row);
            assert_eq!(col, entry.col);
            assert_eq!(3 * (row / 3) + col / 3, entry.sector);
        }
    }
}

#[test]
fn board_without_completion_is_given_up() {
    let mut board = Board::new_from_array(&NO_COMPLETION);
    assert_eq!(true, board.is_valid());
    assert_eq!(false, board.is_solved());

    assert_eq!(false, solve(&mut board));
    assert_eq!(NO_COMPLETION, values(&board));
    assert_eq!(true, board.is_valid());
    assert_eq!(false, board.is_solved());

    let mut narrowed = Board::new_from_array(&NO_COMPLETION);
    collapse_options(&mut narrowed);
    for index in 0..81 {
        assert_eq!(narrowed.entries[index].options, board.entries[index].options);
    }
}

#[test]
fn dead_cell_makes_the_search_fail() {
    let mut array = FULL;
    array[4][2] = 0;
    let mut board = Board::new_from_array(&array);
    board.entries[38].options = [false; 9];
    assert_eq!(false, solve(&mut board));
    assert_eq!(0, board.entries[38].value);
}

#[test]
fn struck_candidate_is_not_guessed() {
    let mut array = FULL;
    array[4][2] = 0;
    let mut board = Board::new_from_array(&array);
    board.entries[38].options[6] = false;
    assert_eq!(false, solve(&mut board));
    assert_eq!(array, values(&board));
}

#[test]
fn search_does_not_check_the_given_digits() {
    let mut array = FULL;
    array[0][0] = 2;
    let mut board = Board::new_from_array(&array);
    assert_eq!(false, board.is_valid());
    assert_eq!(true, solve(&mut board));
    assert_eq!(array, values(&board));
    assert_eq!(false, board.is_solved());
}

#[test]
fn collapse_strikes_what_the_neighbours_hold() {
    let mut board = Board::new_from_array(&NO_COMPLETION);
    collapse_options(&mut board);
    assert_eq!(vec![4, 9], digits(&board.entries[54]));
    assert_eq!(vec![4], digits(&board.entries[56]));
    assert_eq!(vec![9], digits(&board.entries[57]));
    assert_eq!(NO_COMPLETION, values(&board));

    let mut easy = Board::new_from_array(&VERY_EASY);
    collapse_options(&mut easy);
    assert_eq!(vec![6], digits(&easy.entries[2]));
    assert_eq!(vec![3, 6], digits(&easy.entries[3]));
    assert_eq!(vec![6], digits(&easy.entries[80]));
}

#[test]
fn collapse_keeps_the_own_digit_of_an_assigned_cell() {
    let mut board = Board::new_from_array(&VERY_EASY);
    collapse_options(&mut board);
    assert_eq!(vec![6, 8, 9], digits(&board.entries[0]));
    assert_eq!(vec![2, 8], digits(&board.entries[1]));

    let mut full = Board::new_from_array(&FULL);
    collapse_options(&mut full);
    for index in 0..81 {
        assert_eq!(vec![full.entries[index].value], digits(&full.entries[index]));
    }
}

#[test]
fn collapse_leaves_an_empty_board_open() {
    let mut board = Board::new_from_array(&[[0; 9]; 9]);
    collapse_options(&mut board);
    for index in 0..81 {
        assert_eq!([true; 9], board.entries[index].options);
    }
}

#[test]
fn collapse_reaches_the_last_row_and_column() {
    let mut array = [[0; 9]; 9];
    array[8][0] = 3;
    array[0][8] = 4;
    let mut board = Board::new_from_array(&array);
    collapse_options(&mut board);
    assert_eq!(vec![1, 2, 5, 6, 7, 8, 9], digits(&board.entries[80]));
    assert_eq!(vec![1, 2, 4, 5, 6, 7, 8, 9], digits(&board.entries[76]));
    assert_eq!(vec![1, 2, 3, 5, 6, 7, 8, 9], digits(&board.entries[44]));
}

#[test]
fn second_collapse_strikes_nothing_more() {
    let mut once = Board::new_from_array(&VERY_EASY);
    collapse_options(&mut once);
    let mut twice = once;
    collapse_options(&mut twice);
    for index in 0..81 {
        assert_eq!(once.entries[index].options, twice.entries[index].options);
        assert!(once.entries[index] == twice.entries[index]);
    }
}

#[test]
fn can_entry_have_value_looks_at_row_column_and_box() {
    let mut array = [[0; 9]; 9];
    array[4][0] = 1;
    array[0][4] = 2;
    array[3][3] = 3;
    array[8][8] = 4;
    let board = Board::new_from_array(&array);
    let centre = board.entries[40];
    assert_eq!(false, can_entry_have_value(&board, &centre, 1));
    assert_eq!(false, can_entry_have_value(&board, &centre, 2));
    assert_eq!(false, can_entry_have_value(&board, &centre, 3));
    assert_eq!(true, can_entry_have_value(&board, &centre, 4));
    assert_eq!(true, can_entry_have_value(&board, &centre, 5));
}

#[test]
fn can_entry_have_value_passes_over_the_cell_itself() {
    let board = Board::new_from_array(&FULL);
    let entry = board.entries[38];
    assert_eq!(7, entry.value);
    assert_eq!(true, can_entry_have_value(&board, &entry, 7));
    assert_eq!(false, can_entry_have_value(&board, &entry, 6));
}

#[test]
fn guess_target_is_the_first_cell_with_the_fewest_options() {
    let mut board = Board::new_from_array(&NO_COMPLETION);
    assert_eq!(Some(0), guess_target(&board));
    collapse_options(&mut board);
    assert_eq!(Some(20), guess_target(&board));

    let mut easy = Board::new_from_array(&VERY_EASY);
    collapse_options(&mut easy);
    assert_eq!(Some(2), guess_target(&easy));

    let full = Board::new_from_array(&FULL);
    assert_eq!(None, guess_target(&full));
}

#[test]
fn option_count_counts_the_open_digits() {
    let mut entry = Entry { value: 0, row: 0, col: 0, sector: 0, options: [true; 9] };
    assert_eq!(9, option_count(&entry));
    entry.options[0] = false;
    entry.options[8] = false;
    assert_eq!(7, option_count(&entry));
    entry.options = [false; 9];
    assert_eq!(0, option_count(&entry));
}
