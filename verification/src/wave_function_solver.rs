//! Propagation and search.
//!
//! The search works as follows:
//!   1) Strike from every cell the candidates that an assigned cell in its
//!      row, column or box rules out.
//!   2) Pick the blank cell with the fewest candidates and place one of them.
//!   3) Repeat on a copy of the board until it is full or a cell is dead.
//!   4) On a dead end, fall back to the last guess that has candidates left.

use vstd::prelude::*;
use crate::board::entry_index;
use crate::board::Board;
use crate::board::Entry;
use crate::constants::ENTRY_COUNT;
use crate::constants::NUMBER_LIMIT;
use crate::grid_theorems::lemma_can_take_ignores_candidates;
use crate::model::lemma_assign_fills_blank;
use crate::model::lemma_blanks_follow_values;
use crate::model::Grid;
use crate::search_theorems::lemma_guess_target_unique;
use crate::search_theorems::lemma_search_outcome;

verus! {

/// Tries to complete the board, and says whether it could.
///
/// It succeeds exactly if the board has a completion: a way to fill every
/// blank cell with one of its candidates so that no filled-in digit collides
/// with any other. The board then holds such a completion, the first that the
/// search reached, and is solved if it was valid before. On failure the board
/// holds what one pass of propagation made of it, and no more.
///
/// The cells must record the coordinates of the places where they stand, as
/// those of a board made by `new_from_array` do.
#[verifier::loop_isolation(false)]
pub fn solve(board: &mut Board) -> (solved: bool)
    requires
        old(board)@.in_place(),
    ensures
        final(board)@.in_place(),
        solved <==> exists|full: Grid| full.completes(old(board)@),
        solved ==> final(board)@.filled(),
        solved ==> final(board)@.completes(old(board)@),
        solved ==> final(board)@.keeps_free_candidates(old(board)@),
        solved && old(board)@.valid() ==> final(board)@.solved(),
        !solved ==> final(board)@ == old(board)@.collapsed(),
        old(board)@.filled() ==> solved && final(board)@ == old(board)@.collapsed(),
        solved ==> old(board)@.search() == Some(final(board)@),
        !solved ==> old(board)@.search() is None,
    decreases old(board)@.blank_count(),
{
    proof {
        lemma_search_outcome(old(board)@);
    }
    collapse_options(board);
    let ghost narrowed: Grid = board@;
    proof {
        lemma_blanks_follow_values(old(board)@, narrowed, ENTRY_COUNT as int);
    }
    let target: usize = match guess_target(board) {
        None => {
            return true;
        },
        Some(target) => target,
    };
    proof {
        lemma_guess_target_unique(narrowed, target as int);
    }
    let guess: Entry = board.entries[target];
    let mut option_index: usize = 0;
    while option_index < NUMBER_LIMIT
        invariant
            option_index <= NUMBER_LIMIT,
            target < ENTRY_COUNT,
            board@ == narrowed,
            narrowed.in_place(),
            narrowed.blank_count() == old(board)@.blank_count(),
            guess == board.entries[target as int],
            narrowed.cells[target as int].value == 0,
            old(board)@.search() == narrowed.try_digits(target as int, option_index + 1),
        decreases NUMBER_LIMIT - option_index,
    {
        if guess.options[option_index] {
            let guess_value: usize = option_index + 1;
            let mut new_board: Board = board.clone();
            new_board.entries[entry_index(guess.row, guess.col)].value = guess_value;
            proof {
                assert(new_board@.cells =~= narrowed.assign(
                    target as int,
                    guess_value as nat,
                ).cells);
                lemma_assign_fills_blank(
                    narrowed,
                    target as int,
                    guess_value as nat,
                    ENTRY_COUNT as int,
                );
            }
            if solve(&mut new_board) {
                *board = new_board;
                return true;
            }
        }
        option_index += 1;
    }
    false
}

/// The cell to guess on: the first of the blank cells with the fewest
/// candidates, or nothing where no cell is blank.
pub fn guess_target(board: &Board) -> (target: Option<usize>)
    ensures
        target is None <==> board@.filled(),
        match target {
            Some(index) => board@.is_guess_target(index as int),
            None => true,
        },
{
    let mut best: Option<usize> = None;
    let mut fewest: usize = 0;
    let mut index: usize = 0;
    while index < ENTRY_COUNT
        invariant
            index <= ENTRY_COUNT,
            match best {
                Some(found) => {
                    &&& found < index
                    &&& board@.cells[found as int].value == 0
                    &&& fewest == board@.cells[found as int].candidate_count()
                    &&& forall|other: int|
                        0 <= other < index && (#[trigger] board@.cells[other]).value == 0 ==> {
                            ||| fewest < board@.cells[other].candidate_count()
                            ||| fewest == board@.cells[other].candidate_count() && found <= other
                        }
                },
                None => forall|other: int|
                    0 <= other < index ==> (#[trigger] board@.cells[other]).value != 0,
            },
        decreases ENTRY_COUNT - index,
    {
        let entry: &Entry = &board.entries[index];
        if entry.value == 0 {
            let count: usize = option_count(entry);
            let better: bool = match best {
                Some(_) => count < fewest,
                None => true,
            };
            if better {
                best = Some(index);
                fewest = count;
            }
        }
        index += 1;
    }
    best
}

/// The number of candidates of a cell.
pub fn option_count(entry: &Entry) -> (count: usize)
    ensures
        count == entry@.candidate_count(),
{
    let mut count: usize = 0;
    let mut index: usize = 0;
    while index < NUMBER_LIMIT
        invariant
            index <= NUMBER_LIMIT,
            count == entry@.candidates_up_to(index as int),
            count <= index,
        decreases NUMBER_LIMIT - index,
    {
        if entry.options[index] {
            count += 1;
        }
        index += 1;
    }
    count
}

/// Whether `value` can stand in `entry` by the rules of Sudoku: no other cell
/// in its row, column or box holds it already.
pub fn can_entry_have_value(board: &Board, entry: &Entry, value: usize) -> (free: bool)
    ensures
        free == board@.can_take(entry@, value as int),
{
    let row: usize = entry.row;
    let col: usize = entry.col;
    let sector: usize = entry.sector;
    let mut index: usize = 0;
    while index < ENTRY_COUNT
        invariant
            index <= ENTRY_COUNT,
            row == entry.row,
            col == entry.col,
            sector == entry.sector,
            forall|k: int|
                0 <= k < index ==> !(#[trigger] board@.cells[k]).blocks(entry@, value as int),
        decreases ENTRY_COUNT - index,
    {
        let e: Entry = board.entries[index];
        assert(e@ == board@.cells[index as int]);
        if e.row == row || e.col == col || e.sector == sector {
            if e.value == value {
                if e != *entry {
                    return false;
                }
            }
        }
        index += 1;
    }
    true
}

/// Strikes every candidate that the rules of Sudoku rule out at once: the
/// digits that another cell of the same row, column or box holds. One pass;
/// values and coordinates are left alone.
pub fn collapse_options(board: &mut Board)
    ensures
        final(board)@ == old(board)@.collapsed(),
        old(board)@.in_place() ==> final(board)@.in_place(),
{
    let ghost start: Grid = board@;
    let mut row: usize = 0;
    while row < NUMBER_LIMIT
        invariant
            row <= NUMBER_LIMIT,
            collapsing(start, board@, row * NUMBER_LIMIT),
        decreases NUMBER_LIMIT - row,
    {
        let mut col: usize = 0;
        while col < NUMBER_LIMIT
            invariant
                row < NUMBER_LIMIT,
                col <= NUMBER_LIMIT,
                collapsing(start, board@, row * NUMBER_LIMIT + col),
            decreases NUMBER_LIMIT - col,
        {
            let position: usize = entry_index(row, col);
            let mut option_index: usize = 0;
            while option_index < NUMBER_LIMIT
                invariant
                    position < ENTRY_COUNT,
                    option_index <= NUMBER_LIMIT,
                    collapsing_cell(start, board@, position as int, option_index as int),
                decreases NUMBER_LIMIT - option_index,
            {
                let ghost before: Grid = board@;
                let entry: &Entry = &board.entries[position];
                let open: bool = entry.options[option_index];
                let free: bool = can_entry_have_value(board, entry, option_index + 1);
                proof {
                    lemma_can_take_ignores_candidates(
                        before,
                        start,
                        entry@,
                        start.cells[position as int],
                        option_index + 1,
                    );
                }
                if open && !free {
                    board.entries[position].options[option_index] = false;
                }
                proof {
                    let now = board@;
                    let struck = option_index + 1;
                    assert forall|k: int| 0 <= k < ENTRY_COUNT && k != position implies (
                    #[trigger] now.cells[k]) == before.cells[k] by {}
                    assert forall|digit: int|
                        1 <= digit <= NUMBER_LIMIT && digit != struck implies (
                    now.cells[position as int].candidates.contains(digit)
                        <==> before.cells[position as int].candidates.contains(digit)) by {}
                }
                option_index += 1;
            }
            proof {
                assert(board@.cells[position as int].candidates
                    =~= start.collapsed().cells[position as int].candidates);
            }
            col += 1;
        }
        row += 1;
    }
    assert(board@.cells =~= start.collapsed().cells);
}

/// Propagation has dealt with the first `done` cells of `start`: in `now` they
/// are as propagation leaves them, and the others are untouched.
spec fn collapsing(start: Grid, now: Grid, done: int) -> bool {
    &&& start.cells.len() == ENTRY_COUNT
    &&& now.cells.len() == ENTRY_COUNT
    &&& forall|k: int, digit: int| #![trigger start.cells[k].candidates.contains(digit)]
        0 <= k < ENTRY_COUNT && start.cells[k].candidates.contains(digit) ==> 1 <= digit
            <= NUMBER_LIMIT
    &&& forall|k: int| 0 <= k < done ==> (#[trigger] now.cells[k]) == start.collapsed().cells[k]
    &&& forall|k: int| done <= k < ENTRY_COUNT ==> (#[trigger] now.cells[k]) == start.cells[k]
}

/// Propagation has dealt with the cells of `start` before `position`, and at
/// `position` with the digits up to `digits_done`.
spec fn collapsing_cell(start: Grid, now: Grid, position: int, digits_done: int) -> bool {
    &&& start.cells.len() == ENTRY_COUNT
    &&& now.cells.len() == ENTRY_COUNT
    &&& forall|k: int, digit: int| #![trigger start.cells[k].candidates.contains(digit)]
        0 <= k < ENTRY_COUNT && start.cells[k].candidates.contains(digit) ==> 1 <= digit
            <= NUMBER_LIMIT
    &&& forall|k: int| 0 <= k < position ==> (#[trigger] now.cells[k]) == start.collapsed().cells[k]
    &&& forall|k: int| position < k < ENTRY_COUNT ==> (#[trigger] now.cells[k]) == start.cells[k]
    &&& now.cells[position].same_slot(start.cells[position])
    &&& forall|digit: int|
        1 <= digit <= digits_done ==> (now.cells[position].candidates.contains(digit)
            <==> start.collapsed().cells[position].candidates.contains(digit))
    &&& forall|digit: int|
        digits_done < digit ==> (now.cells[position].candidates.contains(digit)
            <==> start.cells[position].candidates.contains(digit))
}

} // verus!
