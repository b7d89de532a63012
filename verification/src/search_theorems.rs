//! What holds of the search, proved over the model: it is sound and complete,
//! and it solves every valid grid that can be completed at all.

use vstd::prelude::*;
use crate::constants::NUMBER_LIMIT;
use crate::grid_theorems::lemma_can_take_ignores_candidates;
use crate::model::box_num_spec;
use crate::model::lemma_assign_fills_blank;
use crate::model::lemma_blanks_follow_values;
use crate::model::Grid;

verus! {

/// A grid has at most one guess target, so a cell that meets the description is
/// the one that the search guesses on.
pub proof fn lemma_guess_target_unique(grid: Grid, index: int)
    requires
        grid.is_guess_target(index),
    ensures
        grid.guess_target() == index,
{
}

/// Where every cell of a grid holds a digit, the search has nothing to guess:
/// it finds the grid as one pass of propagation leaves it, in which every
/// cell stands for the same slot with the same digit as before.
pub proof fn lemma_search_keeps_full_grid(grid: Grid)
    requires
        grid.filled(),
    ensures
        grid.search() == Some(grid.collapsed()),
        grid.collapsed().cells.len() == grid.cells.len(),
        forall|index: int|
            0 <= index < grid.cells.len() ==> (#[trigger] grid.collapsed().cells[index]).same_slot(
                grid.cells[index],
            ),
{
}

/// In this grid no candidate of the blank cell at `index` is held by a cell
/// that shares a unit with it.
spec fn narrowed_at(grid: Grid, index: int) -> bool {
    forall|digit: int|
        #[trigger] grid.cells[index].candidates.contains(digit) ==> grid.can_take(
            grid.cells[index],
            digit,
        )
}

/// After propagation, no candidate of any cell is held by a cell that shares a
/// unit with it.
proof fn lemma_collapsed_is_narrowed(grid: Grid, index: int)
    requires
        0 <= index < grid.cells.len(),
    ensures
        narrowed_at(grid.collapsed(), index),
{
    let narrowed = grid.collapsed();
    assert forall|digit: int| #[trigger]
        narrowed.cells[index].candidates.contains(digit) implies narrowed.can_take(
        narrowed.cells[index],
        digit,
    ) by {
        lemma_can_take_ignores_candidates(
            narrowed,
            grid,
            narrowed.cells[index],
            grid.cells[index],
            digit,
        );
    }
}

/// A completion of the propagated grid is a completion of the grid itself.
proof fn lemma_completes_before_collapse(grid: Grid, full: Grid)
    requires
        full.completes(grid.collapsed()),
    ensures
        full.completes(grid),
{
}

/// A completion of a grid is a completion of the propagated grid: propagation
/// strikes no digit that a completion uses.
proof fn lemma_completes_after_collapse(grid: Grid, full: Grid)
    requires
        full.completes(grid),
    ensures
        full.completes(grid.collapsed()),
{
    let narrowed = grid.collapsed();
    assert forall|index: int| 0 <= index < full.cells.len() implies #[trigger] full.completes_at(
        narrowed,
        index,
    ) by {
        if grid.cells[index].value == 0 {
            let digit = full.cells[index].value as int;
            assert forall|other: int| 0 <= other < grid.cells.len() implies !(
            #[trigger] grid.cells[other]).blocks(grid.cells[index], digit) by {
                if grid.cells[other].blocks(grid.cells[index], digit) {
                    assert(full.collides(index, other));
                }
            }
        }
    }
}

/// A completion of the grid that has `digit` at `target` is a completion of
/// the grid in which that digit is placed there.
proof fn lemma_completes_after_assign(grid: Grid, full: Grid, target: int)
    requires
        full.completes(grid),
        0 <= target < grid.cells.len(),
        grid.cells[target].value == 0,
    ensures
        full.completes(grid.assign(target, full.cells[target].value)),
{
}

/// A completion of the grid in which a candidate of the blank cell at `target`
/// is placed there is a completion of the grid, provided that no cell that
/// shares a unit with the target holds that digit already.
proof fn lemma_completes_before_assign(grid: Grid, full: Grid, target: int, digit: int)
    requires
        0 <= target < grid.cells.len(),
        grid.cells[target].value == 0,
        1 <= digit <= NUMBER_LIMIT,
        grid.cells[target].candidates.contains(digit),
        grid.can_take(grid.cells[target], digit),
        full.completes(grid.assign(target, digit as nat)),
    ensures
        full.completes(grid),
{
    assert forall|other: int|
        0 <= other < full.cells.len() && other != target implies !#[trigger] full.collides(
        target,
        other,
    ) by {
        if grid.cells[other].value == 0 {
            assert(!full.collides(other, target));
        }
    }
}

/// The search is sound: what it finds is a completion of the grid it started
/// from.
pub proof fn lemma_search_sound(grid: Grid)
    ensures
        match grid.search() {
            Some(full) => full.completes(grid),
            None => true,
        },
    decreases grid.blank_count(), 1nat, 0nat,
{
    let narrowed = grid.collapsed();
    if narrowed.filled() {
        lemma_completes_before_collapse(grid, narrowed);
    } else {
        lemma_blanks_follow_values(grid, narrowed, grid.cells.len() as int);
        let target = narrowed.guess_target();
        if 0 <= target < narrowed.cells.len() {
            lemma_collapsed_is_narrowed(grid, target);
        }
        lemma_try_digits_sound(narrowed, target, 1);
        if let Some(full) = grid.search() {
            lemma_completes_before_collapse(grid, full);
        }
    }
}

/// What the search finds by guessing for the cell at `target` is a completion
/// of the grid, where the candidates of that cell have been propagated.
proof fn lemma_try_digits_sound(grid: Grid, target: int, digit: int)
    requires
        0 <= target < grid.cells.len() ==> narrowed_at(grid, target),
    ensures
        match grid.try_digits(target, digit) {
            Some(full) => full.completes(grid),
            None => true,
        },
    decreases grid.blank_count(), 0nat, NUMBER_LIMIT + 1 - digit,
{
    if 0 <= target < grid.cells.len() && grid.cells[target].value == 0 && 1 <= digit
        <= NUMBER_LIMIT {
        if grid.cells[target].candidates.contains(digit) {
            lemma_assign_fills_blank(grid, target, digit as nat, grid.cells.len() as int);
            let placed = grid.assign(target, digit as nat);
            lemma_search_sound(placed);
            match placed.search() {
                Some(full) => {
                    lemma_completes_before_assign(grid, full, target, digit);
                },
                None => {
                    lemma_try_digits_sound(grid, target, digit + 1);
                },
            }
        } else {
            lemma_try_digits_sound(grid, target, digit + 1);
        }
    }
}

/// Among the first `upto` cells, the cell at `index` is blank, no blank cell
/// has fewer candidates, and no blank cell before it has as few.
spec fn is_guess_target_among(grid: Grid, upto: int, index: int) -> bool {
    &&& 0 <= index < upto
    &&& grid.cells[index].value == 0
    &&& forall|other: int|
        0 <= other < upto && (#[trigger] grid.cells[other]).value == 0 ==> {
            ||| grid.cells[index].candidate_count() < grid.cells[other].candidate_count()
            ||| grid.cells[index].candidate_count() == grid.cells[other].candidate_count()
                && index <= other
        }
}

/// Where one of the first `upto` cells is blank, one of them is the guess
/// target among them.
proof fn lemma_guess_target_among(grid: Grid, upto: int, blank: int)
    requires
        0 <= blank < upto <= grid.cells.len(),
        grid.cells[blank].value == 0,
    ensures
        exists|index: int| is_guess_target_among(grid, upto, index),
    decreases upto,
{
    let last = upto - 1;
    if blank < last {
        lemma_guess_target_among(grid, last, blank);
        let before = choose|index: int| is_guess_target_among(grid, last, index);
        if grid.cells[last].value == 0 && grid.cells[last].candidate_count()
            < grid.cells[before].candidate_count() {
            assert(is_guess_target_among(grid, upto, last));
        } else {
            assert(is_guess_target_among(grid, upto, before));
        }
    } else if exists|earlier: int|
        0 <= earlier < last && (#[trigger] grid.cells[earlier]).value == 0 {
        let earlier = choose|earlier: int|
            0 <= earlier < last && (#[trigger] grid.cells[earlier]).value == 0;
        lemma_guess_target_among(grid, last, earlier);
        let before = choose|index: int| is_guess_target_among(grid, last, index);
        if grid.cells[last].candidate_count() < grid.cells[before].candidate_count() {
            assert(is_guess_target_among(grid, upto, last));
        } else {
            assert(is_guess_target_among(grid, upto, before));
        }
    }
}

/// A grid with a blank cell has a guess target, and it is a blank cell.
pub proof fn lemma_guess_target_exists(grid: Grid)
    requires
        !grid.filled(),
    ensures
        grid.is_guess_target(grid.guess_target()),
{
    let blank = choose|index: int|
        0 <= index < grid.cells.len() && (#[trigger] grid.cells[index]).value == 0;
    lemma_guess_target_among(grid, grid.cells.len() as int, blank);
    let found = choose|index: int| is_guess_target_among(grid, grid.cells.len() as int, index);
    assert(grid.is_guess_target(found));
}

/// The search is complete: it finds a full grid wherever the grid it starts
/// from has a completion.
pub proof fn lemma_search_complete(grid: Grid, full: Grid)
    requires
        full.completes(grid),
    ensures
        grid.search().is_some(),
    decreases grid.blank_count(), 1nat, 0nat,
{
    let narrowed = grid.collapsed();
    if !narrowed.filled() {
        lemma_blanks_follow_values(grid, narrowed, grid.cells.len() as int);
        lemma_completes_after_collapse(grid, full);
        lemma_guess_target_exists(narrowed);
        let target = narrowed.guess_target();
        lemma_try_digits_complete(narrowed, full, target, 1);
    }
}

/// Guessing for the blank cell at `target` finds a full grid wherever the grid
/// has a completion whose digit at `target` is still to be tried.
proof fn lemma_try_digits_complete(grid: Grid, full: Grid, target: int, digit: int)
    requires
        full.completes(grid),
        0 <= target < grid.cells.len(),
        grid.cells[target].value == 0,
        1 <= digit <= full.cells[target].value,
    ensures
        grid.try_digits(target, digit).is_some(),
    decreases grid.blank_count(), 0nat, NUMBER_LIMIT + 1 - digit,
{
    if digit == full.cells[target].value {
        lemma_assign_fills_blank(grid, target, digit as nat, grid.cells.len() as int);
        lemma_completes_after_assign(grid, full, target);
        lemma_search_complete(grid.assign(target, digit as nat), full);
    } else if grid.cells[target].candidates.contains(digit) {
        if grid.assign(target, digit as nat).search().is_none() {
            lemma_try_digits_complete(grid, full, target, digit + 1);
        }
    } else {
        lemma_try_digits_complete(grid, full, target, digit + 1);
    }
}

/// A digit that no cell of a completion forbids to one of its cells was not
/// forbidden to that cell in the grid that it completes.
proof fn lemma_free_in_completion(grid: Grid, full: Grid, index: int, digit: int)
    requires
        grid.in_place(),
        full.completes(grid),
        0 <= index < grid.cells.len(),
        digit != 0,
        full.can_take(full.cells[index], digit),
    ensures
        grid.can_take(grid.cells[index], digit),
{
    assert forall|other: int| 0 <= other < grid.cells.len() implies !(
    #[trigger] grid.cells[other]).blocks(grid.cells[index], digit) by {
        if grid.cells[other].blocks(grid.cells[index], digit) {
            assert(full.cells[other].blocks(full.cells[index], digit));
        }
    }
}

/// The candidates that the search leaves in the grid it finds are those of the
/// start that the found grid does not forbid.
pub proof fn lemma_search_keeps_free_candidates(grid: Grid)
    requires
        grid.in_place(),
    ensures
        match grid.search() {
            Some(full) => full.keeps_free_candidates(grid),
            None => true,
        },
    decreases grid.blank_count(), 1nat, 0nat,
{
    let narrowed = grid.collapsed();
    if narrowed.filled() {
        assert forall|index: int, digit: int|
            0 <= index < narrowed.cells.len() && 1 <= digit <= NUMBER_LIMIT implies (
        #[trigger] narrowed.cells[index].candidates.contains(digit)
            <==> grid.cells[index].candidates.contains(digit) && narrowed.can_take(
            narrowed.cells[index],
            digit,
        )) by {
            lemma_can_take_ignores_candidates(
                narrowed,
                grid,
                narrowed.cells[index],
                grid.cells[index],
                digit,
            );
        }
    } else {
        lemma_blanks_follow_values(grid, narrowed, grid.cells.len() as int);
        lemma_search_sound(grid);
        let target = narrowed.guess_target();
        lemma_try_digits_keeps_free_candidates(narrowed, target, 1);
        if let Some(full) = grid.search() {
            assert forall|index: int, digit: int|
                0 <= index < full.cells.len() && 1 <= digit <= NUMBER_LIMIT implies (
            #[trigger] full.cells[index].candidates.contains(digit)
                <==> grid.cells[index].candidates.contains(digit) && full.can_take(
                full.cells[index],
                digit,
            )) by {
                if full.can_take(full.cells[index], digit) {
                    lemma_free_in_completion(grid, full, index, digit);
                }
            }
        }
    }
}

/// The candidates that the search leaves in a grid that it finds by guessing
/// for the cell at `target` are those of the start that the found grid does
/// not forbid.
proof fn lemma_try_digits_keeps_free_candidates(grid: Grid, target: int, digit: int)
    requires
        grid.in_place(),
    ensures
        match grid.try_digits(target, digit) {
            Some(full) => full.keeps_free_candidates(grid),
            None => true,
        },
    decreases grid.blank_count(), 0nat, NUMBER_LIMIT + 1 - digit,
{
    if 0 <= target < grid.cells.len() && grid.cells[target].value == 0 && 1 <= digit
        <= NUMBER_LIMIT {
        if grid.cells[target].candidates.contains(digit) {
            lemma_assign_fills_blank(grid, target, digit as nat, grid.cells.len() as int);
            let placed = grid.assign(target, digit as nat);
            lemma_search_keeps_free_candidates(placed);
            lemma_search_sound(placed);
            if placed.search() is None {
                lemma_try_digits_keeps_free_candidates(grid, target, digit + 1);
            }
        } else {
            lemma_try_digits_keeps_free_candidates(grid, target, digit + 1);
        }
    }
}

/// The search succeeds exactly on the grids that have a completion.
pub proof fn lemma_search_succeeds_iff_completable(grid: Grid)
    ensures
        grid.search().is_some() <==> exists|full: Grid| full.completes(grid),
{
    lemma_search_sound(grid);
    if exists|full: Grid| full.completes(grid) {
        let full = choose|full: Grid| full.completes(grid);
        lemma_search_complete(grid, full);
    }
}

/// A completion is full.
pub proof fn lemma_completion_is_full(grid: Grid, full: Grid)
    requires
        full.completes(grid),
    ensures
        full.filled(),
{
}

/// A completion of a valid grid is solved.
pub proof fn lemma_completion_of_valid_is_solved(grid: Grid, full: Grid)
    requires
        grid.valid(),
        full.completes(grid),
    ensures
        full.solved(),
{
    assert forall|first: int, second: int|
        0 <= first < full.cells.len() && 0 <= second < full.cells.len() && first
            != second implies !#[trigger] full.collides(first, second) by {
        if grid.cells[first].value != 0 && grid.cells[second].value != 0 {
            assert(!grid.collides(first, second));
        } else if grid.cells[first].value != 0 {
            assert(!full.collides(second, first));
        }
    }
}

/// What the search comes to, in one statement. It succeeds exactly on the
/// grids that have a completion. What it finds is full, is a completion of the
/// start, keeps of the candidates of the start those that it does not forbid,
/// and is solved where the start was valid. And a full grid is found as
/// propagation leaves it.
pub proof fn lemma_search_outcome(grid: Grid)
    requires
        grid.in_place(),
    ensures
        grid.search().is_some() <==> exists|full: Grid| full.completes(grid),
        match grid.search() {
            Some(full) => {
                &&& full.filled()
                &&& full.completes(grid)
                &&& full.keeps_free_candidates(grid)
                &&& grid.valid() ==> full.solved()
            },
            None => true,
        },
        grid.filled() ==> grid.search() == Some(grid.collapsed()),
{
    lemma_search_succeeds_iff_completable(grid);
    lemma_search_sound(grid);
    lemma_search_keeps_free_candidates(grid);
    if let Some(full) = grid.search() {
        lemma_completion_is_full(grid, full);
        if grid.valid() {
            lemma_completion_of_valid_is_solved(grid, full);
        }
    }
    if grid.filled() {
        lemma_search_keeps_full_grid(grid);
    }
}

/// The digit at `(row, col)` of one solved grid: the first row counts from 1
/// to 9, and each further row is the one above it shifted by three places,
/// or by four where a new band of boxes begins.
spec fn shifted_rows(row: int, col: int) -> int {
    (3 * (row % 3) + row / 3 + col) % 9 + 1
}

/// Two different numbers less than nine apart leave different remainders on
/// division by nine.
proof fn lemma_close_numbers_differ(first: int, second: int)
    requires
        0 <= first,
        0 <= second,
        first != second,
        -9 < first - second < 9,
    ensures
        first % 9 != second % 9,
{
}

/// For two different cells of one row, one column or one box, the sums from
/// which `shifted_rows` takes its digits differ by less than nine. A cell is
/// given here by its band and its line within the band, and by its stack and
/// its file within the stack.
proof fn lemma_shifts_are_close(
    band: int,
    line: int,
    stack: int,
    file: int,
    other_band: int,
    other_line: int,
    other_stack: int,
    other_file: int,
)
    requires
        0 <= band < 3,
        0 <= line < 3,
        0 <= stack < 3,
        0 <= file < 3,
        0 <= other_band < 3,
        0 <= other_line < 3,
        0 <= other_stack < 3,
        0 <= other_file < 3,
        band != other_band || line != other_line || stack != other_stack || file != other_file,
        (band == other_band && line == other_line) || (stack == other_stack && file == other_file)
            || (band == other_band && stack == other_stack),
    ensures
        3 * line + band + 3 * stack + file != 3 * other_line + other_band + 3 * other_stack
            + other_file,
        -9 < (3 * line + band + 3 * stack + file) - (3 * other_line + other_band + 3 * other_stack
            + other_file) < 9,
{
}

/// `shifted_rows` gives different digits to two different cells of one row,
/// one column or one box.
proof fn lemma_shifted_rows_differ(row: int, col: int, other_row: int, other_col: int)
    requires
        0 <= row < 9,
        0 <= col < 9,
        0 <= other_row < 9,
        0 <= other_col < 9,
        row != other_row || col != other_col,
        row == other_row || col == other_col || box_num_spec(row, col) == box_num_spec(
            other_row,
            other_col,
        ),
    ensures
        shifted_rows(row, col) != shifted_rows(other_row, other_col),
{
    lemma_shifts_are_close(
        row / 3,
        row % 3,
        col / 3,
        col % 3,
        other_row / 3,
        other_row % 3,
        other_col / 3,
        other_col % 3,
    );
    lemma_close_numbers_differ(
        3 * (row % 3) + row / 3 + col,
        3 * (other_row % 3) + other_row / 3 + other_col,
    );
}

/// From the empty grid the search finds a solved grid.
pub proof fn lemma_search_solves_empty_grid(matrix: [[usize; NUMBER_LIMIT]; NUMBER_LIMIT])
    requires
        forall|row: int, col: int|
            0 <= row < NUMBER_LIMIT && 0 <= col < NUMBER_LIMIT ==> #[trigger] matrix[row][col] == 0,
    ensures
        match Grid::from_matrix(matrix).search() {
            Some(full) => full.solved(),
            None => false,
        },
{
    let empty = Grid::from_matrix(matrix);
    let full = Grid {
        cells: Seq::new(
            empty.cells.len(),
            |index: int|
                empty.cells[index].with_value(
                    shifted_rows(index / NUMBER_LIMIT as int, index % NUMBER_LIMIT as int) as nat,
                ),
        ),
    };
    assert forall|index: int| 0 <= index < full.cells.len() implies #[trigger] full.completes_at(
        empty,
        index,
    ) by {
        assert forall|other: int|
            0 <= other < full.cells.len() && other != index implies !#[trigger] full.collides(
            index,
            other,
        ) by {
            if full.cells[index].shares_unit(full.cells[other]) {
                lemma_shifted_rows_differ(
                    index / NUMBER_LIMIT as int,
                    index % NUMBER_LIMIT as int,
                    other / NUMBER_LIMIT as int,
                    other % NUMBER_LIMIT as int,
                );
            }
        }
    }
    assert(empty.valid()) by {
        assert forall|index: int| 0 <= index < empty.cells.len() implies (
        #[trigger] empty.cells[index]).well_formed() by {
            assert(empty.cells[index].candidates.contains(1));
        }
    }
    lemma_search_complete(empty, full);
    lemma_search_sound(empty);
    lemma_completion_of_valid_is_solved(empty, empty.search().unwrap());
}

} // verus!
