//! What holds of the grid, of its rules and of propagation, proved over the
//! model.

use vstd::prelude::*;
use crate::constants::NUMBER_LIMIT;
use crate::model::box_num_spec;
use crate::model::entry_index_spec;
use crate::model::Cell;
use crate::model::Grid;

verus! {

/// Addressing a cell by its coordinates and by its position agree: in a grid
/// whose cells are in place, the cell at the position that belongs to
/// `(row, col)` records that row, that column and their box, and the position
/// gives the coordinates back.
pub proof fn lemma_cell_at_coordinates(grid: Grid, row: int, col: int)
    requires
        grid.in_place(),
        0 <= row < NUMBER_LIMIT,
        0 <= col < NUMBER_LIMIT,
    ensures
        0 <= entry_index_spec(row, col) < grid.cells.len(),
        entry_index_spec(row, col) / NUMBER_LIMIT as int == row,
        entry_index_spec(row, col) % NUMBER_LIMIT as int == col,
        grid.cells[entry_index_spec(row, col)].row == row,
        grid.cells[entry_index_spec(row, col)].col == col,
        grid.cells[entry_index_spec(row, col)].sector == box_num_spec(row, col),
        0 <= box_num_spec(row, col) < NUMBER_LIMIT,
{
}

/// A solved grid is valid, and none of its cells is blank.
pub proof fn lemma_solved_is_valid_and_full(grid: Grid)
    requires
        grid.solved(),
    ensures
        grid.valid(),
        forall|index: int| 0 <= index < grid.cells.len() ==> grid.cells[index].value != 0,
{
}

/// A grid is valid exactly if none of its cells has a fault.
pub proof fn lemma_valid_iff_no_fault(grid: Grid)
    ensures
        grid.valid() <==> forall|index: int|
            0 <= index < grid.cells.len() ==> #[trigger] grid.fault_at(index) is None,
{
    if grid.valid() {
        assert forall|index: int| 0 <= index < grid.cells.len() implies (
        #[trigger] grid.fault_at(index)) is None by {
            if grid.cells[index].value != 0 {
                if grid.repeats_in_row(index) {
                    let earlier = choose|earlier: int|
                        0 <= earlier < index && (#[trigger] grid.cells[earlier]).value
                            == grid.cells[index].value && grid.cells[earlier].row
                            == grid.cells[index].row;
                    assert(grid.collides(index, earlier));
                }
                if grid.repeats_in_col(index) {
                    let earlier = choose|earlier: int|
                        0 <= earlier < index && (#[trigger] grid.cells[earlier]).value
                            == grid.cells[index].value && grid.cells[earlier].col
                            == grid.cells[index].col;
                    assert(grid.collides(index, earlier));
                }
                if grid.repeats_in_sector(index) {
                    let earlier = choose|earlier: int|
                        0 <= earlier < index && (#[trigger] grid.cells[earlier]).value
                            == grid.cells[index].value && grid.cells[earlier].sector
                            == grid.cells[index].sector;
                    assert(grid.collides(index, earlier));
                }
            }
        }
    }
    if forall|index: int|
        0 <= index < grid.cells.len() ==> #[trigger] grid.fault_at(index) is None {
        assert forall|index: int| 0 <= index < grid.cells.len() implies (
        #[trigger] grid.cells[index]).well_formed() by {
            assert(grid.fault_at(index) is None);
        }
        assert forall|first: int, second: int|
            0 <= first < grid.cells.len() && 0 <= second < grid.cells.len() && first
                != second implies !#[trigger] grid.collides(first, second) by {
            if grid.collides(first, second) {
                let later = if first < second {
                    second
                } else {
                    first
                };
                let earlier = if first < second {
                    first
                } else {
                    second
                };
                assert(grid.fault_at(later) is None);
                assert(grid.repeats_in_row(later) || grid.repeats_in_col(later)
                    || grid.repeats_in_sector(later));
            }
        }
    }
}

/// `order` lists each of the positions `0..len` once.
pub open spec fn is_visit_order(order: Seq<int>, len: nat) -> bool {
    &&& order.len() == len
    &&& forall|step: int| 0 <= step < len ==> 0 <= #[trigger] order[step] < len
    &&& order.no_duplicates()
    &&& forall|index: int| 0 <= index < len ==> #[trigger] order.contains(index)
}

/// The cells of `grid`, taken in the order in which `order` visits them.
pub open spec fn visited(grid: Grid, order: Seq<int>) -> Grid {
    Grid { cells: Seq::new(grid.cells.len(), |step: int| grid.cells[order[step]]) }
}

/// Validity does not depend on the order in which the cells are visited: the
/// cells of a grid, taken in any order, form a valid grid exactly if the grid
/// is valid. The same holds of being solved.
pub proof fn lemma_valid_in_any_order(grid: Grid, order: Seq<int>)
    requires
        is_visit_order(order, grid.cells.len()),
    ensures
        visited(grid, order).valid() == grid.valid(),
        visited(grid, order).solved() == grid.solved(),
{
    let shuffled = visited(grid, order);
    let len = grid.cells.len();
    if grid.valid() {
        assert forall|first: int, second: int|
            0 <= first < len && 0 <= second < len && first != second implies !(
        #[trigger] shuffled.collides(first, second)) by {
            assert(!grid.collides(order[first], order[second]));
        }
    }
    if shuffled.valid() {
        assert forall|index: int| 0 <= index < len implies (
        #[trigger] grid.cells[index]).well_formed() by {
            let step = lemma_visit_step(order, index);
            assert(shuffled.cells[step].well_formed());
        }
        assert forall|first: int, second: int|
            0 <= first < len && 0 <= second < len && first != second implies !(
        #[trigger] grid.collides(first, second)) by {
            let first_step = lemma_visit_step(order, first);
            let second_step = lemma_visit_step(order, second);
            assert(!shuffled.collides(first_step, second_step));
        }
    }
    if shuffled.filled() {
        assert forall|index: int| 0 <= index < len implies (
        #[trigger] grid.cells[index]).value != 0 by {
            let step = lemma_visit_step(order, index);
            assert(shuffled.cells[step].value != 0);
        }
    }
}

/// The step at which a visit order comes to the position `index`.
proof fn lemma_visit_step(order: Seq<int>, index: int) -> (step: int)
    requires
        is_visit_order(order, order.len()),
        0 <= index < order.len(),
    ensures
        0 <= step < order.len(),
        order[step] == index,
{
    assert(order.contains(index));
    choose|step: int| 0 <= step < order.len() && order[step] == index
}

/// What a grid forbids depends on the values and coordinates of its cells
/// alone: two grids that agree on them, cell by cell, forbid the same digits
/// to cells that agree on them.
pub proof fn lemma_can_take_ignores_candidates(
    first: Grid,
    second: Grid,
    first_cell: Cell,
    second_cell: Cell,
    digit: int,
)
    requires
        first.cells.len() == second.cells.len(),
        forall|index: int|
            0 <= index < first.cells.len() ==> (#[trigger] first.cells[index]).same_slot(
                second.cells[index],
            ),
        first_cell.same_slot(second_cell),
    ensures
        first.can_take(first_cell, digit) == second.can_take(second_cell, digit),
{
    if first.can_take(first_cell, digit) {
        assert forall|index: int| 0 <= index < second.cells.len() implies !(
        #[trigger] second.cells[index]).blocks(second_cell, digit) by {
            assert(!first.cells[index].blocks(first_cell, digit));
        }
    }
    if second.can_take(second_cell, digit) {
        assert forall|index: int| 0 <= index < first.cells.len() implies !(
        #[trigger] first.cells[index]).blocks(first_cell, digit) by {
            assert(!second.cells[index].blocks(second_cell, digit));
        }
    }
}

/// Propagation looks at values and coordinates only and changes neither, so a
/// second pass right after the first finds nothing more to strike. And a
/// candidate that is gone after the two passes is one that some cell of the
/// grid forbids outright.
pub proof fn lemma_collapse_twice(grid: Grid)
    ensures
        grid.collapsed().collapsed() == grid.collapsed(),
        forall|index: int, digit: int|
            0 <= index < grid.cells.len() && grid.cells[index].candidates.contains(digit)
                && !#[trigger] grid.collapsed().collapsed().cells[index].candidates.contains(digit)
                ==> exists|other: int|
                0 <= other < grid.cells.len() && (#[trigger] grid.cells[other]).blocks(
                    grid.cells[index],
                    digit,
                ),
{
    let once = grid.collapsed();
    let twice = once.collapsed();
    assert forall|index: int| 0 <= index < grid.cells.len() implies (
    #[trigger] twice.cells[index]) == once.cells[index] by {
        assert forall|digit: int|
            once.can_take(once.cells[index], digit) == grid.can_take(grid.cells[index], digit) by {
            lemma_can_take_ignores_candidates(
                once,
                grid,
                once.cells[index],
                grid.cells[index],
                digit,
            );
        }
        assert(twice.cells[index].candidates =~= once.cells[index].candidates);
    }
    assert(twice.cells =~= once.cells);
}

} // verus!
