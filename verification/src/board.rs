//! Cells, the grid, and the checks for validity and completeness.

use vstd::prelude::*;
use vstd::std_specs::cmp::PartialEqSpecImpl;
use vstd::string::StringExecFns;
use crate::constants::ENTRY_COUNT;
use crate::constants::NUMBER_LIMIT;
use crate::constants::SCALE_FACTOR;
use crate::grid_theorems::lemma_valid_iff_no_fault;
use crate::model::all_digits;
use crate::model::box_num_spec;
use crate::model::decimal;
use crate::model::digit_char;
use crate::model::entry_index_spec;
use crate::model::Cell;
use crate::model::Grid;

verus! {

/// The zero-based number of the box that holds the cell at the zero-based
/// `(row, col)`. Boxes are numbered from left to right, then from top to
/// bottom: box 0 is top left, box 2 top right, box 6 bottom left and box 8
/// bottom right.
pub fn box_num(row: usize, col: usize) -> (sector: usize)
    requires
        box_num_spec(row as int, col as int) <= usize::MAX,
    ensures
        sector == box_num_spec(row as int, col as int),
{
    let box_row: usize = row / SCALE_FACTOR;
    let box_col: usize = col / SCALE_FACTOR;
    SCALE_FACTOR * box_row + box_col
}

/// The position in the board of the cell at `(row, col)`.
pub fn entry_index(row: usize, col: usize) -> (index: usize)
    requires
        entry_index_spec(row as int, col as int) <= usize::MAX,
    ensures
        index == entry_index_spec(row as int, col as int),
{
    row * NUMBER_LIMIT + col
}

/// The text of one decimal digit.
fn digit_text(digit: usize) -> (text: &'static str)
    requires
        digit < 10,
    ensures
        text@ == seq![digit_char(digit as int)],
{
    proof {
        reveal_strlit("0");
        reveal_strlit("1");
        reveal_strlit("2");
        reveal_strlit("3");
        reveal_strlit("4");
        reveal_strlit("5");
        reveal_strlit("6");
        reveal_strlit("7");
        reveal_strlit("8");
        reveal_strlit("9");
    }
    let text: &'static str = match digit {
        0 => "0",
        1 => "1",
        2 => "2",
        3 => "3",
        4 => "4",
        5 => "5",
        6 => "6",
        7 => "7",
        8 => "8",
        _ => "9",
    };
    text
}

/// Writes `number` in decimal at the end of `text`.
fn append_decimal(text: &mut String, number: usize)
    ensures
        final(text)@ == old(text)@ + decimal(number as nat),
    decreases number,
{
    if number >= 10 {
        append_decimal(text, number / 10);
    }
    text.append(digit_text(number % 10));
}

/// One cell of the grid: the digit placed in it (0 while it is blank), where it
/// lies, and which digits are still open to it.
///
/// `options[d - 1]` tells whether the digit `d` is still a candidate.
#[derive(Debug, Copy, Clone)]
pub struct Entry {
    pub value: usize,
    pub row: usize,
    pub col: usize,
    pub sector: usize,
    pub options: [bool; NUMBER_LIMIT],
}

impl View for Entry {
    type V = Cell;

    open spec fn view(&self) -> Cell {
        Cell {
            value: self.value as nat,
            row: self.row as nat,
            col: self.col as nat,
            sector: self.sector as nat,
            candidates: Set::new(
                |digit: int| 1 <= digit <= NUMBER_LIMIT && self.options[digit - 1],
            ),
        }
    }
}

impl Entry {
    /// Sets the cell up anew: the given digit and coordinates, the box that
    /// follows from them, and every digit a candidate.
    pub fn init(&mut self, row: usize, col: usize, value: usize)
        requires
            box_num_spec(row as int, col as int) <= usize::MAX,
        ensures
            final(self)@ == Cell::fresh(row as nat, col as nat, value as nat),
    {
        self.value = value;
        self.row = row;
        self.col = col;
        self.sector = box_num(row, col);
        self.options = [true; NUMBER_LIMIT];
        assert(self@.candidates =~= all_digits());
    }

    /// Whether every field is in range and the cell is not dead.
    pub fn is_valid(&self) -> (valid: bool)
        ensures
            valid == self@.well_formed(),
    {
        if self.value > NUMBER_LIMIT {
            return false;
        }
        if self.row >= NUMBER_LIMIT {
            return false;
        }
        if self.col >= NUMBER_LIMIT {
            return false;
        }
        if self.sector >= NUMBER_LIMIT {
            return false;
        }
        if !self.has_options() {
            return false;
        }
        true
    }

    /// Whether the cell holds a digit or has a candidate left. The only cell
    /// without options is a blank one with no candidate.
    pub fn has_options(&self) -> (viable: bool)
        ensures
            viable == self@.has_options(),
    {
        if self.value > 0 && self.value <= NUMBER_LIMIT {
            return true;
        }
        let mut index: usize = 0;
        while index < NUMBER_LIMIT
            invariant
                index <= NUMBER_LIMIT,
                !self@.is_assigned(),
                forall|digit: int| 1 <= digit <= index ==> !self@.candidates.contains(digit),
            decreases NUMBER_LIMIT - index,
        {
            if self.options[index] {
                assert(self@.candidates.contains(index + 1));
                return true;
            }
            index += 1;
        }
        false
    }
}

/// Two cells are equal if they stand for the same slot with the same digit.
/// The candidates are not compared.
impl PartialEq for Entry {
    fn eq(&self, other: &Self) -> (equal: bool) {
        self.value == other.value && self.row == other.row && self.col == other.col
            && self.sector == other.sector
    }
}

impl PartialEqSpecImpl for Entry {
    open spec fn obeys_eq_spec() -> bool {
        true
    }

    open spec fn eq_spec(&self, other: &Self) -> bool {
        self@.same_slot(other@)
    }
}

/// What can be wrong with a cell.
#[derive(Debug, Copy, Clone, PartialEq, Eq, Structural)]
pub enum Fault {
    /// A field is out of range, or the cell is blank and has no candidate.
    Malformed,
    /// An earlier cell of the same row holds the same digit.
    RowRepeat,
    /// An earlier cell of the same column holds the same digit.
    ColumnRepeat,
    /// An earlier cell of the same box holds the same digit.
    SectorRepeat,
}

/// A cell that breaks the rules: its position in scan order, and what is wrong
/// with it.
#[derive(Debug, Copy, Clone, PartialEq, Eq, Structural)]
pub struct Violation {
    pub index: usize,
    pub fault: Fault,
}

/// The grid: its 81 cells in row-major order.
///
/// In a board made by `new_from_array` every cell is in place: it records the
/// row, the column and the box of the position where it stands. The search
/// relies on that. The fields are open, so a caller can move cells about;
/// `is_in_place` tells whether the board is still in order.
#[derive(Debug, Copy, Clone)]
pub struct Board {
    pub entries: [Entry; ENTRY_COUNT],
}

impl View for Board {
    type V = Grid;

    open spec fn view(&self) -> Grid {
        Grid { cells: Seq::new(ENTRY_COUNT as nat, |index: int| self.entries[index]@) }
    }
}

impl Board {
    /// The board that a matrix of digits describes, 0 for a blank cell. The
    /// digits are taken as they are: whether the board is valid is for
    /// `is_valid` to say.
    pub fn new_from_array(arr: &[[usize; NUMBER_LIMIT]; NUMBER_LIMIT]) -> (board: Board)
        ensures
            board@ == Grid::from_matrix(*arr),
            board@.in_place(),
    {
        let mut board = Board {
            entries: [Entry { value: 0, row: 0, col: 0, sector: 0, options: [true; NUMBER_LIMIT] };
                ENTRY_COUNT],
        };
        let mut row: usize = 0;
        let mut col: usize = 0;
        let mut index: usize = 0;
        while index < ENTRY_COUNT
            invariant
                index <= ENTRY_COUNT,
                col < NUMBER_LIMIT,
                index == entry_index_spec(row as int, col as int),
                forall|k: int|
                    0 <= k < index ==> (#[trigger] board.entries[k])@ == Cell::fresh(
                        (k / NUMBER_LIMIT as int) as nat,
                        (k % NUMBER_LIMIT as int) as nat,
                        arr[k / NUMBER_LIMIT as int][k % NUMBER_LIMIT as int] as nat,
                    ),
            decreases ENTRY_COUNT - index,
        {
            let value: usize = arr[row][col];
            board.entries[index].init(row, col, value);
            index += 1;
            col += 1;
            if col >= NUMBER_LIMIT {
                col = 0;
                row += 1;
            }
        }
        assert(board@.cells =~= Grid::from_matrix(*arr).cells);
        board
    }

    /// Whether every cell records the coordinates and the box of the place
    /// where it stands, as the search requires.
    pub fn is_in_place(&self) -> (in_place: bool)
        ensures
            in_place == self@.in_place(),
    {
        let mut index: usize = 0;
        while index < ENTRY_COUNT
            invariant
                index <= ENTRY_COUNT,
                forall|k: int|
                    0 <= k < index ==> {
                        &&& (#[trigger] self@.cells[k]).row == k / NUMBER_LIMIT as int
                        &&& self@.cells[k].col == k % NUMBER_LIMIT as int
                        &&& self@.cells[k].sector == box_num_spec(
                            k / NUMBER_LIMIT as int,
                            k % NUMBER_LIMIT as int,
                        )
                    },
            decreases ENTRY_COUNT - index,
        {
            let entry: &Entry = &self.entries[index];
            let row: usize = index / NUMBER_LIMIT;
            let col: usize = index % NUMBER_LIMIT;
            if entry.row != row || entry.col != col || entry.sector != box_num(row, col) {
                assert(entry@ == self@.cells[index as int]);
                return false;
            }
            index += 1;
        }
        true
    }

    /// The values of the board as text: one line for each row, each value
    /// followed by a comma and a space.
    pub fn to_text(&self) -> (text: String)
        ensures
            text@ == self@.text(),
    {
        let mut text: String = String::new();
        let mut index: usize = 0;
        while index < ENTRY_COUNT
            invariant
                index <= ENTRY_COUNT,
                text@ == self@.text_before(index as int),
            decreases ENTRY_COUNT - index,
        {
            let entry: &Entry = &self.entries[index];
            append_decimal(&mut text, entry.value);
            proof {
                reveal_strlit(", ");
                reveal_strlit("\n");
            }
            text.append(", ");
            index += 1;
            if index % NUMBER_LIMIT == 0 {
                text.append("\n");
            }
        }
        text
    }

    /// One of the cells before `upto` holds `digit` in the row `row`.
    spec fn seen_in_row(&self, upto: int, row: int, digit: int) -> bool {
        exists|k: int|
            0 <= k < upto && (#[trigger] self@.cells[k]).value == digit && self@.cells[k].row
                == row
    }

    /// One of the cells before `upto` holds `digit` in the column `col`.
    spec fn seen_in_col(&self, upto: int, col: int, digit: int) -> bool {
        exists|k: int|
            0 <= k < upto && (#[trigger] self@.cells[k]).value == digit && self@.cells[k].col
                == col
    }

    /// One of the cells before `upto` holds `digit` in the box `sector`.
    spec fn seen_in_sector(&self, upto: int, sector: int, digit: int) -> bool {
        exists|k: int|
            0 <= k < upto && (#[trigger] self@.cells[k]).value == digit
                && self@.cells[k].sector == sector
    }

    /// Looks for the first cell, in scan order, that breaks the rules: one
    /// that is malformed, or that repeats a digit which an earlier cell holds
    /// in its row, its column or its box. A valid board has none.
    pub fn find_violation(&self) -> (found: Option<Violation>)
        ensures
            found is None <==> self@.valid(),
            match found {
                Some(violation) => {
                    &&& violation.index < ENTRY_COUNT
                    &&& self@.fault_at(violation.index as int) == Some(violation.fault)
                    &&& forall|earlier: int|
                        0 <= earlier < violation.index ==> #[trigger] self@.fault_at(earlier)
                            is None
                },
                None => true,
            },
    {
        proof {
            lemma_valid_iff_no_fault(self@);
        }
        let mut rows: [[bool; NUMBER_LIMIT]; NUMBER_LIMIT] = [[false; NUMBER_LIMIT]; NUMBER_LIMIT];
        let mut cols: [[bool; NUMBER_LIMIT]; NUMBER_LIMIT] = [[false; NUMBER_LIMIT]; NUMBER_LIMIT];
        let mut sectors: [[bool; NUMBER_LIMIT]; NUMBER_LIMIT] = [[false; NUMBER_LIMIT];
            NUMBER_LIMIT];
        let mut index: usize = 0;
        while index < ENTRY_COUNT
            invariant
                index <= ENTRY_COUNT,
                self@.valid() <==> forall|k: int|
                    0 <= k < ENTRY_COUNT ==> #[trigger] self@.fault_at(k) is None,
                forall|k: int| 0 <= k < index ==> #[trigger] self@.fault_at(k) is None,
                forall|unit: int, slot: int|
                    0 <= unit < NUMBER_LIMIT && 0 <= slot < NUMBER_LIMIT ==> (
                    #[trigger] rows[unit][slot] <==> self.seen_in_row(
                        index as int,
                        unit,
                        slot + 1,
                    )),
                forall|unit: int, slot: int|
                    0 <= unit < NUMBER_LIMIT && 0 <= slot < NUMBER_LIMIT ==> (
                    #[trigger] cols[unit][slot] <==> self.seen_in_col(
                        index as int,
                        unit,
                        slot + 1,
                    )),
                forall|unit: int, slot: int|
                    0 <= unit < NUMBER_LIMIT && 0 <= slot < NUMBER_LIMIT ==> (
                    #[trigger] sectors[unit][slot] <==> self.seen_in_sector(
                        index as int,
                        unit,
                        slot + 1,
                    )),
            decreases ENTRY_COUNT - index,
        {
            let entry: &Entry = &self.entries[index];
            assert(entry@ == self@.cells[index as int]);
            if !entry.is_valid() {
                return Some(Violation { index, fault: Fault::Malformed });
            }
            if entry.value != 0 {
                let slot: usize = entry.value - 1;
                if rows[entry.row][slot] {
                    return Some(Violation { index, fault: Fault::RowRepeat });
                }
                rows[entry.row][slot] = true;
                if cols[entry.col][slot] {
                    return Some(Violation { index, fault: Fault::ColumnRepeat });
                }
                cols[entry.col][slot] = true;
                if sectors[entry.sector][slot] {
                    return Some(Violation { index, fault: Fault::SectorRepeat });
                }
                sectors[entry.sector][slot] = true;
            }
            index += 1;
        }
        None
    }

    /// Whether the grid obeys the rules of Sudoku as far as it is filled:
    /// every cell is well formed and no digit occurs twice in a row, a column
    /// or a box. The candidates are not examined beyond what well-formedness
    /// asks of them.
    pub fn is_valid(&self) -> (valid: bool)
        ensures
            valid == self@.valid(),
    {
        self.find_violation().is_none()
    }

    /// Whether every cell holds a digit and the grid is valid.
    pub fn is_solved(&self) -> (solved: bool)
        ensures
            solved == self@.solved(),
    {
        let mut index: usize = 0;
        while index < ENTRY_COUNT
            invariant
                index <= ENTRY_COUNT,
                forall|k: int| 0 <= k < index ==> (#[trigger] self@.cells[k]).value != 0,
            decreases ENTRY_COUNT - index,
        {
            if self.entries[index].value == 0 {
                assert(self@.cells[index as int].value == 0);
                return false;
            }
            index += 1;
        }
        self.is_valid()
    }
}

} // verus!
