//! The mathematical model of the grid.
//!
//! A [`Cell`] is what a cell of the board is taken to mean: natural numbers
//! for its digit and coordinates, and a set of digits for its candidates. A
//! [`Grid`] is the sequence of the cells in scan order. Everything the
//! executable code promises is stated over these two types.

use vstd::prelude::*;
use crate::board::Fault;
use crate::constants::ENTRY_COUNT;
use crate::constants::NUMBER_LIMIT;
use crate::constants::SCALE_FACTOR;

verus! {

/// The box that holds the cell at `(row, col)`. Boxes are numbered from left to
/// right, then from top to bottom.
pub open spec fn box_num_spec(row: int, col: int) -> int {
    SCALE_FACTOR * (row / SCALE_FACTOR as int) + col / SCALE_FACTOR as int
}

/// The position of the cell at `(row, col)` in row-major order.
pub open spec fn entry_index_spec(row: int, col: int) -> int {
    row * NUMBER_LIMIT + col
}

/// The set of all digits, `1..=9`.
pub open spec fn all_digits() -> Set<int> {
    Set::new(|digit: int| 1 <= digit <= NUMBER_LIMIT)
}

/// The character that stands for a digit `0..=9`.
pub open spec fn digit_char(digit: int) -> char {
    if digit == 0 {
        '0'
    } else if digit == 1 {
        '1'
    } else if digit == 2 {
        '2'
    } else if digit == 3 {
        '3'
    } else if digit == 4 {
        '4'
    } else if digit == 5 {
        '5'
    } else if digit == 6 {
        '6'
    } else if digit == 7 {
        '7'
    } else if digit == 8 {
        '8'
    } else {
        '9'
    }
}

/// A number written in decimal, without leading zeros.
pub open spec fn decimal(number: nat) -> Seq<char>
    decreases number,
{
    if number < 10 {
        seq![digit_char(number as int)]
    } else {
        decimal(number / 10) + seq![digit_char((number % 10) as int)]
    }
}

/// One cell of the grid. The value 0 stands for a blank cell.
pub struct Cell {
    pub value: nat,
    pub row: nat,
    pub col: nat,
    pub sector: nat,
    pub candidates: Set<int>,
}

impl Cell {
    /// The cell as it is first set up: the given digit and coordinates, the
    /// box that follows from them, and every digit a candidate.
    pub open spec fn fresh(row: nat, col: nat, value: nat) -> Cell {
        Cell {
            value,
            row,
            col,
            sector: box_num_spec(row as int, col as int) as nat,
            candidates: all_digits(),
        }
    }

    /// A digit is placed in the cell.
    pub open spec fn is_assigned(self) -> bool {
        1 <= self.value <= NUMBER_LIMIT
    }

    /// Some digit is a candidate of the cell.
    pub open spec fn has_candidate(self) -> bool {
        exists|digit: int| 1 <= digit <= NUMBER_LIMIT && self.candidates.contains(digit)
    }

    /// The cell holds a digit or can still take one. Only a dead cell, blank
    /// and without a candidate, has no options.
    pub open spec fn has_options(self) -> bool {
        self.is_assigned() || self.has_candidate()
    }

    /// Every field is in range and the cell is not dead.
    pub open spec fn well_formed(self) -> bool {
        &&& self.value <= NUMBER_LIMIT
        &&& self.row < NUMBER_LIMIT
        &&& self.col < NUMBER_LIMIT
        &&& self.sector < NUMBER_LIMIT
        &&& self.has_options()
    }

    /// The two cells stand for the same slot with the same digit: value and
    /// coordinates agree. The candidates take no part in this.
    pub open spec fn same_slot(self, other: Cell) -> bool {
        &&& self.value == other.value
        &&& self.row == other.row
        &&& self.col == other.col
        &&& self.sector == other.sector
    }

    /// The two cells lie in a common row, column or box.
    pub open spec fn shares_unit(self, other: Cell) -> bool {
        self.row == other.row || self.col == other.col || self.sector == other.sector
    }

    /// This cell forbids `digit` to `other`: it holds the digit, shares a unit
    /// with `other`, and is not `other` itself.
    pub open spec fn blocks(self, other: Cell, digit: int) -> bool {
        self.shares_unit(other) && self.value == digit && !self.same_slot(other)
    }

    /// How many of the digits `1..=limit` are candidates.
    pub open spec fn candidates_up_to(self, limit: int) -> nat
        decreases limit,
    {
        if limit <= 0 {
            0
        } else if self.candidates.contains(limit) {
            self.candidates_up_to(limit - 1) + 1
        } else {
            self.candidates_up_to(limit - 1)
        }
    }

    /// How many digits are candidates.
    pub open spec fn candidate_count(self) -> nat {
        self.candidates_up_to(NUMBER_LIMIT as int)
    }

    /// The cell with `digit` placed in it.
    pub open spec fn with_value(self, digit: nat) -> Cell {
        Cell { value: digit, ..self }
    }

    /// The cell with its candidates replaced.
    pub open spec fn with_candidates(self, candidates: Set<int>) -> Cell {
        Cell { candidates, ..self }
    }
}

/// The cells of a grid in scan order.
pub struct Grid {
    pub cells: Seq<Cell>,
}

/// Layout.
impl Grid {
    /// The grid that a matrix of digits describes: row after row, each cell
    /// fresh.
    pub open spec fn from_matrix(matrix: [[usize; NUMBER_LIMIT]; NUMBER_LIMIT]) -> Grid {
        Grid {
            cells: Seq::new(
                ENTRY_COUNT as nat,
                |index: int|
                    Cell::fresh(
                        (index / NUMBER_LIMIT as int) as nat,
                        (index % NUMBER_LIMIT as int) as nat,
                        matrix[index / NUMBER_LIMIT as int][index % NUMBER_LIMIT as int] as nat,
                    ),
            ),
        }
    }

    /// The grid has 81 cells, and each records the coordinates and the box of
    /// the place where it stands.
    pub open spec fn in_place(self) -> bool {
        &&& self.cells.len() == ENTRY_COUNT
        &&& forall|index: int|
            0 <= index < self.cells.len() ==> {
                &&& (#[trigger] self.cells[index]).row == index / NUMBER_LIMIT as int
                &&& self.cells[index].col == index % NUMBER_LIMIT as int
                &&& self.cells[index].sector == box_num_spec(
                    index / NUMBER_LIMIT as int,
                    index % NUMBER_LIMIT as int,
                )
            }
    }

    /// The values of the first `upto` cells as text: each in decimal and
    /// followed by a comma and a space, with a line feed after every ninth.
    pub open spec fn text_before(self, upto: int) -> Seq<char>
        decreases upto,
    {
        if upto <= 0 {
            Seq::empty()
        } else {
            let cell_text = self.text_before(upto - 1) + decimal(self.cells[upto - 1].value)
                + seq![',', ' '];
            if upto % NUMBER_LIMIT as int == 0 {
                cell_text + seq!['\n']
            } else {
                cell_text
            }
        }
    }

    /// The values of the grid as text, one line for each row.
    pub open spec fn text(self) -> Seq<char> {
        self.text_before(self.cells.len() as int)
    }
}

/// The rules.
impl Grid {
    /// The cells at `first` and `second` hold the same digit and lie in a
    /// common row, column or box.
    pub open spec fn collides(self, first: int, second: int) -> bool {
        &&& self.cells[first].value != 0
        &&& self.cells[first].value == self.cells[second].value
        &&& self.cells[first].shares_unit(self.cells[second])
    }

    /// The cell at `index` collides with no other cell.
    pub open spec fn fits(self, index: int) -> bool {
        forall|other: int|
            0 <= other < self.cells.len() && other != index ==> !#[trigger] self.collides(
                index,
                other,
            )
    }

    /// Every cell is well formed, and no digit stands twice in a row, a column
    /// or a box. Blank cells never collide.
    pub open spec fn valid(self) -> bool {
        &&& forall|index: int|
            0 <= index < self.cells.len() ==> (#[trigger] self.cells[index]).well_formed()
        &&& forall|first: int, second: int|
            0 <= first < self.cells.len() && 0 <= second < self.cells.len() && first != second
                ==> !#[trigger] self.collides(first, second)
    }

    /// No cell is blank.
    pub open spec fn filled(self) -> bool {
        forall|index: int|
            0 <= index < self.cells.len() ==> (#[trigger] self.cells[index]).value != 0
    }

    /// The grid is valid and no cell is blank.
    pub open spec fn solved(self) -> bool {
        self.filled() && self.valid()
    }

    /// One of the cells before `index` holds the digit of the cell at `index`
    /// in the same row.
    pub open spec fn repeats_in_row(self, index: int) -> bool {
        exists|earlier: int|
            0 <= earlier < index && (#[trigger] self.cells[earlier]).value
                == self.cells[index].value && self.cells[earlier].row == self.cells[index].row
    }

    /// One of the cells before `index` holds the digit of the cell at `index`
    /// in the same column.
    pub open spec fn repeats_in_col(self, index: int) -> bool {
        exists|earlier: int|
            0 <= earlier < index && (#[trigger] self.cells[earlier]).value
                == self.cells[index].value && self.cells[earlier].col == self.cells[index].col
    }

    /// One of the cells before `index` holds the digit of the cell at `index`
    /// in the same box.
    pub open spec fn repeats_in_sector(self, index: int) -> bool {
        exists|earlier: int|
            0 <= earlier < index && (#[trigger] self.cells[earlier]).value
                == self.cells[index].value && self.cells[earlier].sector
                == self.cells[index].sector
    }

    /// What is wrong with the cell at `index`, if anything, given the cells
    /// before it: it is malformed, or it repeats a digit of its row, of its
    /// column or of its box, looked for in this order.
    pub open spec fn fault_at(self, index: int) -> Option<Fault> {
        if !self.cells[index].well_formed() {
            Some(Fault::Malformed)
        } else if self.cells[index].value == 0 {
            None
        } else if self.repeats_in_row(index) {
            Some(Fault::RowRepeat)
        } else if self.repeats_in_col(index) {
            Some(Fault::ColumnRepeat)
        } else if self.repeats_in_sector(index) {
            Some(Fault::SectorRepeat)
        } else {
            None
        }
    }
}

/// Propagation.
impl Grid {
    /// No cell of the grid forbids `digit` to `cell`.
    pub open spec fn can_take(self, cell: Cell, digit: int) -> bool {
        forall|index: int|
            0 <= index < self.cells.len() ==> !(#[trigger] self.cells[index]).blocks(cell, digit)
    }

    /// The grid after one pass of propagation: each cell keeps the candidates
    /// that no cell of the grid forbids to it. Values and coordinates stay.
    pub open spec fn collapsed(self) -> Grid {
        Grid {
            cells: Seq::new(
                self.cells.len(),
                |index: int|
                    self.cells[index].with_candidates(
                        self.cells[index].candidates.filter(
                            |digit: int| self.can_take(self.cells[index], digit),
                        ),
                    ),
            ),
        }
    }
}

/// Search.
impl Grid {
    /// How many of the first `upto` cells are blank.
    pub open spec fn blanks_before(self, upto: int) -> nat
        decreases upto,
    {
        if upto <= 0 {
            0
        } else if self.cells[upto - 1].value == 0 {
            self.blanks_before(upto - 1) + 1
        } else {
            self.blanks_before(upto - 1)
        }
    }

    /// How many cells are blank.
    pub open spec fn blank_count(self) -> nat {
        self.blanks_before(self.cells.len() as int)
    }

    /// The cell at `index` is blank, no blank cell has fewer candidates, and
    /// no blank cell before it has as few.
    pub open spec fn is_guess_target(self, index: int) -> bool {
        &&& 0 <= index < self.cells.len()
        &&& self.cells[index].value == 0
        &&& forall|other: int|
            0 <= other < self.cells.len() && (#[trigger] self.cells[other]).value == 0 ==> {
                ||| self.cells[index].candidate_count() < self.cells[other].candidate_count()
                ||| self.cells[index].candidate_count() == self.cells[other].candidate_count()
                    && index <= other
            }
    }

    /// The cell on which the search guesses: the first of the blank cells with
    /// the fewest candidates.
    pub open spec fn guess_target(self) -> int {
        choose|index: int| self.is_guess_target(index)
    }

    /// The grid with `digit` placed in the cell at `index`.
    pub open spec fn assign(self, index: int, digit: nat) -> Grid {
        Grid { cells: self.cells.update(index, self.cells[index].with_value(digit)) }
    }

    /// What the search finds from this grid: the first full grid that it
    /// reaches, or nothing.
    ///
    /// The grid is first narrowed by one pass of propagation. If no cell is
    /// blank then, that grid is the result. Else the candidates of the guess
    /// target are tried in rising order, and the first that leads to a result
    /// decides.
    pub open spec fn search(self) -> Option<Grid>
        decreases self.blank_count(), 1nat, 0nat,
    {
        let narrowed = self.collapsed();
        if narrowed.filled() {
            Some(narrowed)
        } else {
            proof {
                lemma_blanks_follow_values(self, narrowed, self.cells.len() as int);
            }
            narrowed.try_digits(narrowed.guess_target(), 1)
        }
    }

    /// What the search finds when it guesses `digit`, and after it each greater
    /// digit, for the blank cell at `target`.
    pub open spec fn try_digits(self, target: int, digit: int) -> Option<Grid>
        decreases self.blank_count(), 0nat, NUMBER_LIMIT + 1 - digit,
    {
        if !(0 <= target < self.cells.len() && self.cells[target].value == 0) {
            None
        } else if !(1 <= digit <= NUMBER_LIMIT) {
            None
        } else if self.cells[target].candidates.contains(digit) {
            proof {
                lemma_assign_fills_blank(self, target, digit as nat, self.cells.len() as int);
            }
            match self.assign(target, digit as nat).search() {
                Some(found) => Some(found),
                None => self.try_digits(target, digit + 1),
            }
        } else {
            self.try_digits(target, digit + 1)
        }
    }

    /// The cell at `index` of this grid completes the cell of `start` there:
    /// it has the same coordinates, and it holds the digit of that cell or,
    /// where that cell is blank, one of its candidates that collides with no
    /// other cell of this grid.
    pub open spec fn completes_at(self, start: Grid, index: int) -> bool {
        &&& self.cells[index].row == start.cells[index].row
        &&& self.cells[index].col == start.cells[index].col
        &&& self.cells[index].sector == start.cells[index].sector
        &&& if start.cells[index].value != 0 {
            self.cells[index].value == start.cells[index].value
        } else {
            &&& self.cells[index].is_assigned()
            &&& start.cells[index].candidates.contains(self.cells[index].value as int)
            &&& self.fits(index)
        }
    }

    /// This grid is a completion of `start`: it is full, it keeps every digit
    /// and all coordinates of `start`, and each cell that was blank in `start`
    /// holds one of its candidates there and collides with no other cell.
    ///
    /// Digits that `start` holds already are taken as they are, whether they
    /// collide among themselves or not.
    pub open spec fn completes(self, start: Grid) -> bool {
        &&& self.cells.len() == start.cells.len()
        &&& forall|index: int|
            #![trigger self.completes_at(start, index)]
            #![trigger self.cells[index]]
            0 <= index < self.cells.len() ==> self.completes_at(start, index)
    }

    /// The candidates of this grid are those digits among the candidates of
    /// `start` that no cell of this grid forbids.
    pub open spec fn keeps_free_candidates(self, start: Grid) -> bool {
        forall|index: int, digit: int|
            0 <= index < self.cells.len() && 1 <= digit <= NUMBER_LIMIT ==> (
            #[trigger] self.cells[index].candidates.contains(digit)
                <==> start.cells[index].candidates.contains(digit) && self.can_take(
                self.cells[index],
                digit,
            ))
    }
}

/// Two grids that agree on the values of their first `upto` cells have as many
/// blanks among them.
pub proof fn lemma_blanks_follow_values(first: Grid, second: Grid, upto: int)
    requires
        upto <= first.cells.len(),
        upto <= second.cells.len(),
        forall|index: int|
            0 <= index < upto ==> (#[trigger] first.cells[index]).value
                == second.cells[index].value,
    ensures
        first.blanks_before(upto) == second.blanks_before(upto),
    decreases upto,
{
    if upto > 0 {
        lemma_blanks_follow_values(first, second, upto - 1);
    }
}

/// Placing a digit in a blank cell leaves one blank fewer among the cells that
/// reach past it, and as many among those that do not.
pub proof fn lemma_assign_fills_blank(grid: Grid, target: int, digit: nat, upto: int)
    requires
        0 <= target < grid.cells.len(),
        grid.cells[target].value == 0,
        digit != 0,
        upto <= grid.cells.len(),
    ensures
        target < upto ==> grid.assign(target, digit).blanks_before(upto) + 1
            == grid.blanks_before(upto),
        target >= upto ==> grid.assign(target, digit).blanks_before(upto) == grid.blanks_before(
            upto,
        ),
    decreases upto,
{
    if upto > 0 {
        lemma_assign_fills_blank(grid, target, digit, upto - 1);
    }
}

} // verus!
