//! Cells of the Sudoku board: a coordinate in 1..=9 by 1..=9, a cell value
//! (empty or a digit 1..=9), and the generator's per-cell record of the
//! candidate values not yet tried at that position.

use vstd::prelude::*;

verus! {

/// The kinds of failure the library reports.  Both are recoverable: the
/// caller is told and the session goes on.  (A third conceivable failure,
/// the generator exhausting its options, is proven never to happen.)
#[derive(Copy, Clone, PartialEq, Eq, Structural, Debug)]
pub enum ErrorKind {
    /// A coordinate outside 1..=9, or a fill value outside 0..=9.
    OutOfBounds,
    /// An attempt to overwrite a cell given as a clue.
    ClueOverwrite,
}

#[derive(Clone, Debug)]
pub struct Error {
    kind: ErrorKind,
}

impl Error {
    pub closed spec fn spec_kind(&self) -> ErrorKind {
        self.kind
    }

    pub(crate) fn bounds_error() -> (e: Error)
        ensures
            e.spec_kind() == ErrorKind::OutOfBounds,
    {
        Error { kind: ErrorKind::OutOfBounds }
    }

    pub fn overwrite_error() -> (e: Error)
        ensures
            e.spec_kind() == ErrorKind::ClueOverwrite,
    {
        Error { kind: ErrorKind::ClueOverwrite }
    }

    pub fn kind(&self) -> (k: ErrorKind)
        ensures
            k == self.spec_kind(),
    {
        self.kind
    }

    /// A human-readable description of the failure.
    pub fn message(&self) -> (m: &'static str)
        ensures
            self.spec_kind() == ErrorKind::OutOfBounds ==> m@ == "Index out of bounds"@,
            self.spec_kind() == ErrorKind::ClueOverwrite ==> m@
                == "Cannot overwrite cell given as clue"@,
    {
        match self.kind {
            ErrorKind::OutOfBounds => "Index out of bounds",
            ErrorKind::ClueOverwrite => "Cannot overwrite cell given as clue",
        }
    }
}

/// The value of a cell: empty, or a digit 1..=9.
#[derive(Copy, Clone, PartialEq, Eq, Structural, Hash, Debug)]
pub enum CellVal {
    Empty,
    One,
    Two,
    Three,
    Four,
    Five,
    Six,
    Seven,
    Eight,
    Nine,
}

impl CellVal {
    /// The digit this value stands for; an empty cell counts as 0.
    pub open spec fn as_int(self) -> int {
        match self {
            CellVal::Empty => 0,
            CellVal::One => 1,
            CellVal::Two => 2,
            CellVal::Three => 3,
            CellVal::Four => 4,
            CellVal::Five => 5,
            CellVal::Six => 6,
            CellVal::Seven => 7,
            CellVal::Eight => 8,
            CellVal::Nine => 9,
        }
    }

    /// Builds the value for a digit 1..=9; any other number gives `Empty`,
    /// so 0 denotes clearing a cell.
    pub fn new(val: usize) -> (r: CellVal)
        ensures
            1 <= val <= 9 ==> r.as_int() == val,
            !(1 <= val <= 9) ==> r == CellVal::Empty,
    {
        match val {
            1 => CellVal::One,
            2 => CellVal::Two,
            3 => CellVal::Three,
            4 => CellVal::Four,
            5 => CellVal::Five,
            6 => CellVal::Six,
            7 => CellVal::Seven,
            8 => CellVal::Eight,
            9 => CellVal::Nine,
            _ => CellVal::Empty,
        }
    }

    /// The digit as a machine integer, 0 for an empty cell.
    pub fn as_usize(self) -> (r: usize)
        ensures
            r == self.as_int(),
    {
        match self {
            CellVal::Empty => 0,
            CellVal::One => 1,
            CellVal::Two => 2,
            CellVal::Three => 3,
            CellVal::Four => 4,
            CellVal::Five => 5,
            CellVal::Six => 6,
            CellVal::Seven => 7,
            CellVal::Eight => 8,
            CellVal::Nine => 9,
        }
    }
}

/// The 3x3 box (numbered 1..=9 in row-major order) that holds the position
/// `(r, c)` of a 9x9 grid.
pub open spec fn box_of(r: int, c: int) -> int {
    3 * ((r - 1) / 3) + (c - 1) / 3 + 1
}

/// A position on the board: a row and a column, each in 1..=9.
#[derive(PartialEq, Eq, Structural, Hash, Copy, Clone, Debug)]
pub struct Coord {
    i: usize,
    j: usize,
}

impl Coord {
    pub closed spec fn spec_row(&self) -> int {
        self.i as int
    }

    pub closed spec fn spec_col(&self) -> int {
        self.j as int
    }

    pub open spec fn wf(&self) -> bool {
        1 <= self.spec_row() <= 9 && 1 <= self.spec_col() <= 9
    }

    /// Builds a coordinate, rejecting a row or column outside 1..=9.
    pub fn new(i: usize, j: usize) -> (r: Result<Coord, Error>)
        ensures
            (1 <= i <= 9 && 1 <= j <= 9) <==> r is Ok,
            r is Ok ==> r->Ok_0.spec_row() == i && r->Ok_0.spec_col() == j,
            r is Err ==> r->Err_0.spec_kind() == ErrorKind::OutOfBounds,
    {
        if i > 9 || j > 9 || i == 0 || j == 0 {
            Result::Err(Error::bounds_error())
        } else {
            Result::Ok(Coord { i, j })
        }
    }

    pub fn row(&self) -> (r: usize)
        ensures
            r == self.spec_row(),
    {
        self.i
    }

    pub fn col(&self) -> (c: usize)
        ensures
            c == self.spec_col(),
    {
        self.j
    }

    /// The 3x3 box this coordinate lies in, numbered 1..=9.
    pub fn grid(&self) -> (g: usize)
        requires
            self.wf(),
        ensures
            g == box_of(self.spec_row(), self.spec_col()),
            1 <= g <= 9,
    {
        let row: usize = if self.i <= 3 {
            1
        } else if self.i <= 6 {
            4
        } else {
            7
        };

        if self.j <= 3 {
            row
        } else if self.j <= 6 {
            row + 1
        } else {
            row + 2
        }
    }
}

/// A cell as the generator sees it: its position, its value, and the ordered
/// list of candidate values not yet tried there, kept so a later backtrack
/// can resume without recomputation.
#[derive(Clone, Debug)]
pub struct Cell {
    val: CellVal,
    pos: Coord,
    remaining: Vec<CellVal>,
}

impl Cell {
    pub closed spec fn spec_val(&self) -> CellVal {
        self.val
    }

    pub closed spec fn spec_pos(&self) -> Coord {
        self.pos
    }

    pub closed spec fn spec_remaining(&self) -> Seq<CellVal> {
        self.remaining@
    }

    pub fn new(val: CellVal, pos: Coord, remaining: Vec<CellVal>) -> (c: Cell)
        ensures
            c.spec_val() == val,
            c.spec_pos() == pos,
            c.spec_remaining() == remaining@,
    {
        Cell { val, pos, remaining }
    }

    pub fn pos(&self) -> (p: &Coord)
        ensures
            *p == self.spec_pos(),
    {
        &self.pos
    }

    pub fn val(&self) -> (v: CellVal)
        ensures
            v == self.spec_val(),
    {
        self.val
    }

    pub fn remaining(&self) -> (r: &Vec<CellVal>)
        ensures
            r@ == self.spec_remaining(),
    {
        &self.remaining
    }

    /// Consumes the cell and hands back its leftover candidate list.
    pub(crate) fn into_remaining(self) -> (r: Vec<CellVal>)
        ensures
            r@ == self.spec_remaining(),
    {
        self.remaining
    }

    /// Blanks the cell's value, keeping its position.
    pub fn to_empty_cell(&mut self)
        ensures
            final(self).spec_val() == CellVal::Empty,
            final(self).spec_pos() == old(self).spec_pos(),
            final(self).spec_remaining() == old(self).spec_remaining(),
    {
        self.val = CellVal::Empty;
    }
}

} // verus!
