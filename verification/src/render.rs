//! A board as text: one string per row, one glyph per square.

use crate::board::{Board, Fields};
use vstd::prelude::*;
use vstd::string::StringExecFns;

verus! {

/// A committed queen.
pub const QUEEN: char = '♛';

/// The darker of the two empty squares.
pub const COLORED: char = '█';

/// The lighter of the two empty squares.
pub const INVISIBLE: char = '░';

/// A column that is still a candidate of a pending row.
pub const UNKNOWN: char = '?';

/// Taken on trust, not proved: `String::push` of the standard library
/// appends the character to the end of the string and changes nothing else.
pub assume_specification[ String::push ](text: &mut String, ch: char)
    ensures
        final(text)@ == old(text)@.push(ch),
;

/// The empty square of the checkerboard at this place. The pattern runs on
/// through committed and pending rows alike.
pub open spec fn shade(row: int, col: int) -> char {
    if (row + col) % 2 == 1 {
        COLORED
    } else {
        INVISIBLE
    }
}

/// The glyph of one square: the queen of a committed row, a live candidate
/// of a pending row, or the checkerboard.
pub open spec fn glyph(b: Board, row: int, col: int) -> char {
    if row < b.fixed.len() {
        if b.fixed[row] as int == col {
            QUEEN
        } else {
            shade(row, col)
        }
    } else if b.open[row - b.fixed.len()].contains(col as u8) {
        UNKNOWN
    } else {
        shade(row, col)
    }
}

/// The text of one row of the board.
pub open spec fn rendered_row(b: Board, row: int) -> Seq<char> {
    Seq::new(b.size, |col: int| glyph(b, row, col))
}

/// The text of the board: committed rows first, then the pending ones.
pub open spec fn rendered(b: Board) -> Seq<Seq<char>> {
    Seq::new(b.fixed.len() + b.open.len(), |row: int| rendered_row(b, row))
}

/// The first `count` rows written one below the other, a line feed between
/// two of them and none at the end.
pub open spec fn joined(rows: Seq<Seq<char>>, count: nat) -> Seq<char>
    decreases count,
{
    if count == 0 {
        Seq::empty()
    } else if count == 1 {
        rows[0]
    } else {
        joined(rows, (count - 1) as nat).push('\n') + rows[count - 1]
    }
}

/// The characters of each string of a list.
pub open spec fn texts(lines: Seq<String>) -> Seq<Seq<char>> {
    Seq::new(lines.len(), |i: int| lines[i]@)
}

/// Whether the column is among the candidates of the row.
fn has_column(row: &Vec<u8>, col: u8) -> (found: bool)
    ensures
        found == row@.contains(col),
{
    let mut i: usize = 0;
    while i < row.len()
        invariant
            i <= row.len(),
            forall|j: int| 0 <= j < i ==> row@[j] != col,
        decreases row.len() - i,
    {
        if row[i] == col {
            return true;
        }
        i += 1;
    }
    false
}

/// The empty square in column `col` of a row; `dark` says that the row's
/// number is odd.
fn shade_of(dark: bool, col: u8) -> (square: char)
    ensures
        forall|row: int| row >= 0 && dark == (row % 2 == 1) ==> square == shade(row, col as int),
{
    if (dark && col % 2 == 0) || (!dark && col % 2 == 1) {
        COLORED
    } else {
        INVISIBLE
    }
}

impl Fields {
    /// The text of a committed row.
    fn fixed_row_text(&self, row: usize, dark: bool) -> (text: String)
        requires
            row < self.fixed_rows.len(),
            dark == (row % 2 == 1),
        ensures
            text@ == rendered_row(self@, row as int),
    {
        let queen: u8 = self.fixed_rows[row];
        let mut text = String::new();
        let mut col: u8 = 0;
        while col < self.size
            invariant
                col <= self.size,
                row < self.fixed_rows.len(),
                queen == self.fixed_rows@[row as int],
                dark == (row % 2 == 1),
                text@.len() == col,
                forall|j: int| 0 <= j < col ==> text@[j] == glyph(self@, row as int, j),
            decreases self.size - col,
        {
            let square = if col == queen {
                QUEEN
            } else {
                shade_of(dark, col)
            };
            text.push(square);
            col += 1;
        }
        proof {
            assert(text@ =~= rendered_row(self@, row as int));
        }
        text
    }

    /// The text of a pending row.
    fn open_row_text(&self, pending: usize, dark: bool) -> (text: String)
        requires
            pending < self.open_rows.len(),
            dark == ((self.fixed_rows.len() + pending) % 2 == 1),
        ensures
            text@ == rendered_row(self@, self.fixed_rows.len() + pending),
    {
        let candidates = &self.open_rows[pending];
        let ghost row: int = self.fixed_rows.len() + pending;
        let mut text = String::new();
        let mut col: u8 = 0;
        while col < self.size
            invariant
                col <= self.size,
                row == self.fixed_rows.len() + pending,
                pending < self.open_rows.len(),
                candidates@ == self@.open[pending as int],
                dark == (row % 2 == 1),
                text@.len() == col,
                forall|j: int| 0 <= j < col ==> text@[j] == glyph(self@, row, j),
            decreases self.size - col,
        {
            let square = if has_column(candidates, col) {
                UNKNOWN
            } else {
                shade_of(dark, col)
            };
            text.push(square);
            col += 1;
        }
        proof {
            assert(text@ =~= rendered_row(self@, row));
        }
        text
    }

    /// The board as one text: its rows, each on a line of its own.
    pub fn to_text(&self) -> (text: String)
        ensures
            text@ == joined(rendered(self@), rendered(self@).len()),
    {
        let rows = self.get_rows();
        let mut text = String::new();
        let mut row: usize = 0;
        while row < rows.len()
            invariant
                row <= rows.len(),
                texts(rows@) == rendered(self@),
                text@ == joined(rendered(self@), row as nat),
            decreases rows.len() - row,
        {
            let ghost before = text@;
            if row > 0 {
                text.push('\n');
            }
            text.append(rows[row].as_str());
            proof {
                assert(texts(rows@)[row as int] == rows@[row as int]@);
                if row == 0 {
                    assert(text@ =~= rendered(self@)[0]);
                }
            }
            row += 1;
        }
        text
    }

    /// The board as text, one string of `size` glyphs per row.
    pub fn get_rows(&self) -> (rows: Vec<String>)
        ensures
            texts(rows@) == rendered(self@),
    {
        let mut rows: Vec<String> = Vec::new();
        let mut dark = false;
        let mut row: usize = 0;
        while row < self.fixed_rows.len()
            invariant
                row <= self.fixed_rows.len(),
                dark == (row % 2 == 1),
                rows@.len() == row,
                forall|j: int| 0 <= j < row ==> (#[trigger] rows@[j])@ == rendered_row(self@, j),
            decreases self.fixed_rows.len() - row,
        {
            rows.push(self.fixed_row_text(row, dark));
            dark = !dark;
            row += 1;
        }
        let mut pending: usize = 0;
        while pending < self.open_rows.len()
            invariant
                pending <= self.open_rows.len(),
                dark == ((self.fixed_rows.len() + pending) % 2 == 1),
                rows@.len() == self.fixed_rows.len() + pending,
                forall|j: int|
                    0 <= j < rows@.len() ==> (#[trigger] rows@[j])@ == rendered_row(self@, j),
            decreases self.open_rows.len() - pending,
        {
            rows.push(self.open_row_text(pending, dark));
            dark = !dark;
            pending += 1;
        }
        proof {
            assert(texts(rows@) =~= rendered(self@));
        }
        rows
    }
}

} // verus!
