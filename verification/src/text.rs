//! A position written out as a line of text, for a terminal.
use crate::state::State;
use vstd::prelude::*;
use vstd::string::StringExecFns;

verus! {

/// The mark of a cell: a blank when it is empty, `+` for side `1`, `-` for side `-1`.
pub open spec fn cell_mark(c: int) -> char {
    if c == 0 {
        ' '
    } else if c == 1 {
        '+'
    } else if c == -1 {
        '-'
    } else {
        '?'
    }
}

/// The four cells of column `(x, y)`, from the bottom up.
pub open spec fn column_text(b: Seq<int>, x: int, y: int) -> Seq<char> {
    seq![
        cell_mark(b[x + 4 * y]),
        cell_mark(b[x + 4 * y + 16]),
        cell_mark(b[x + 4 * y + 32]),
        cell_mark(b[x + 4 * y + 48]),
    ]
}

/// The digit that names row `x`, counted from one.
pub open spec fn row_digit(x: int) -> char {
    if x == 0 {
        '1'
    } else if x == 1 {
        '2'
    } else if x == 2 {
        '3'
    } else {
        '4'
    }
}

/// Row `x`: its digit, then its four columns between brackets, with bars between them.
pub open spec fn row_text(b: Seq<int>, x: int) -> Seq<char> {
    seq![row_digit(x), '('] + column_text(b, x, 0) + seq!['|'] + column_text(b, x, 1) + seq!['|']
        + column_text(b, x, 2) + seq!['|'] + column_text(b, x, 3) + seq![')']
}

/// The four rows, two blanks between them.
pub open spec fn board_text(b: Seq<int>) -> Seq<char> {
    row_text(b, 0) + seq![' ', ' '] + row_text(b, 1) + seq![' ', ' '] + row_text(b, 2) + seq![
        ' ',
        ' ',
    ] + row_text(b, 3)
}

/// The column that a typed number names: its tens digit is the row and its ones digit
/// the column within the row, both counted from one. No column for any other number.
pub open spec fn named_column(number: int) -> Option<(int, int)> {
    if 11 <= number <= 44 && 1 <= number % 10 <= 4 {
        Some((number / 10 - 1, number % 10 - 1))
    } else {
        None
    }
}

/// The column `(x, y)` that a typed number names, if it names one.
pub fn decode_move(number: i32) -> (r: Option<(usize, usize)>)
    ensures
        match r {
            Some((x, y)) => named_column(number as int) == Some((x as int, y as int)) && x < 4 && y
                < 4,
            None => named_column(number as int) is None,
        },
{
    if number < 11 || number > 44 {
        return None;
    }
    let row = number / 10 - 1;
    let column = number % 10 - 1;
    if 0 <= column && column < 4 {
        Some((row as usize, column as usize))
    } else {
        None
    }
}

/// Executable form of [`cell_mark`], as a string of one character.
fn mark_of(c: i32) -> (s: &'static str)
    ensures
        s@ == seq![cell_mark(c as int)],
{
    proof {
        reveal_strlit(" ");
        reveal_strlit("+");
        reveal_strlit("-");
        reveal_strlit("?");
    }
    if c == 0 {
        " "
    } else if c == 1 {
        "+"
    } else if c == -1 {
        "-"
    } else {
        "?"
    }
}

/// Executable form of [`row_digit`], as a string of one character.
fn digit_of(x: usize) -> (s: &'static str)
    ensures
        s@ == seq![row_digit(x as int)],
{
    proof {
        reveal_strlit("1");
        reveal_strlit("2");
        reveal_strlit("3");
        reveal_strlit("4");
    }
    if x == 0 {
        "1"
    } else if x == 1 {
        "2"
    } else if x == 2 {
        "3"
    } else {
        "4"
    }
}

impl State {
    /// Appends the four cells of column `(x, y)` to `out`.
    fn write_column(&self, out: &mut String, x: usize, y: usize)
        requires
            x < 4,
            y < 4,
        ensures
            final(out)@ == old(out)@ + column_text(self@, x as int, y as int),
    {
        out.append(mark_of(self.get(x, y, 0)));
        out.append(mark_of(self.get(x, y, 1)));
        out.append(mark_of(self.get(x, y, 2)));
        out.append(mark_of(self.get(x, y, 3)));
        assert(out@ =~= old(out)@ + column_text(self@, x as int, y as int));
    }

    /// Appends row `x` to `out`.
    fn write_row(&self, out: &mut String, x: usize)
        requires
            x < 4,
        ensures
            final(out)@ == old(out)@ + row_text(self@, x as int),
    {
        proof {
            reveal_strlit("(");
            reveal_strlit("|");
            reveal_strlit(")");
        }
        out.append(digit_of(x));
        out.append("(");
        self.write_column(out, x, 0);
        out.append("|");
        self.write_column(out, x, 1);
        out.append("|");
        self.write_column(out, x, 2);
        out.append("|");
        self.write_column(out, x, 3);
        out.append(")");
        assert(out@ =~= old(out)@ + row_text(self@, x as int));
    }

    /// The position as a line of text: for each row its number and, between brackets,
    /// its four columns from the bottom up, a blank for an empty cell, `+` for a stone
    /// of side `1` and `-` for one of side `-1`.
    pub fn to_text(&self) -> (out: String)
        ensures
            out@ == board_text(self@),
    {
        proof {
            reveal_strlit("  ");
        }
        let mut out = String::new();
        self.write_row(&mut out, 0);
        out.append("  ");
        self.write_row(&mut out, 1);
        out.append("  ");
        self.write_row(&mut out, 2);
        out.append("  ");
        self.write_row(&mut out, 3);
        assert(out@ =~= board_text(self@));
        out
    }
}

} // verus!
