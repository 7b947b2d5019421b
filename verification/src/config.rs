//! Loading a world from text: one character per cell, one line per row.

use vstd::prelude::*;
use vstd::std_specs::iter::IteratorSpec;
use vstd::string::*;
use crate::cell::CellType;
use crate::loc::{succ, Loc};
use crate::grid::written;
use crate::world::World;

verus! {

broadcast use vstd::string::group_string_axioms;

/// Why a configuration was refused: a character that stands for nothing,
/// and the row and column that the loader had reached.
#[derive(PartialEq, Eq, Structural, Clone, Copy, Debug)]
pub struct ParseError {
    pub character: char,
    pub row: i64,
    pub col: i64,
}

/// The ten decimal digits.
pub open spec fn digit(d: nat) -> char {
    seq!['0', '1', '2', '3', '4', '5', '6', '7', '8', '9'][d as int]
}

/// A natural number in decimal, without leading zeros.
pub open spec fn digits(n: nat) -> Seq<char>
    decreases n,
{
    if n < 10 {
        seq![digit(n)]
    } else {
        digits(n / 10).push(digit(n % 10))
    }
}

/// An integer in decimal, with a minus sign where it is negative.
pub open spec fn decimal(x: int) -> Seq<char> {
    if x < 0 {
        seq!['-'] + digits((-x) as nat)
    } else {
        digits(x as nat)
    }
}

/// Formats the report of an invalid character with `format!`. The contract
/// relies on how the standard library displays its arguments: a `char` as
/// itself, an `i64` in decimal with a minus sign where it is negative.
#[verifier::external_body]
fn format_invalid_char(character: char, row: i64, col: i64) -> (text: String)
    ensures
        text@ == "Invalid char '"@ + seq![character] + "' at "@ + decimal(row as int) + ", "@
            + decimal(col as int),
{
    format!("Invalid char '{}' at {}, {}", character, row, col)
}

impl ParseError {
    /// The text of the report: the character between quotes, then the row
    /// and the column.
    pub open spec fn message_text(self) -> Seq<char> {
        "Invalid char '"@ + seq![self.character] + "' at "@ + decimal(self.row as int) + ", "@
            + decimal(self.col as int)
    }

    /// The report as a string, such as `Invalid char 'X' at 0, 1`.
    pub fn message(&self) -> (text: String)
        ensures
            text@ == self.message_text(),
    {
        format_invalid_char(self.character, self.row, self.col)
    }
}

/// Whether a character may occur in a configuration: the two markers, the
/// line feed and the carriage return.
pub open spec fn accepted(c: char, dead_char: char, alive_char: char) -> bool {
    c == dead_char || c == alive_char || c == '\n' || c == '\r'
}

/// Where the loader stands after one more character. A marker moves it one
/// column on, a line feed to the start of the next row; a character that
/// is both a marker and a line feed counts as the marker.
pub open spec fn advanced(at: Loc, c: char, dead_char: char, alive_char: char) -> Loc {
    if c == dead_char || c == alive_char {
        Loc { row: at.row, col: succ(at.col) }
    } else if c == '\n' {
        Loc { row: succ(at.row), col: 0 }
    } else {
        at
    }
}

/// Where the loader stands after the first `n` characters of a text.
pub open spec fn cursor(text: Seq<char>, dead_char: char, alive_char: char, n: int) -> Loc
    decreases n,
{
    if n <= 0 {
        Loc { row: 0, col: 0 }
    } else {
        advanced(cursor(text, dead_char, alive_char, n - 1), text[n - 1], dead_char, alive_char)
    }
}

/// The grid that the first `n` characters of a text describe. The dead
/// marker writes a dead cell where the loader stands, the alive marker a red
/// one; a character that is both counts as the dead marker.
pub open spec fn loaded(text: Seq<char>, dead_char: char, alive_char: char, n: int) -> Map<
    Loc,
    CellType,
>
    decreases n,
{
    if n <= 0 {
        Map::empty()
    } else {
        let grid = loaded(text, dead_char, alive_char, n - 1);
        let at = cursor(text, dead_char, alive_char, n - 1);
        if text[n - 1] == dead_char {
            written(grid, at, CellType::Dead)
        } else if text[n - 1] == alive_char {
            written(grid, at, CellType::Red)
        } else {
            grid
        }
    }
}

/// The number of characters of a text before the first one that is not
/// accepted; the length of the text where all are.
pub open spec fn accepted_len(text: Seq<char>, dead_char: char, alive_char: char) -> int
    decreases text.len(),
{
    if text.len() == 0 {
        0
    } else if !accepted(text[0], dead_char, alive_char) {
        0
    } else {
        1 + accepted_len(text.drop_first(), dead_char, alive_char)
    }
}

/// The error for a text whose first `n` characters are accepted and whose
/// next one is not.
pub open spec fn rejection(text: Seq<char>, dead_char: char, alive_char: char, n: int) -> ParseError {
    ParseError {
        character: text[n],
        row: cursor(text, dead_char, alive_char, n).row,
        col: cursor(text, dead_char, alive_char, n).col,
    }
}

/// The accepted length is the index of the first character that is not
/// accepted, and the length of the text where there is none.
pub proof fn lemma_accepted_len(text: Seq<char>, dead_char: char, alive_char: char, n: int)
    requires
        0 <= n <= text.len(),
        forall|i: int| 0 <= i < n ==> accepted(#[trigger] text[i], dead_char, alive_char),
        n < text.len() ==> !accepted(text[n], dead_char, alive_char),
    ensures
        accepted_len(text, dead_char, alive_char) == n,
    decreases n,
{
    if n > 0 {
        let rest = text.drop_first();
        assert forall|i: int| 0 <= i < n - 1 implies accepted(
            #[trigger] rest[i],
            dead_char,
            alive_char,
        ) by {
            assert(rest[i] == text[i + 1]);
        }
        if n < text.len() {
            assert(rest[n - 1] == text[n]);
        }
        lemma_accepted_len(rest, dead_char, alive_char, n - 1);
    }
}

impl World {
    /// Builds a world from a text in which `dead_char` and `alive_char`
    /// mark the cells of a row and a line feed ends the row. Carriage
    /// returns are skipped. The cells are staged in the buffer under
    /// construction: a call of `swap_buffers_and_clear` makes them current.
    /// Any other character stops the loading with an error that names it
    /// and the place that the loader had reached.
    pub fn from_configuration(data: &str, dead_char: char, alive_char: char) -> (result: Result<
        World,
        ParseError,
    >)
        ensures
            match result {
                Ok(world) => {
                    &&& accepted_len(data@, dead_char, alive_char) == data@.len()
                    &&& world.next_map() == loaded(
                        data@,
                        dead_char,
                        alive_char,
                        data@.len() as int,
                    )
                    &&& world.current_map() == Map::<Loc, CellType>::empty()
                    &&& world.well_formed()
                },
                Err(error) => {
                    &&& accepted_len(data@, dead_char, alive_char) < data@.len()
                    &&& error == rejection(
                        data@,
                        dead_char,
                        alive_char,
                        accepted_len(data@, dead_char, alive_char),
                    )
                },
            },
    {
        let mut world = World::new();
        let mut row: i64 = 0;
        let mut col: i64 = 0;

        for c in it: data.chars()
            invariant
                it.seq() == data@,
                forall|i: int|
                    0 <= i < it.index() ==> accepted(#[trigger] data@[i], dead_char, alive_char),
                (Loc { row, col }) == cursor(data@, dead_char, alive_char, it.index()),
                world.next_map() == loaded(data@, dead_char, alive_char, it.index()),
                world.current_map() == Map::<Loc, CellType>::empty(),
                world.well_formed(),
        {
            if c == dead_char {
                world.set(&Loc { row, col }, CellType::Dead);
                col = col.wrapping_add(1);
            } else if c == alive_char {
                world.set(&Loc { row, col }, CellType::Red);
                col = col.wrapping_add(1);
            } else if c == '\n' {
                row = row.wrapping_add(1);
                col = 0;
            } else if c == '\r' {
            } else {
                proof {
                    lemma_accepted_len(data@, dead_char, alive_char, it.index());
                }
                return Err(ParseError { character: c, row, col });
            }
        }

        proof {
            lemma_accepted_len(data@, dead_char, alive_char, data@.len() as int);
        }
        Ok(world)
    }
}

} // verus!
