//! The failures that the grid can report, and their messages.

use vstd::prelude::*;
use vstd::string::StringExecFns;

verus! {

/// Why an operation on a field or a board was refused.
#[derive(Clone, Copy, Debug, PartialEq, Eq, Structural)]
pub enum SudokuError {
    /// The puzzle text did not hold exactly 81 tokens; `count` is how many it held.
    MalformedInput { count: usize },
    /// A field that already holds `existing` was asked to take `requested`.
    Conflict { existing: i8, requested: i8 },
    /// A field was asked to take `value`, which is no longer one of its candidates.
    InvalidOption { value: i8 },
    /// The last candidate of a field was eliminated.
    Exhausted,
}

/// The character that writes the decimal digit `d`.
pub open spec fn digit_char(d: int) -> char {
    if d == 0 {
        '0'
    } else if d == 1 {
        '1'
    } else if d == 2 {
        '2'
    } else if d == 3 {
        '3'
    } else if d == 4 {
        '4'
    } else if d == 5 {
        '5'
    } else if d == 6 {
        '6'
    } else if d == 7 {
        '7'
    } else if d == 8 {
        '8'
    } else {
        '9'
    }
}

/// The decimal digits of `n`, most significant first, without leading zeros.
pub open spec fn decimal(n: nat) -> Seq<char>
    decreases n,
{
    if n < 10 {
        seq![digit_char(n as int)]
    } else {
        decimal(n / 10).push(digit_char((n % 10) as int))
    }
}

/// The decimal writing of `v`, with a leading minus sign when it is negative.
pub open spec fn signed_decimal(v: int) -> Seq<char> {
    if v < 0 {
        seq!['-'] + decimal((-v) as nat)
    } else {
        decimal(v as nat)
    }
}

impl SudokuError {
    /// The text of the message that describes this failure.
    pub open spec fn message_text(self) -> Seq<char> {
        match self {
            SudokuError::MalformedInput { count } => {
                "Wrong number of fields in input, expected 81 got "@ + decimal(count as nat) + "."@
            },
            SudokuError::Conflict { existing, requested } => {
                signed_decimal(requested as int)
                    + " can't be the solution for this field, it already has a solution "@
                    + signed_decimal(existing as int) + "."@
            },
            SudokuError::InvalidOption { value } => {
                signed_decimal(value as int)
                    + " can't be the solution for this field, it's not a valid option."@
            },
            SudokuError::Exhausted => "The field is left with no possible value"@,
        }
    }

    /// Renders the failure for a reader.
    pub fn message(&self) -> (text: String)
        ensures
            text@ == self.message_text(),
    {
        let mut text = String::new();
        match *self {
            SudokuError::MalformedInput { count } => {
                text.append("Wrong number of fields in input, expected 81 got ");
                append_decimal(&mut text, count as u64);
                text.append(".");
            },
            SudokuError::Conflict { existing, requested } => {
                append_signed(&mut text, requested);
                text.append(" can't be the solution for this field, it already has a solution ");
                append_signed(&mut text, existing);
                text.append(".");
            },
            SudokuError::InvalidOption { value } => {
                append_signed(&mut text, value);
                text.append(" can't be the solution for this field, it's not a valid option.");
            },
            SudokuError::Exhausted => {
                text.append("The field is left with no possible value");
            },
        }
        text
    }
}

/// Appends the digit `d` to `text`.
fn append_digit(text: &mut String, d: u64)
    requires
        d < 10,
    ensures
        final(text)@ == old(text)@.push(digit_char(d as int)),
{
    proof {
        reveal_strlit("0");
        reveal_strlit("1");
        reveal_strlit("2");
        reveal_strlit("3");
        reveal_strlit("4");
        reveal_strlit("5");
        reveal_strlit("6");
        reveal_strlit("7");
        reveal_strlit("8");
        reveal_strlit("9");
    }
    let digit: &str = if d == 0 {
        "0"
    } else if d == 1 {
        "1"
    } else if d == 2 {
        "2"
    } else if d == 3 {
        "3"
    } else if d == 4 {
        "4"
    } else if d == 5 {
        "5"
    } else if d == 6 {
        "6"
    } else if d == 7 {
        "7"
    } else if d == 8 {
        "8"
    } else {
        "9"
    };
    assert(digit@ =~= seq![digit_char(d as int)]);
    text.append(digit);
    assert(text@ =~= old(text)@.push(digit_char(d as int)));
}

/// Appends the decimal writing of `n` to `text`.
fn append_decimal(text: &mut String, n: u64)
    ensures
        final(text)@ == old(text)@ + decimal(n as nat),
    decreases n,
{
    if n >= 10 {
        append_decimal(text, n / 10);
    }
    append_digit(text, n % 10);
    assert(text@ =~= old(text)@ + decimal(n as nat));
}

/// Appends the decimal writing of `v`, sign included, to `text`.
fn append_signed(text: &mut String, v: i8)
    ensures
        final(text)@ == old(text)@ + signed_decimal(v as int),
{
    if v < 0 {
        proof {
            reveal_strlit("-");
        }
        text.append("-");
        let magnitude: i16 = -(v as i16);
        append_decimal(text, magnitude as u64);
        assert(text@ =~= old(text)@ + signed_decimal(v as int));
    } else {
        append_decimal(text, v as u64);
    }
}

} // verus!
