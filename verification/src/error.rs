//! The failures that lexing, parsing and running can end in, and the text
//! that reports each of them.

use vstd::prelude::*;
use vstd::string::*;
use crate::token::Token;

verus! {

/// A failure of one of the stages. All but the first carry the token at
/// which it happened.
#[derive(Debug, Clone, Copy, PartialEq, Eq, Structural)]
pub enum BrainfartError {
    /// A loop was opened and never closed.
    UnmatchedOpenBracket,
    /// A loop was closed that had not been opened.
    UnmatchedCloseBracket(Token),
    /// The pointer was moved to the left of the first cell.
    PointZeroDec(Token),
    /// A cell, or a constant known while parsing, was decremented below zero.
    ValZeroDec(Token),
    /// Reading from the input failed.
    Io(Token),
}

pub type BrainfartResult<T> = Result<T, BrainfartError>;

/// The character of one decimal digit.
pub open spec fn digit_char(d: nat) -> char {
    if d == 0 {
        '0'
    } else if d == 1 {
        '1'
    } else if d == 2 {
        '2'
    } else if d == 3 {
        '3'
    } else if d == 4 {
        '4'
    } else if d == 5 {
        '5'
    } else if d == 6 {
        '6'
    } else if d == 7 {
        '7'
    } else if d == 8 {
        '8'
    } else {
        '9'
    }
}

/// The decimal notation of a number, without leading zeros.
pub open spec fn decimal(n: nat) -> Seq<char>
    decreases n,
{
    if n < 10 {
        seq![digit_char(n)]
    } else {
        decimal(n / 10).push(digit_char(n % 10))
    }
}

/// The report of a failure at a token: its position, then what went wrong.
pub open spec fn located(token: Token, what: Seq<char>) -> Seq<char> {
    "ERROR line "@ + decimal(token.line as nat) + " col "@ + decimal(token.col as nat) + ": "@
        + what
}

fn digit_str(d: u32) -> (s: &'static str)
    requires
        d < 10,
    ensures
        s@ == seq![digit_char(d as nat)],
{
    proof {
        reveal_strlit("0");
        reveal_strlit("1");
        reveal_strlit("2");
        reveal_strlit("3");
        reveal_strlit("4");
        reveal_strlit("5");
        reveal_strlit("6");
        reveal_strlit("7");
        reveal_strlit("8");
        reveal_strlit("9");
    }
    let s = if d == 0 {
        "0"
    } else if d == 1 {
        "1"
    } else if d == 2 {
        "2"
    } else if d == 3 {
        "3"
    } else if d == 4 {
        "4"
    } else if d == 5 {
        "5"
    } else if d == 6 {
        "6"
    } else if d == 7 {
        "7"
    } else if d == 8 {
        "8"
    } else {
        "9"
    };
    assert(s@ =~= seq![digit_char(d as nat)]);
    s
}

fn append_decimal(out: &mut String, n: u32)
    ensures
        final(out)@ == old(out)@ + decimal(n as nat),
    decreases n,
{
    if n >= 10 {
        append_decimal(out, n / 10);
    }
    out.append(digit_str(n % 10));
    assert(out@ =~= old(out)@ + decimal(n as nat));
}

fn located_message(token: &Token, what: &str) -> (s: String)
    ensures
        s@ == located(*token, what@),
{
    let mut s = String::from_str("ERROR line ");
    append_decimal(&mut s, token.line);
    s.append(" col ");
    append_decimal(&mut s, token.col);
    s.append(": ");
    s.append(what);
    assert(s@ =~= located(*token, what@));
    s
}

impl BrainfartError {
    /// The text that reports this failure.
    pub open spec fn message_spec(self) -> Seq<char> {
        match self {
            BrainfartError::UnmatchedOpenBracket => "ERROR: Missing matching closing bracket ]"@,
            BrainfartError::UnmatchedCloseBracket(token) => located(
                token,
                "Encountered unmatched closing bracket ]"@,
            ),
            BrainfartError::PointZeroDec(token) => located(
                token,
                "Attempted to decrement pointer that is at index 0"@,
            ),
            BrainfartError::ValZeroDec(token) => located(
                token,
                "Attempted to decrement value that is 0"@,
            ),
            BrainfartError::Io(token) => located(token, "Failed to read character from input"@),
        }
    }

    /// The text that reports this failure: for a failure at a token, its line
    /// and column in decimal followed by what went wrong.
    pub fn message(&self) -> (s: String)
        ensures
            s@ == self.message_spec(),
    {
        match self {
            BrainfartError::UnmatchedOpenBracket => String::from_str(
                "ERROR: Missing matching closing bracket ]",
            ),
            BrainfartError::UnmatchedCloseBracket(token) => located_message(
                token,
                "Encountered unmatched closing bracket ]",
            ),
            BrainfartError::PointZeroDec(token) => located_message(
                token,
                "Attempted to decrement pointer that is at index 0",
            ),
            BrainfartError::ValZeroDec(token) => located_message(
                token,
                "Attempted to decrement value that is 0",
            ),
            BrainfartError::Io(token) => located_message(
                token,
                "Failed to read character from input",
            ),
        }
    }
}

} // verus!
