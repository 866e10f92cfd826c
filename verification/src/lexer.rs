//! The lexer: from source text to tokens, with the nesting of brackets
//! checked on the way.
//!
//! Every character has a position. Positions start at line 1, column 1; a
//! line feed or carriage return starts a new line, any other character moves
//! one column to the right. The eight command characters become tokens, all
//! other characters are skipped.

use vstd::prelude::*;
use crate::error::BrainfartError;
use crate::error::BrainfartResult;
use crate::token::Token;
use crate::token::TokenType;

verus! {

/// The command that a character stands for, if it is one of the eight.
pub open spec fn command(c: char) -> Option<TokenType> {
    if c == '>' {
        Some(TokenType::PointInc)
    } else if c == '<' {
        Some(TokenType::PointDec)
    } else if c == '+' {
        Some(TokenType::ValInc)
    } else if c == '-' {
        Some(TokenType::ValDec)
    } else if c == '.' {
        Some(TokenType::Output)
    } else if c == ',' {
        Some(TokenType::Input)
    } else if c == '[' {
        Some(TokenType::IfZero)
    } else if c == ']' {
        Some(TokenType::IfNonZero)
    } else {
        None
    }
}

/// Whether a character ends a line.
pub open spec fn is_line_break(c: char) -> bool {
    c == '\n' || c == '\r'
}

/// The line of the character at index `i`: one more than the number of line
/// breaks before it.
pub open spec fn line_at(s: Seq<char>, i: int) -> int
    decreases i,
{
    if i <= 0 {
        1
    } else if is_line_break(s[i - 1]) {
        line_at(s, i - 1) + 1
    } else {
        line_at(s, i - 1)
    }
}

/// The column of the character at index `i`: one more than the number of
/// characters between it and the last line break before it.
pub open spec fn col_at(s: Seq<char>, i: int) -> int
    decreases i,
{
    if i <= 0 {
        1
    } else if is_line_break(s[i - 1]) {
        1
    } else {
        col_at(s, i - 1) + 1
    }
}

/// The number of loops that the first `i` characters open, less the number
/// they close.
pub open spec fn depth_at(s: Seq<char>, i: int) -> int
    decreases i,
{
    if i <= 0 {
        0
    } else if s[i - 1] == '[' {
        depth_at(s, i - 1) + 1
    } else if s[i - 1] == ']' {
        depth_at(s, i - 1) - 1
    } else {
        depth_at(s, i - 1)
    }
}

/// The token of the command character at index `i`.
pub open spec fn token_at(s: Seq<char>, i: int) -> Token
    recommends
        0 <= i < s.len(),
        command(s[i]) is Some,
{
    Token { ty: command(s[i])->0, line: line_at(s, i) as u32, col: col_at(s, i) as u32 }
}

/// The tokens of the command characters among the first `i` characters, in
/// source order.
pub open spec fn tokens_upto(s: Seq<char>, i: int) -> Seq<Token>
    decreases i,
{
    if i <= 0 {
        Seq::empty()
    } else if command(s[i - 1]) is Some {
        tokens_upto(s, i - 1).push(token_at(s, i - 1))
    } else {
        tokens_upto(s, i - 1)
    }
}

/// The character at index `i` closes a loop although none is open.
pub open spec fn stray_close(s: Seq<char>, i: int) -> bool {
    0 <= i < s.len() && s[i] == ']' && depth_at(s, i) == 0
}

/// `i` is the first index at which a loop is closed although none is open.
pub open spec fn first_stray_close(s: Seq<char>, i: int) -> bool {
    stray_close(s, i) && forall|j: int| 0 <= j < i ==> !stray_close(s, j)
}

/// What lexing a source gives: the failure at the first closing bracket
/// without an open loop; else the failure of a loop left open at the end;
/// else all tokens in source order.
pub open spec fn lex_spec(s: Seq<char>) -> Result<Seq<Token>, BrainfartError> {
    if exists|i: int| first_stray_close(s, i) {
        let i = choose|i: int| first_stray_close(s, i);
        Err(BrainfartError::UnmatchedCloseBracket(token_at(s, i)))
    } else if depth_at(s, s.len() as int) != 0 {
        Err(BrainfartError::UnmatchedOpenBracket)
    } else {
        Ok(tokens_upto(s, s.len() as int))
    }
}

/// Bounds of the positions and of the depth by the number of characters seen.
pub proof fn lemma_position_bounds(s: Seq<char>, i: int)
    requires
        0 <= i,
    ensures
        1 <= line_at(s, i) <= i + 1,
        1 <= col_at(s, i) <= i + 1,
        -i <= depth_at(s, i) <= i,
        tokens_upto(s, i).len() <= i,
    decreases i,
{
    if i > 0 {
        lemma_position_bounds(s, i - 1);
    }
}

/// Every token has a line and a column of at least 1, and is a command.
pub proof fn lemma_tokens_are_placed(s: Seq<char>, i: int)
    requires
        0 <= i <= s.len() < u32::MAX,
    ensures
        forall|j: int|
            0 <= j < tokens_upto(s, i).len() ==> (#[trigger] tokens_upto(s, i)[j]).line >= 1
                && tokens_upto(s, i)[j].col >= 1,
    decreases i,
{
    if i > 0 {
        lemma_tokens_are_placed(s, i - 1);
        lemma_position_bounds(s, i - 1);
    }
}

/// Converts a character to a token type, if it is a command.
pub fn lex_char(c: char) -> (r: Option<TokenType>)
    ensures
        r == command(c),
{
    match c {
        '>' => Some(TokenType::PointInc),
        '<' => Some(TokenType::PointDec),
        '+' => Some(TokenType::ValInc),
        '-' => Some(TokenType::ValDec),
        '.' => Some(TokenType::Output),
        ',' => Some(TokenType::Input),
        '[' => Some(TokenType::IfZero),
        ']' => Some(TokenType::IfNonZero),
        _ => None,
    }
}

/// Appends the token of a command found at `line`, `col`, and keeps count of
/// the open loops. A closing bracket while no loop is open is refused: the
/// token is returned in the failure and nothing is changed.
pub fn add_token(
    tokens: &mut Vec<Token>,
    token_type: TokenType,
    brace_balance: &mut u32,
    line: u32,
    col: u32,
) -> (r: BrainfartResult<()>)
    requires
        token_type == TokenType::IfZero ==> *old(brace_balance) < u32::MAX,
    ensures
        token_type == TokenType::IfNonZero && *old(brace_balance) == 0 ==> {
            &&& r == Err::<(), BrainfartError>(
                BrainfartError::UnmatchedCloseBracket(Token { ty: token_type, line, col }),
            )
            &&& final(tokens)@ == old(tokens)@
            &&& *final(brace_balance) == *old(brace_balance)
        },
        !(token_type == TokenType::IfNonZero && *old(brace_balance) == 0) ==> {
            &&& r is Ok
            &&& final(tokens)@ == old(tokens)@.push(Token { ty: token_type, line, col })
            &&& *final(brace_balance) == *old(brace_balance) + match token_type {
                TokenType::IfZero => 1int,
                TokenType::IfNonZero => -1int,
                _ => 0int,
            }
        },
{
    match token_type {
        TokenType::IfZero => {
            *brace_balance += 1;
        },
        TokenType::IfNonZero => {
            if *brace_balance == 0 {
                let token: Token = Token::from(token_type, line, col);
                return Err(BrainfartError::UnmatchedCloseBracket(token));
            }
            *brace_balance -= 1;
        },
        _ => (),
    }
    let token: Token = Token::from(token_type, line, col);
    tokens.push(token);
    Ok(())
}

/// Converts a source text into its tokens, skipping every character that is
/// not a command. The source must have fewer than 2^32 characters, so that
/// positions and nesting depth fit their 32 bits.
pub fn lex_string(string: String) -> (r: BrainfartResult<Vec<Token>>)
    requires
        string@.len() < u32::MAX,
    ensures
        match r {
            Ok(tokens) => {
                &&& lex_spec(string@) == Ok::<Seq<Token>, BrainfartError>(tokens@)
                &&& tokens@.len() <= string@.len()
                &&& forall|i: int|
                    0 <= i < tokens@.len() ==> (#[trigger] tokens@[i]).line >= 1 && tokens@[i].col
                        >= 1
            },
            Err(e) => lex_spec(string@) == Err::<Seq<Token>, BrainfartError>(e),
        },
{
    let mut line: u32 = 1;
    let mut col: u32 = 1;
    let mut tokens: Vec<Token> = Vec::new();
    let mut brace_balance: u32 = 0;
    let ghost s = string@;
    for c in it: string.as_str().chars()
        invariant
            s == string@,
            it.seq() == s,
            s.len() < u32::MAX,
            line == line_at(s, it.index()),
            col == col_at(s, it.index()),
            brace_balance == depth_at(s, it.index()),
            tokens@ == tokens_upto(s, it.index()),
            forall|j: int| 0 <= j < it.index() ==> !stray_close(s, j),
    {
        let ghost i = it.index();
        proof {
            lemma_position_bounds(s, i);
            lemma_position_bounds(s, i + 1);
        }
        let opt_token_type: Option<TokenType> = lex_char(c);
        if let Some(token_type) = opt_token_type {
            let token_result = add_token(&mut tokens, token_type, &mut brace_balance, line, col);
            if let Err(e) = token_result {
                proof {
                    assert(first_stray_close(s, i));
                    let k = choose|k: int| first_stray_close(s, k);
                    assert(k == i) by {
                        if k < i {
                            assert(!stray_close(s, k));
                        } else if i < k {
                            assert(!stray_close(s, i));
                        }
                    }
                }
                return Err(e);
            }
            col += 1;
        } else if c == '\n' || c == '\r' {
            line += 1;
            col = 1;
        } else {
            col += 1;
        }
    }
    proof {
        assert forall|k: int| !first_stray_close(s, k) by {
            if 0 <= k < s.len() {
                assert(!stray_close(s, k));
            }
        }
        lemma_position_bounds(s, s.len() as int);
        lemma_tokens_are_placed(s, s.len() as int);
    }
    match brace_balance {
        0 => Ok(tokens),
        _ => Err(BrainfartError::UnmatchedOpenBracket),
    }
}

} // verus!
