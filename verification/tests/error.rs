use brainfart::error::{BrainfartError, BrainfartResult};
use brainfart::token::{Token, TokenType};

#[test]
fn unmatched_open_error() {
    let err: BrainfartResult<()> = Err(BrainfartError::UnmatchedOpenBracket);
    match err {
        Ok(_) => panic!("unmatched_open_error had Ok result"),
        Err(e) => matches!(
            e.message().as_str(),
            "ERROR: Missing matching closing bracket"
        )
    };
}

#[test]
fn unmatched_close_error() {
    let token: Token = Token {
        ty: TokenType::IfNonZero,
        line: 1,
        col: 1,
    };
    let err: BrainfartResult<()> = Err(BrainfartError::UnmatchedCloseBracket(token));
    match err {
        Ok(_) => panic!("unmatched_close_error had Ok result"),
        Err(e) => matches!(
            e.message().as_str(),
            "ERROR line 1 col 1: Encountered unmatched closing bracket ]"
        ),
    };
}

#[test]
fn point_dec_error() {
    let token: Token = Token {
        ty: TokenType::PointDec,
        line: 3,
        col: 3
    };
    let err: BrainfartResult<()> = Err(BrainfartError::PointZeroDec(token));
    match err {
        Ok(_) => panic!("point_dec_error had Ok result"),
        Err(e) => matches!(
            e.message().as_str(),
            "ERROR line {} col {}: Attempted to decrement pointer that is at index 0"
        ),
    };
}

#[test]
fn val_dec_error() {
    let token: Token = Token {
        ty: TokenType::ValDec,
        line: 2,
        col: 8
    };
    let err: BrainfartResult<()> = Err(BrainfartError::ValZeroDec(token));
    match err {
        Ok(_) => panic!("val_dec_error had Ok result"),
        Err(e) => matches!(
            e.message().as_str(),
            "ERROR line {} col {}: Attempted to decrement value that is 0"
        ),
    };
}

#[test]
fn input_error() {
    let token: Token = Token {
        ty: TokenType::Input,
        line: 1,
        col: 2
    };
    let err: BrainfartResult<()> = Err(BrainfartError::Io(token));
    match err {
        Ok(_) => panic!("input_error had Ok result"),
        Err(e) => matches!(
            e.message().as_str(),
            "ERROR line {} col {}: Failed to read character from input"
        )
    };
}
