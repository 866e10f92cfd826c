use brainfart::lexer::lex_char;
use brainfart::lexer::lex_string;
use brainfart::token::Token;
use brainfart::token::TokenType;

#[test]
fn lex_string_char() {
    matches!(
        lex_string("+".to_string()).unwrap().as_slice(),
        &[Token {
            ty: TokenType::ValInc,
            line: 1,
            col: 1
        }]
    );
}

#[test]
fn lex_string_char_whitespace() {
    matches!(
        lex_string("  >\n ".to_string()).unwrap().as_slice(),
        &[Token {
            ty: TokenType::PointInc,
            line: 1,
            col: 3
        }]
    );
}

#[test]
fn lex_string_chars_whitespace() {
    matches!(
        lex_string("> ++ <\n-  ".to_string()).unwrap().as_slice(),
        &[
            Token {
                ty: TokenType::PointInc,
                line: 1,
                col: 1,
            },
            Token {
                ty: TokenType::ValInc,
                line: 1,
                col: 3
            },
            Token {
                ty: TokenType::ValInc,
                line: 1,
                col: 4
            },
            Token {
                ty: TokenType::PointDec,
                line: 1,
                col: 6
            },
            Token {
                ty: TokenType::ValDec,
                line: 2,
                col: 1
            },
        ]
    );
}

#[test]
fn lex_string_char_words() {
    matches!(
        lex_string("Observe the following:\n ,+++.".to_string())
            .unwrap()
            .as_slice(),
        &[
            Token {
                ty: TokenType::Input,
                line: 2,
                col: 2,
            },
            Token {
                ty: TokenType::ValInc,
                line: 2,
                col: 3,
            },
            Token {
                ty: TokenType::ValInc,
                line: 2,
                col: 4,
            },
            Token {
                ty: TokenType::ValInc,
                line: 2,
                col: 4,
            },
            Token {
                ty: TokenType::Output,
                line: 2,
                col: 5,
            },
        ]
    );
}

#[test]
fn lex_point_inc() {
    matches!(lex_char('>').unwrap(), TokenType::PointInc);
}

#[test]
fn lex_point_dec() {
    matches!(lex_char('>').unwrap(), TokenType::PointDec);
}

#[test]
fn lex_val_inc() {
    matches!(lex_char('+').unwrap(), TokenType::ValInc);
}

#[test]
fn lex_val_dec() {
    matches!(lex_char('-').unwrap(), TokenType::ValDec);
}

#[test]
fn lex_output() {
    matches!(lex_char('.').unwrap(), TokenType::Output);
}

#[test]
fn lex_input() {
    matches!(lex_char(',').unwrap(), TokenType::Input);
}

#[test]
fn lex_if_zero() {
    matches!(lex_char('[').unwrap(), TokenType::IfZero);
}

#[test]
fn lex_if_non_zero() {
    matches!(lex_char(']').unwrap(), TokenType::IfNonZero);
}

#[test]
fn lex_none() {
    matches!(lex_char('a'), None);
    matches!(lex_char('d'), None);
    matches!(lex_char(' '), None);
    matches!(lex_char('\n'), None);
}
