use brainfart::error::BrainfartError;
use brainfart::expr::{Expr, ExprType, LoopBlock};
use brainfart::lexer::lex_string;
use brainfart::parser::{parse_tokens, parse_val_dec};
use brainfart::token::{Token, TokenType};

fn tok(ty: TokenType, line: u32, col: u32) -> Token {
    Token { ty, line, col }
}

fn lex(source: &str) -> Result<Vec<Token>, BrainfartError> {
    lex_string(source.to_string())
}

fn parse(source: &str) -> Result<Vec<Expr>, BrainfartError> {
    parse_tokens(lex(source).unwrap())
}

#[test]
fn token_from_keeps_its_arguments() {
    assert_eq!(
        Token::from(TokenType::Output, 3, 7),
        Token {
            ty: TokenType::Output,
            line: 3,
            col: 7
        }
    );
}

#[test]
fn lexes_positions_exactly() {
    assert_eq!(
        lex("> ++ <\n-  ").unwrap(),
        vec![
            tok(TokenType::PointInc, 1, 1),
            tok(TokenType::ValInc, 1, 3),
            tok(TokenType::ValInc, 1, 4),
            tok(TokenType::PointDec, 1, 6),
            tok(TokenType::ValDec, 2, 1),
        ]
    );
    assert_eq!(
        lex("Observe the following:\n ,+++.").unwrap(),
        vec![
            tok(TokenType::Input, 2, 2),
            tok(TokenType::ValInc, 2, 3),
            tok(TokenType::ValInc, 2, 4),
            tok(TokenType::ValInc, 2, 5),
            tok(TokenType::Output, 2, 6),
        ]
    );
}

#[test]
fn carriage_return_and_line_feed_each_start_a_line() {
    assert_eq!(
        lex("+\r\n+\r+\n\n +").unwrap(),
        vec![
            tok(TokenType::ValInc, 1, 1),
            tok(TokenType::ValInc, 3, 1),
            tok(TokenType::ValInc, 4, 1),
            tok(TokenType::ValInc, 6, 2),
        ]
    );
}

#[test]
fn characters_outside_ascii_take_one_column() {
    assert_eq!(lex("é日+").unwrap(), vec![tok(TokenType::ValInc, 1, 3)]);
}

#[test]
fn lexes_all_eight_commands() {
    assert_eq!(
        lex("><+-.,[]").unwrap(),
        vec![
            tok(TokenType::PointInc, 1, 1),
            tok(TokenType::PointDec, 1, 2),
            tok(TokenType::ValInc, 1, 3),
            tok(TokenType::ValDec, 1, 4),
            tok(TokenType::Output, 1, 5),
            tok(TokenType::Input, 1, 6),
            tok(TokenType::IfZero, 1, 7),
            tok(TokenType::IfNonZero, 1, 8),
        ]
    );
}

#[test]
fn empty_source_has_no_tokens() {
    assert_eq!(lex("").unwrap(), vec![]);
    assert_eq!(lex("no commands here\n").unwrap(), vec![]);
}

#[test]
fn open_bracket_alone_is_unmatched() {
    assert_eq!(lex("["), Err(BrainfartError::UnmatchedOpenBracket));
    assert_eq!(lex("[[]"), Err(BrainfartError::UnmatchedOpenBracket));
    assert_eq!(lex("+[>[-]<"), Err(BrainfartError::UnmatchedOpenBracket));
}

#[test]
fn close_bracket_alone_is_unmatched_at_its_place() {
    assert_eq!(
        lex("]"),
        Err(BrainfartError::UnmatchedCloseBracket(tok(
            TokenType::IfNonZero,
            1,
            1
        )))
    );
    assert_eq!(
        lex("[]\n +]["),
        Err(BrainfartError::UnmatchedCloseBracket(tok(
            TokenType::IfNonZero,
            2,
            3
        )))
    );
    // the first one is reported, and an open bracket after it is not
    assert_eq!(
        lex("]]["),
        Err(BrainfartError::UnmatchedCloseBracket(tok(
            TokenType::IfNonZero,
            1,
            1
        )))
    );
}

#[test]
fn empty_loop_parses_to_loop_with_empty_body() {
    assert_eq!(
        parse("[]").unwrap(),
        vec![Expr {
            ty: ExprType::LoopBlock(Box::new(LoopBlock { exprs: vec![] })),
            tokens: vec![],
        }]
    );
}

#[test]
fn right_then_left_cancels() {
    assert_eq!(parse("><").unwrap(), vec![]);
    assert_eq!(parse("+-").unwrap(), vec![]);
}

#[test]
fn left_then_right_stays_two_runs() {
    assert_eq!(
        parse("<>").unwrap(),
        vec![
            Expr {
                ty: ExprType::MoveLeft(1),
                tokens: vec![tok(TokenType::PointDec, 1, 1)],
            },
            Expr {
                ty: ExprType::MoveRight(1),
                tokens: vec![tok(TokenType::PointInc, 1, 2)],
            },
        ]
    );
    assert_eq!(
        parse("-+").unwrap(),
        vec![
            Expr {
                ty: ExprType::Sub(1),
                tokens: vec![tok(TokenType::ValDec, 1, 1)],
            },
            Expr {
                ty: ExprType::Add(1),
                tokens: vec![tok(TokenType::ValInc, 1, 2)],
            },
        ]
    );
}

#[test]
fn cancelling_drops_the_last_token() {
    assert_eq!(
        parse(">>><").unwrap(),
        vec![Expr {
            ty: ExprType::MoveRight(2),
            tokens: vec![tok(TokenType::PointInc, 1, 1), tok(TokenType::PointInc, 1, 2)],
        }]
    );
    assert_eq!(
        parse("++-+").unwrap(),
        vec![Expr {
            ty: ExprType::Add(2),
            tokens: vec![tok(TokenType::ValInc, 1, 1), tok(TokenType::ValInc, 1, 4)],
        }]
    );
}

#[test]
fn cancelling_goes_on_into_the_run_before() {
    // the increment is cancelled, and the run of decrements goes on
    assert_eq!(
        parse("-+--").unwrap(),
        vec![Expr {
            ty: ExprType::Sub(2),
            tokens: vec![tok(TokenType::ValDec, 1, 1), tok(TokenType::ValDec, 1, 4)],
        }]
    );
}

#[test]
fn outputs_and_inputs_merge_with_their_own_kind_only() {
    assert_eq!(
        parse("..,,.").unwrap(),
        vec![
            Expr {
                ty: ExprType::Output(2),
                tokens: vec![tok(TokenType::Output, 1, 1), tok(TokenType::Output, 1, 2)],
            },
            Expr {
                ty: ExprType::Input(2),
                tokens: vec![tok(TokenType::Input, 1, 3), tok(TokenType::Input, 1, 4)],
            },
            Expr {
                ty: ExprType::Output(1),
                tokens: vec![tok(TokenType::Output, 1, 5)],
            },
        ]
    );
}

#[test]
fn zero_loop_becomes_assignment() {
    assert_eq!(
        parse("[-]").unwrap(),
        vec![Expr {
            ty: ExprType::Assign(0),
            tokens: vec![tok(TokenType::ValDec, 1, 2)],
        }]
    );
    assert_eq!(
        parse("[-]+").unwrap(),
        vec![Expr {
            ty: ExprType::Assign(1),
            tokens: vec![tok(TokenType::ValDec, 1, 2), tok(TokenType::ValInc, 1, 4)],
        }]
    );
}

#[test]
fn decrement_of_zero_constant_fails_while_parsing() {
    assert_eq!(
        parse("[-]--"),
        Err(BrainfartError::ValZeroDec(tok(TokenType::ValDec, 1, 4)))
    );
    assert_eq!(
        parse("[-]+--"),
        Err(BrainfartError::ValZeroDec(tok(TokenType::ValDec, 1, 6)))
    );
    // also inside a loop that would never run
    assert_eq!(
        parse("[[-]-]"),
        Err(BrainfartError::ValZeroDec(tok(TokenType::ValDec, 1, 5)))
    );
}

#[test]
fn decrement_of_constant_drops_the_last_token() {
    assert_eq!(
        parse("[-]++-").unwrap(),
        vec![Expr {
            ty: ExprType::Assign(1),
            tokens: vec![tok(TokenType::ValDec, 1, 2), tok(TokenType::ValInc, 1, 4)],
        }]
    );
}

#[test]
fn failed_decrement_leaves_the_list_alone() {
    let mut exprs = vec![Expr {
        ty: ExprType::Assign(0),
        tokens: vec![tok(TokenType::ValDec, 1, 2)],
    }];
    let result = parse_val_dec(&mut exprs, tok(TokenType::ValDec, 1, 4));
    assert_eq!(
        result,
        Err(BrainfartError::ValZeroDec(tok(TokenType::ValDec, 1, 4)))
    );
    assert_eq!(
        exprs,
        vec![Expr {
            ty: ExprType::Assign(0),
            tokens: vec![tok(TokenType::ValDec, 1, 2)],
        }]
    );
}

#[test]
fn only_a_single_decrement_is_a_zero_loop() {
    assert_eq!(
        parse("[--]").unwrap(),
        vec![Expr {
            ty: ExprType::LoopBlock(Box::new(LoopBlock {
                exprs: vec![Expr {
                    ty: ExprType::Sub(2),
                    tokens: vec![tok(TokenType::ValDec, 1, 2), tok(TokenType::ValDec, 1, 3)],
                }],
            })),
            tokens: vec![],
        }]
    );
    // a body that cancels down to one decrement counts
    assert_eq!(
        parse("[+--]").unwrap(),
        vec![Expr {
            ty: ExprType::Assign(0),
            tokens: vec![tok(TokenType::ValDec, 1, 4)],
        }]
    );
}

#[test]
fn loops_nest() {
    assert_eq!(
        parse("[>[-]<]").unwrap(),
        vec![Expr {
            ty: ExprType::LoopBlock(Box::new(LoopBlock {
                exprs: vec![
                    Expr {
                        ty: ExprType::MoveRight(1),
                        tokens: vec![tok(TokenType::PointInc, 1, 2)],
                    },
                    Expr {
                        ty: ExprType::Assign(0),
                        tokens: vec![tok(TokenType::ValDec, 1, 4)],
                    },
                    Expr {
                        ty: ExprType::MoveLeft(1),
                        tokens: vec![tok(TokenType::PointDec, 1, 6)],
                    },
                ],
            })),
            tokens: vec![],
        }]
    );
}

#[test]
fn a_loop_ends_a_run() {
    // the runs on both sides of a loop do not merge or cancel
    assert_eq!(
        parse("+[]-").unwrap(),
        vec![
            Expr {
                ty: ExprType::Add(1),
                tokens: vec![tok(TokenType::ValInc, 1, 1)],
            },
            Expr {
                ty: ExprType::LoopBlock(Box::new(LoopBlock { exprs: vec![] })),
                tokens: vec![],
            },
            Expr {
                ty: ExprType::Sub(1),
                tokens: vec![tok(TokenType::ValDec, 1, 4)],
            },
        ]
    );
}

#[test]
fn messages_give_line_and_column_in_decimal() {
    assert_eq!(
        BrainfartError::UnmatchedOpenBracket.message(),
        "ERROR: Missing matching closing bracket ]"
    );
    assert_eq!(
        BrainfartError::UnmatchedCloseBracket(tok(TokenType::IfNonZero, 1, 1)).message(),
        "ERROR line 1 col 1: Encountered unmatched closing bracket ]"
    );
    assert_eq!(
        BrainfartError::PointZeroDec(tok(TokenType::PointDec, 3, 3)).message(),
        "ERROR line 3 col 3: Attempted to decrement pointer that is at index 0"
    );
    assert_eq!(
        BrainfartError::ValZeroDec(tok(TokenType::ValDec, 2, 8)).message(),
        "ERROR line 2 col 8: Attempted to decrement value that is 0"
    );
    assert_eq!(
        BrainfartError::Io(tok(TokenType::Input, 1, 2)).message(),
        "ERROR line 1 col 2: Failed to read character from input"
    );
    assert_eq!(
        BrainfartError::Io(tok(TokenType::Input, 10, 4294967295)).message(),
        "ERROR line 10 col 4294967295: Failed to read character from input"
    );
    assert_eq!(
        BrainfartError::Io(tok(TokenType::Input, 0, 1000)).message(),
        "ERROR line 0 col 1000: Failed to read character from input"
    );
}

#[test]
fn parsed_trees_are_well_formed() {
    for source in ["", "+", "><", "[-]+", "+[>[-]<,.]", "++[>++<-]>.", "[+--]"] {
        assert!(brainfart::expr::well_formed(&parse(source).unwrap()));
    }
}

#[test]
fn trees_with_wrong_token_counts_are_not_well_formed() {
    let two_for_one = vec![Expr {
        ty: ExprType::Add(1),
        tokens: vec![tok(TokenType::ValInc, 1, 1), tok(TokenType::ValInc, 1, 2)],
    }];
    assert!(!brainfart::expr::well_formed(&two_for_one));
    let empty_run = vec![Expr {
        ty: ExprType::MoveLeft(0),
        tokens: vec![],
    }];
    assert!(!brainfart::expr::well_formed(&empty_run));
    let bare_assignment = vec![Expr {
        ty: ExprType::Assign(0),
        tokens: vec![],
    }];
    assert!(!brainfart::expr::well_formed(&bare_assignment));
    let loop_with_token = vec![Expr {
        ty: ExprType::LoopBlock(Box::new(LoopBlock { exprs: vec![] })),
        tokens: vec![tok(TokenType::IfZero, 1, 1)],
    }];
    assert!(!brainfart::expr::well_formed(&loop_with_token));
    let bad_body = vec![Expr {
        ty: ExprType::LoopBlock(Box::new(LoopBlock { exprs: two_for_one })),
        tokens: vec![],
    }];
    assert!(!brainfart::expr::well_formed(&bad_body));
    let good = vec![Expr {
        ty: ExprType::Assign(2),
        tokens: vec![
            tok(TokenType::ValDec, 1, 2),
            tok(TokenType::ValInc, 1, 4),
            tok(TokenType::ValInc, 1, 5),
        ],
    }];
    assert!(brainfart::expr::well_formed(&good));
}

#[test]
fn failure_in_a_loop_body_leaves_the_list_alone() {
    // the rest of "+[[-]-]" after its first bracket
    let mut exprs = vec![Expr {
        ty: ExprType::Add(1),
        tokens: vec![tok(TokenType::ValInc, 1, 1)],
    }];
    let tokens = vec![
        tok(TokenType::IfZero, 1, 3),
        tok(TokenType::ValDec, 1, 4),
        tok(TokenType::IfNonZero, 1, 5),
        tok(TokenType::ValDec, 1, 6),
        tok(TokenType::IfNonZero, 1, 7),
    ];
    let mut pos: usize = 0;
    let result = brainfart::parser::parse_loop_block(&mut exprs, &tokens, &mut pos);
    assert_eq!(
        result,
        Err(BrainfartError::ValZeroDec(tok(TokenType::ValDec, 1, 6)))
    );
    assert_eq!(
        exprs,
        vec![Expr {
            ty: ExprType::Add(1),
            tokens: vec![tok(TokenType::ValInc, 1, 1)],
        }]
    );
}

#[test]
fn a_loop_is_appended_and_never_merged() {
    // "[-]" after an assignment: a second assignment, and the cursor after the bracket
    let mut exprs = vec![Expr {
        ty: ExprType::Assign(0),
        tokens: vec![tok(TokenType::ValDec, 1, 2)],
    }];
    let tokens = vec![
        tok(TokenType::ValDec, 1, 5),
        tok(TokenType::IfNonZero, 1, 6),
        tok(TokenType::ValInc, 1, 7),
    ];
    let mut pos: usize = 0;
    let result = brainfart::parser::parse_loop_block(&mut exprs, &tokens, &mut pos);
    assert_eq!(result, Ok(()));
    assert_eq!(pos, 2);
    assert_eq!(
        exprs,
        vec![
            Expr {
                ty: ExprType::Assign(0),
                tokens: vec![tok(TokenType::ValDec, 1, 2)],
            },
            Expr {
                ty: ExprType::Assign(0),
                tokens: vec![tok(TokenType::ValDec, 1, 5)],
            },
        ]
    );
}
