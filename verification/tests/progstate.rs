use brainfart::error::BrainfartError;
use brainfart::expr::{Expr, ExprType, LoopBlock};
use brainfart::lexer::lex_string;
use brainfart::parser::parse_tokens;
use brainfart::progstate::{Action, Event, ProgState, Transcript};
use brainfart::token::{Token, TokenType};

fn compile(source: &str) -> Vec<Expr> {
    let tokens = lex_string(source.to_string()).unwrap();
    parse_tokens(tokens).unwrap()
}

fn run_source(source: &str, input: &[Option<char>], limit: u64) -> (ProgState, Transcript) {
    let exprs = compile(source);
    let mut state = ProgState::default();
    let transcript = state.run(&exprs, input, limit);
    (state, transcript)
}

fn text(transcript: &Transcript) -> String {
    transcript.output.iter().collect()
}

fn unit(ty: ExprType, token_ty: TokenType, col: u32) -> Expr {
    Expr {
        ty,
        tokens: vec![Token {
            ty: token_ty,
            line: 1,
            col,
        }],
    }
}

#[test]
fn default_state_is_one_zero_cell() {
    let state = ProgState::default();
    assert_eq!(state.tape(), &vec![0]);
    assert_eq!(state.pointer(), 0);
}

#[test]
fn empty_program_halts_at_once() {
    let (state, transcript) = run_source("", &[], 10);
    assert_eq!(transcript.action, Action::Halt);
    assert_eq!(text(&transcript), "");
    assert_eq!(transcript.reads, 0);
    assert_eq!(state.tape(), &vec![0]);
    assert_eq!(state.pointer(), 0);
}

#[test]
fn moves_right_then_increments() {
    for k in [0usize, 1, 2, 5, 100, 1000] {
        let source = format!("{}+", ">".repeat(k));
        let (state, transcript) = run_source(&source, &[], 10);
        assert_eq!(transcript.action, Action::Halt);
        assert!(state.tape().len() >= k + 1);
        assert_eq!(state.tape().len(), k + 1);
        assert_eq!(state.pointer(), k);
        for (i, cell) in state.tape().iter().enumerate() {
            assert_eq!(*cell, if i == k { 1 } else { 0 });
        }
    }
}

#[test]
fn tape_never_shrinks() {
    let (state, transcript) = run_source(">>>>.<<<+", &[], 10);
    assert_eq!(transcript.action, Action::Halt);
    assert_eq!(state.tape(), &vec![0, 1, 0, 0, 0]);
    assert_eq!(state.pointer(), 1);
}

#[test]
fn cancelled_moves_do_not_grow_the_tape() {
    let (state, transcript) = run_source("><+", &[], 10);
    assert_eq!(transcript.action, Action::Halt);
    assert_eq!(state.tape(), &vec![1]);
}

#[test]
fn leading_move_left_fails_at_first_token() {
    for source in ["<", "<+++.", "<>", " <\n[-]"] {
        let (_, transcript) = run_source(source, &[], 100);
        let col = if source.starts_with(' ') { 2 } else { 1 };
        assert_eq!(
            transcript.action,
            Action::Fail(BrainfartError::PointZeroDec(Token {
                ty: TokenType::PointDec,
                line: 1,
                col,
            }))
        );
        assert_eq!(text(&transcript), "");
    }
}

#[test]
fn leading_decrement_fails_at_first_token() {
    for source in ["-", "-+", "->>.", "--"] {
        let (state, transcript) = run_source(source, &[], 100);
        assert_eq!(
            transcript.action,
            Action::Fail(BrainfartError::ValZeroDec(Token {
                ty: TokenType::ValDec,
                line: 1,
                col: 1,
            }))
        );
        assert_eq!(state.tape(), &vec![0]);
    }
}

#[test]
fn underflow_is_reported_at_the_unit_that_went_too_far() {
    // two increments, then three decrements: the third one fails
    let (state, transcript) = run_source("++>.\n<.---", &[], 100);
    assert_eq!(
        transcript.action,
        Action::Fail(BrainfartError::ValZeroDec(Token {
            ty: TokenType::ValDec,
            line: 2,
            col: 5,
        }))
    );
    assert_eq!(state.tape(), &vec![2, 0]);
    assert_eq!(text(&transcript), "\0\u{2}");
    // two moves right, a write, then three moves left: the third one fails
    let (state, transcript) = run_source(">>.<<<", &[], 100);
    assert_eq!(
        transcript.action,
        Action::Fail(BrainfartError::PointZeroDec(Token {
            ty: TokenType::PointDec,
            line: 1,
            col: 6,
        }))
    );
    assert_eq!(state.pointer(), 2);
    assert_eq!(text(&transcript), "\0");
}

#[test]
fn echoes_one_character() {
    let (state, transcript) = run_source(",.", &[Some('A')], 100);
    assert_eq!(transcript.action, Action::Halt);
    assert_eq!(text(&transcript), "A");
    assert_eq!(transcript.reads, 1);
    assert_eq!(state.tape(), &vec![65]);
}

#[test]
fn repeated_input_keeps_the_last_line() {
    let (state, transcript) = run_source(",,,..", &[Some('a'), Some('b'), Some('c'), Some('d')], 100);
    assert_eq!(transcript.action, Action::Halt);
    assert_eq!(text(&transcript), "cc");
    assert_eq!(transcript.reads, 3);
    assert_eq!(state.tape(), &vec![99]);
}

#[test]
fn failed_read_stops_the_run_at_first_token_of_the_run() {
    let (state, transcript) = run_source("+.\n ,,,.", &[Some('x'), None, Some('y')], 100);
    assert_eq!(
        transcript.action,
        Action::Fail(BrainfartError::Io(Token {
            ty: TokenType::Input,
            line: 2,
            col: 2,
        }))
    );
    assert_eq!(text(&transcript), "\u{1}");
    assert_eq!(transcript.reads, 1);
    assert_eq!(state.tape(), &vec![120]);
}

#[test]
fn reading_past_the_end_of_input_fails() {
    let (_, transcript) = run_source(",", &[], 100);
    assert_eq!(
        transcript.action,
        Action::Fail(BrainfartError::Io(Token {
            ty: TokenType::Input,
            line: 1,
            col: 1,
        }))
    );
}

#[test]
fn hello_world() {
    let source = "++++++++[>++++[>++>+++>+++>+<<<<-]>+>+>->>+[<]<-]>>.>---.+++++++..+++.>>.<-.<.+++.------.--------.>>+.>++.";
    let (_, transcript) = run_source(source, &[], 100_000);
    assert_eq!(transcript.action, Action::Halt);
    assert_eq!(text(&transcript), "Hello World!\n");
}

#[test]
fn loop_is_skipped_when_cell_is_zero() {
    let (state, transcript) = run_source("[>+<]>>+", &[], 100);
    assert_eq!(transcript.action, Action::Halt);
    assert_eq!(state.tape(), &vec![0, 0, 1]);
}

#[test]
fn loop_checks_the_cell_before_every_iteration() {
    // moves three from the first cell to the second
    let (state, transcript) = run_source("+++[>+<-]", &[], 100);
    assert_eq!(transcript.action, Action::Halt);
    assert_eq!(state.tape(), &vec![0, 3]);
    assert_eq!(state.pointer(), 0);
}

#[test]
fn zero_loop_assigns_zero() {
    let (state, transcript) = run_source("+++++[-]", &[], 100);
    assert_eq!(transcript.action, Action::Halt);
    assert_eq!(state.tape(), &vec![0]);
    let (state, transcript) = run_source("+++++[-]+++", &[], 100);
    assert_eq!(transcript.action, Action::Halt);
    assert_eq!(state.tape(), &vec![3]);
}

#[test]
fn output_repeats_the_character() {
    let (_, transcript) = run_source(",...", &[Some('z')], 100);
    assert_eq!(text(&transcript), "zzz");
}

#[test]
fn output_of_a_surrogate_is_one_space() {
    // 0xD800 is no character: built as 0xD7FF + 1
    let (state, transcript) = run_source(",+...", &[Some('\u{D7FF}')], 100);
    assert_eq!(transcript.action, Action::Halt);
    assert_eq!(state.tape(), &vec![0xD800]);
    assert_eq!(text(&transcript), " ");
}

#[test]
fn step_limit_stops_a_run_that_does_not_end() {
    let exprs = compile("+[>+.<]");
    let mut state = ProgState::default();
    let transcript = state.run(&exprs, &[], 1000);
    assert_eq!(transcript.action, Action::Continue);
    assert!(!transcript.output.is_empty());
    // the run goes on where it stopped
    let again = state.run(&exprs, &[], 1000);
    assert_eq!(again.action, Action::Continue);
    let first_last = *transcript.output.last().unwrap() as u32;
    let again_first = again.output[0] as u32;
    assert_eq!(again_first, first_last + 1);
}

#[test]
fn zero_steps_change_nothing() {
    let exprs = compile("+++");
    let mut state = ProgState::default();
    let transcript = state.run(&exprs, &[], 0);
    assert_eq!(transcript.action, Action::Continue);
    assert_eq!(state.tape(), &vec![0]);
}

#[test]
fn cell_overflow_is_reported() {
    // multiplies the value read by 65536, which leaves 32 bits
    let source = format!(",[>{}<-]", "+".repeat(65536));
    let (state, transcript) = run_source(&source, &[Some('\u{10FFFF}')], 10_000_000);
    assert_eq!(transcript.action, Action::Overflow);
    // 65535 additions fit, the next one does not
    assert_eq!(state.tape()[1], 65535 * 65536);
    assert_eq!(state.tape()[0], 0x10FFFF - 65535);
    assert_eq!(state.pointer(), 1);
}

#[test]
fn steps_by_hand() {
    let exprs = compile(",[.-]");
    let mut state = ProgState::default();
    // the input asks for a line, as often as it is not given one
    assert_eq!(state.step(&exprs, Event::Resume), Action::Read);
    assert_eq!(state.step(&exprs, Event::Resume), Action::Read);
    assert_eq!(state.step(&exprs, Event::Char('\u{2}')), Action::Continue);
    assert_eq!(state.tape(), &vec![2]);
    // the input is complete
    assert_eq!(state.step(&exprs, Event::Resume), Action::Continue);
    // the loop is entered
    assert_eq!(state.step(&exprs, Event::Resume), Action::Continue);
    assert_eq!(state.step(&exprs, Event::Resume), Action::Print('\u{2}', 1));
    assert_eq!(state.step(&exprs, Event::Resume), Action::Continue);
    assert_eq!(state.tape(), &vec![1]);
    // end of the body, and the loop again
    assert_eq!(state.step(&exprs, Event::Resume), Action::Continue);
    assert_eq!(state.step(&exprs, Event::Resume), Action::Continue);
    assert_eq!(state.step(&exprs, Event::Resume), Action::Print('\u{1}', 1));
    assert_eq!(state.step(&exprs, Event::Resume), Action::Continue);
    assert_eq!(state.tape(), &vec![0]);
    assert_eq!(state.step(&exprs, Event::Resume), Action::Continue);
    // the loop is passed over
    assert_eq!(state.step(&exprs, Event::Resume), Action::Continue);
    assert_eq!(state.step(&exprs, Event::Resume), Action::Halt);
    assert_eq!(state.step(&exprs, Event::Resume), Action::Halt);
}

#[test]
fn event_is_ignored_where_no_line_is_asked_for() {
    let exprs = compile("+");
    let mut state = ProgState::default();
    assert_eq!(state.step(&exprs, Event::Char('x')), Action::Continue);
    assert_eq!(state.tape(), &vec![1]);
    assert_eq!(state.step(&exprs, Event::ReadFailed), Action::Halt);
}

#[test]
fn failed_read_by_hand() {
    let exprs = compile(" ,");
    let mut state = ProgState::default();
    assert_eq!(state.step(&exprs, Event::Resume), Action::Read);
    assert_eq!(
        state.step(&exprs, Event::ReadFailed),
        Action::Fail(BrainfartError::Io(Token {
            ty: TokenType::Input,
            line: 1,
            col: 2,
        }))
    );
}

#[test]
fn runs_a_tree_built_by_hand() {
    // [>+<-] on a cell of two, written without the parser
    let body = vec![
        unit(ExprType::MoveRight(1), TokenType::PointInc, 4),
        unit(ExprType::Add(1), TokenType::ValInc, 5),
        unit(ExprType::MoveLeft(1), TokenType::PointDec, 6),
        unit(ExprType::Sub(1), TokenType::ValDec, 7),
    ];
    let exprs = vec![
        Expr {
            ty: ExprType::Add(2),
            tokens: vec![
                Token {
                    ty: TokenType::ValInc,
                    line: 1,
                    col: 1,
                },
                Token {
                    ty: TokenType::ValInc,
                    line: 1,
                    col: 2,
                },
            ],
        },
        Expr {
            ty: ExprType::LoopBlock(Box::new(LoopBlock { exprs: body })),
            tokens: vec![],
        },
    ];
    let mut state = ProgState::default();
    let transcript = state.run(&exprs, &[], 100);
    assert_eq!(transcript.action, Action::Halt);
    assert_eq!(state.tape(), &vec![0, 2]);
}

#[test]
fn optimized_and_plain_trees_agree() {
    // "++>+<-[-]+." once as the parser gives it, once unit by unit
    let optimized = compile("++>+<-[-]+.");
    let plain = vec![
        unit(ExprType::Add(1), TokenType::ValInc, 1),
        unit(ExprType::Add(1), TokenType::ValInc, 2),
        unit(ExprType::MoveRight(1), TokenType::PointInc, 3),
        unit(ExprType::Add(1), TokenType::ValInc, 4),
        unit(ExprType::MoveLeft(1), TokenType::PointDec, 5),
        unit(ExprType::Sub(1), TokenType::ValDec, 6),
        Expr {
            ty: ExprType::LoopBlock(Box::new(LoopBlock {
                exprs: vec![unit(ExprType::Sub(1), TokenType::ValDec, 8)],
            })),
            tokens: vec![],
        },
        unit(ExprType::Add(1), TokenType::ValInc, 10),
        unit(ExprType::Output(1), TokenType::Output, 11),
    ];
    let mut first = ProgState::default();
    let mut second = ProgState::default();
    let a = first.run(&optimized, &[], 1000);
    let b = second.run(&plain, &[], 1000);
    assert_eq!(a.action, Action::Halt);
    assert_eq!(b.action, Action::Halt);
    assert_eq!(a.output, b.output);
    assert_eq!(text(&a), "\u{1}");
    assert_eq!(first.tape(), second.tape());
    assert_eq!(first.tape(), &vec![1, 1]);
    assert_eq!(first.pointer(), second.pointer());
}

#[test]
fn optimized_and_plain_trees_fail_alike() {
    // ".+--" fails at the second decrement, however it is written down
    let optimized = compile(".+--");
    let plain = vec![
        unit(ExprType::Output(1), TokenType::Output, 1),
        unit(ExprType::Add(1), TokenType::ValInc, 2),
        unit(ExprType::Sub(1), TokenType::ValDec, 3),
        unit(ExprType::Sub(1), TokenType::ValDec, 4),
    ];
    let a = ProgState::default().run(&optimized, &[], 1000);
    let b = ProgState::default().run(&plain, &[], 1000);
    let failure = Action::Fail(BrainfartError::ValZeroDec(Token {
        ty: TokenType::ValDec,
        line: 1,
        col: 4,
    }));
    assert_eq!(a.action, failure);
    assert_eq!(b.action, failure);
    assert_eq!(a.output, b.output);
    assert_eq!(text(&a), "\0");
}

#[test]
fn each_single_write_of_no_character_gives_a_space() {
    // two writes in one run give one space, two runs of one write give two
    let merged = compile(",+..");
    let apart = vec![
        unit(ExprType::Input(1), TokenType::Input, 1),
        unit(ExprType::Add(1), TokenType::ValInc, 2),
        unit(ExprType::Output(1), TokenType::Output, 3),
        unit(ExprType::Output(1), TokenType::Output, 4),
    ];
    let a = ProgState::default().run(&merged, &[Some('\u{D7FF}')], 1000);
    let b = ProgState::default().run(&apart, &[Some('\u{D7FF}')], 1000);
    assert_eq!(a.action, Action::Halt);
    assert_eq!(b.action, Action::Halt);
    assert_eq!(text(&a), " ");
    assert_eq!(text(&b), "  ");
}

#[test]
fn values_above_the_last_character_are_no_characters() {
    // 0x10FFFF is the last character, 0x110000 is none
    let (_, transcript) = run_source(",.+.", &[Some('\u{10FFFF}')], 100);
    assert_eq!(transcript.action, Action::Halt);
    assert_eq!(text(&transcript), "\u{10FFFF} ");
    // 0xE000 follows the surrogates: 0xD7FF and 2048 more make 0xDFFF
    let source = format!(",{}.+.", "+".repeat(2048));
    let (state, transcript) = run_source(&source, &[Some('\u{D7FF}')], 100);
    assert_eq!(transcript.action, Action::Halt);
    assert_eq!(state.tape(), &vec![0xE000]);
    assert_eq!(text(&transcript), " \u{E000}");
}
