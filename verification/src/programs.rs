//! What holds of whole families of programs, from the source text to the
//! end of the run.

use vstd::prelude::*;
use crate::error::BrainfartError;
use crate::expr::{Node, Op};
use crate::lexer::{
    col_at, command, depth_at, first_stray_close, lex_spec, line_at, stray_close, tokens_upto,
};
use crate::parser::{emit, lemma_parse_items_next, loop_node, parse_items, parse_spec};
use crate::progstate::{Action, Event, Machine, run_spec, step_spec};
use crate::token::{Token, TokenType};

verus! {

/// The list begins with a run of moves to the left or of decrements whose
/// first token is `t`.
pub open spec fn held_back(ns: Seq<Node>, t: Token) -> bool {
    &&& ns.len() >= 1
    &&& ns[0].op is MoveLeft || ns[0].op is Sub
    &&& ns[0].op is MoveLeft <==> t.ty == TokenType::PointDec
    &&& ns[0].wf()
    &&& ns[0].tokens[0] == t
}

/// What the parser makes of more tokens begins as the list began that it
/// began with, if that began with a run of moves to the left or of
/// decrements: no command cancels or merges into the first unit of such a
/// run.
pub proof fn lemma_parse_keeps_head(
    ts: Seq<Token>,
    pos: int,
    acc: Seq<Node>,
    nested: bool,
    t: Token,
)
    requires
        0 <= pos <= ts.len(),
        held_back(acc, t),
        parse_items(ts, pos, acc, nested).result is Ok,
    ensures
        held_back(parse_items(ts, pos, acc, nested).result->Ok_0, t),
    decreases ts.len() - pos,
{
    if pos < ts.len() {
        match ts[pos].ty {
            TokenType::IfZero => {
                let inner = parse_items(ts, pos + 1, Seq::empty(), true);
                lemma_parse_items_next(ts, pos + 1, Seq::empty(), true);
                let node = loop_node(inner.result->Ok_0, inner.closed);
                assert(acc.push(node)[0] == acc[0]);
                lemma_parse_keeps_head(ts, inner.next, acc.push(node), nested, t);
            },
            TokenType::IfNonZero => {
                if !nested {
                    lemma_parse_keeps_head(ts, pos + 1, acc, nested, t);
                }
            },
            _ => {
                let after = emit(acc, ts[pos])->Ok_0;
                assert(held_back(after, t)) by {
                    if acc.len() >= 2 {
                        assert(after[0] == acc[0]);
                    }
                }
                lemma_parse_keeps_head(ts, pos + 1, after, nested, t);
            },
        }
    }
}

/// The tokens of a source that begins with a command begin with the token of
/// that command, at line 1 and column 1.
pub proof fn lemma_first_token(s: Seq<char>, i: int)
    requires
        1 <= i <= s.len(),
        command(s[0]) is Some,
    ensures
        tokens_upto(s, i).len() >= 1,
        tokens_upto(s, i)[0] == (Token { ty: command(s[0])->0, line: 1, col: 1 }),
    decreases i,
{
    if i > 1 {
        lemma_first_token(s, i - 1);
    } else {
        assert(tokens_upto(s, 0) =~= Seq::<Token>::empty());
    }
}

/// A program whose source begins with a move to the left fails at once with
/// the pointer at the first cell, and one whose source begins with a
/// decrement fails at once with the cell at zero: either at line 1 and
/// column 1, and before anything is written. This holds of every source
/// that the lexer and the parser accept, whatever the input holds and
/// whatever the number of steps allowed, if it is not zero.
pub proof fn lemma_fails_at_first_command(s: Seq<char>, input: Seq<Option<char>>, limit: nat)
    requires
        s.len() >= 1,
        s[0] == '<' || s[0] == '-',
        lex_spec(s) is Ok,
        parse_spec(lex_spec(s)->Ok_0) is Ok,
        limit >= 1,
    ensures
        ({
            let nodes = parse_spec(lex_spec(s)->Ok_0)->Ok_0;
            let trace = run_spec(nodes, Machine::initial(), input, 0, Seq::empty(), limit);
            let first = Token { ty: command(s[0])->0, line: 1, col: 1 };
            &&& trace.action == if s[0] == '<' {
                Action::Fail(BrainfartError::PointZeroDec(first))
            } else {
                Action::Fail(BrainfartError::ValZeroDec(first))
            }
            &&& trace.out == Seq::<char>::empty()
            &&& trace.machine == Machine::initial()
        }),
{
    let ts = lex_spec(s)->Ok_0;
    let first = Token { ty: command(s[0])->0, line: 1, col: 1 };
    lemma_first_token(s, s.len() as int);
    assert(ts[0] == first);
    let none = Seq::<Node>::empty();
    let begun = emit(none, first)->Ok_0;
    assert(held_back(begun, first));
    assert(parse_items(ts, 0, none, false) == parse_items(ts, 1, begun, false));
    lemma_parse_keeps_head(ts, 1, begun, false, first);
    let nodes = parse_spec(ts)->Ok_0;
    let m = Machine::initial();
    assert(m.path.last() == 0);
    assert(step_spec(nodes, m, Event::Resume).0 == m);
}

/// The source of `k` moves to the right followed by one increment.
pub open spec fn climb(k: nat) -> Seq<char> {
    Seq::new(k, |i: int| '>').push('+')
}

/// The tokens of `climb(k)`: all on line 1, each in the column of its
/// character.
pub open spec fn climb_tokens(k: nat) -> Seq<Token> {
    Seq::new(k, |i: int| Token { ty: TokenType::PointInc, line: 1, col: (i + 1) as u32 }).push(
        Token { ty: TokenType::ValInc, line: 1, col: (k + 1) as u32 },
    )
}

/// The expressions of `climb(k)`: one run of `k` moves to the right, if
/// there are any, and one increment.
pub open spec fn climb_nodes(k: nat) -> Seq<Node> {
    let ts = climb_tokens(k);
    let last = Node { op: Op::Add(1), tokens: seq![ts[k as int]] };
    if k == 0 {
        seq![last]
    } else {
        seq![Node { op: Op::MoveRight(k), tokens: ts.take(k as int) }, last]
    }
}

/// The tape with a one in cell `k` and zeros before it.
pub open spec fn climbed(k: nat) -> Seq<u32> {
    Seq::new(
        k + 1,
        |i: int|
            if i == k {
                1u32
            } else {
                0u32
            },
    )
}

/// The positions and tokens of the first `i` characters of `climb(k)`.
proof fn lemma_climb_positions(k: nat, i: int)
    requires
        0 <= i <= k + 1 <= u32::MAX,
    ensures
        line_at(climb(k), i) == 1,
        col_at(climb(k), i) == i + 1,
        depth_at(climb(k), i) == 0,
        tokens_upto(climb(k), i) == climb_tokens(k).take(i),
        forall|j: int| 0 <= j < i ==> !stray_close(climb(k), j),
    decreases i,
{
    let s = climb(k);
    if i > 0 {
        lemma_climb_positions(k, i - 1);
        assert(tokens_upto(s, i) =~= climb_tokens(k).take(i));
    } else {
        assert(tokens_upto(s, i) =~= climb_tokens(k).take(i));
    }
}

/// Lexing `climb(k)` gives `climb_tokens(k)`.
pub proof fn lemma_climb_lexes(k: nat)
    requires
        k + 1 <= u32::MAX,
    ensures
        lex_spec(climb(k)) == Ok::<Seq<Token>, BrainfartError>(climb_tokens(k)),
{
    let s = climb(k);
    lemma_climb_positions(k, k as int + 1);
    assert(climb_tokens(k).take(k as int + 1) =~= climb_tokens(k));
    assert forall|i: int| !first_stray_close(s, i) by {
        if 0 <= i < s.len() {
            assert(!stray_close(s, i));
        }
    }
}

/// The list that the parser holds after `pos` moves to the right.
pub open spec fn climbing(k: nat, pos: int) -> Seq<Node> {
    if pos <= 0 {
        Seq::empty()
    } else {
        seq![Node { op: Op::MoveRight(pos as nat), tokens: climb_tokens(k).take(pos) }]
    }
}

/// Parsing `climb_tokens(k)` from the token at `pos` on.
proof fn lemma_climb_parse_from(k: nat, pos: int)
    requires
        0 <= pos <= k,
    ensures
        parse_items(climb_tokens(k), pos, climbing(k, pos), false).result == Ok::<
            Seq<Node>,
            BrainfartError,
        >(climb_nodes(k)),
    decreases k - pos,
{
    let ts = climb_tokens(k);
    let acc = climbing(k, pos);
    if pos < k {
        let after = emit(acc, ts[pos])->Ok_0;
        assert(ts[pos].ty == TokenType::PointInc);
        assert(ts.take(pos).push(ts[pos]) =~= ts.take(pos + 1));
        assert(seq![ts[pos]] =~= Seq::<Token>::empty().push(ts[pos]));
        if pos == 0 {
            assert(ts.take(0) =~= Seq::<Token>::empty());
            assert(after[0].tokens =~= ts.take(1));
        } else {
            assert(after[0].tokens =~= ts.take(pos + 1));
        }
        assert(after[0] == climbing(k, pos + 1)[0]);
        assert(after =~= climbing(k, pos + 1));
        lemma_climb_parse_from(k, pos + 1);
    } else {
        let after = emit(acc, ts[pos])->Ok_0;
        assert(after =~= climb_nodes(k));
        assert(parse_items(ts, pos + 1, after, false).result == Ok::<Seq<Node>, BrainfartError>(
            after,
        ));
    }
}

/// Parsing `climb_tokens(k)` gives `climb_nodes(k)`.
pub proof fn lemma_climb_parses(k: nat)
    ensures
        parse_spec(climb_tokens(k)) == Ok::<Seq<Node>, BrainfartError>(climb_nodes(k)),
{
    lemma_climb_parse_from(k, 0);
}

/// Running `climb_nodes(k)` from the start leaves a tape of `k + 1` cells
/// with a one in the last.
pub proof fn lemma_climb_runs(k: nat, input: Seq<Option<char>>, limit: nat)
    requires
        k + 1 <= u32::MAX,
        limit >= 3,
    ensures
        ({
            let trace = run_spec(
                climb_nodes(k),
                Machine::initial(),
                input,
                0,
                Seq::empty(),
                limit,
            );
            &&& trace.action == Action::Halt
            &&& trace.machine.tape == climbed(k)
            &&& trace.machine.ptr == k
            &&& trace.out == Seq::<char>::empty()
            &&& trace.used == 0
        }),
{
    let ns = climb_nodes(k);
    let none = Seq::<char>::empty();
    let m0 = Machine::initial();
    assert(m0.path.last() == 0);
    if k == 0 {
        let m1 = step_spec(ns, m0, Event::Resume).0;
        assert(m1.path =~= seq![1usize]);
        assert(m1.tape =~= climbed(k));
        assert(m1.path.last() == 1);
        assert(step_spec(ns, m1, Event::Resume) == (m1, Action::Halt));
        assert(run_spec(ns, m1, input, 0, none, (limit - 1) as nat).action == Action::Halt);
    } else {
        let m1 = step_spec(ns, m0, Event::Resume).0;
        assert(m1.path =~= seq![1usize]);
        assert(m1.path.last() == 1);
        assert(m1.ptr == k);
        assert(m1.tape.len() == k + 1);
        let m2 = step_spec(ns, m1, Event::Resume).0;
        assert(m2.path =~= seq![2usize]);
        assert(m2.path.last() == 2);
        assert(m2.tape =~= climbed(k));
        assert(step_spec(ns, m2, Event::Resume) == (m2, Action::Halt));
        assert(run_spec(ns, m2, input, 0, none, (limit - 2) as nat).action == Action::Halt);
        assert(run_spec(ns, m1, input, 0, none, (limit - 1) as nat) == run_spec(
            ns,
            m2,
            input,
            0,
            none,
            (limit - 2) as nat,
        ));
    }
}

/// A program of `k` moves to the right followed by one increment is
/// accepted by the lexer and by the parser, and its run halts and leaves a
/// tape of `k + 1` cells with a one in the last cell and zeros in all
/// others, the pointer on the last cell, and nothing written: whatever the
/// input holds, and whatever the number of steps allowed from three on.
pub proof fn lemma_climb(k: nat, input: Seq<Option<char>>, limit: nat)
    requires
        k + 1 <= u32::MAX,
        limit >= 3,
    ensures
        lex_spec(climb(k)) is Ok,
        parse_spec(lex_spec(climb(k))->Ok_0) is Ok,
        ({
            let nodes = parse_spec(lex_spec(climb(k))->Ok_0)->Ok_0;
            let trace = run_spec(nodes, Machine::initial(), input, 0, Seq::empty(), limit);
            &&& trace.action == Action::Halt
            &&& trace.machine.tape.len() == k + 1
            &&& trace.machine.tape[k as int] == 1
            &&& forall|i: int| 0 <= i < k ==> trace.machine.tape[i] == 0
            &&& trace.machine.ptr == k
            &&& trace.out == Seq::<char>::empty()
        }),
{
    lemma_climb_lexes(k);
    lemma_climb_parses(k);
    lemma_climb_runs(k, input, limit);
}

} // verus!
