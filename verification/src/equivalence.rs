//! The optimizer keeps the meaning of a program.
//!
//! The meaning of a source is fixed by the plain tree of its tokens: one
//! expression of one unit for each command, one loop for each pair of
//! brackets, nothing merged, cancelled or rewritten. This module shows that
//! the tree which the parser builds runs as the plain tree does.

use vstd::prelude::*;
use crate::error::BrainfartError;
use crate::expr::{Node, Op, sized_nodes, wf_nodes};
use crate::parser::{
    emit, fits, grown, is_zero_loop, lemma_emit_fits, lemma_loop_node_fits,
    lemma_parse_items_fits, lemma_parse_items_next, loop_node, parse_items, parse_spec, shrunk,
    single, with_input, with_output, with_point_dec, with_point_inc, with_val_dec, with_val_inc,
};
use crate::semantics::{
    End, Outcome, Store, done, eval_loop, eval_node, eval_nodes, is_scalar, lemma_eval_concat,
    lemma_eval_nodes_more_fuel, lemma_eval_push, lemma_reach_loop, lemma_reach_node, line_at,
    read_lines, repeated, then_node,
};
use crate::completeness::{lemma_run_complete, lemma_run_settled};
use crate::progstate::{Action, Machine, lemma_run_keeps_shape, run_spec};
use crate::soundness::{cells_of, lemma_initial_store, lemma_run_from_start};
use crate::token::{Token, TokenType};

verus! {

/// The expression of one command by itself.
pub open spec fn unit_node(token: Token) -> Node
    recommends
        token.ty != TokenType::IfZero,
        token.ty != TokenType::IfNonZero,
{
    single(
        match token.ty {
            TokenType::PointInc => Op::MoveRight(1),
            TokenType::PointDec => Op::MoveLeft(1),
            TokenType::ValInc => Op::Add(1),
            TokenType::ValDec => Op::Sub(1),
            TokenType::Output => Op::Output(1),
            _ => Op::Input(1),
        },
        token,
    )
}

/// A loop that keeps its body.
pub open spec fn plain_loop(body: Seq<Node>) -> Node {
    Node { op: Op::Loop(body), tokens: Seq::empty() }
}

/// Where building a plain list of expressions ended: the list, the index of
/// the first token that was not consumed, and whether the list was ended by
/// a closing bracket.
pub struct Plain {
    pub nodes: Seq<Node>,
    pub next: int,
    pub closed: bool,
}

/// Builds the plain tree of the tokens from index `pos` on into the list
/// `acc`: brackets are matched as the parser matches them, and every other
/// token becomes an expression of its own.
pub open spec fn plain_items(ts: Seq<Token>, pos: int, acc: Seq<Node>, nested: bool) -> Plain
    decreases ts.len() - pos,
{
    if pos < 0 || pos >= ts.len() {
        Plain { nodes: acc, next: pos, closed: false }
    } else {
        match ts[pos].ty {
            TokenType::IfZero => {
                let inner = plain_items(ts, pos + 1, Seq::empty(), true);
                let next = if pos < inner.next <= ts.len() {
                    inner.next
                } else {
                    pos + 1
                };
                plain_items(ts, next, acc.push(plain_loop(inner.nodes)), nested)
            },
            TokenType::IfNonZero => if nested {
                Plain { nodes: acc, next: pos + 1, closed: true }
            } else {
                plain_items(ts, pos + 1, acc, nested)
            },
            _ => plain_items(ts, pos + 1, acc.push(unit_node(ts[pos])), nested),
        }
    }
}

/// The plain tree of a token sequence.
pub open spec fn plain_spec(ts: Seq<Token>) -> Seq<Node> {
    plain_items(ts, 0, Seq::empty(), false).nodes
}

/// Two failures are of one kind and at one token; or both are failures of
/// the input, which a run of inputs reports at its first token.
pub open spec fn same_failure(e1: BrainfartError, e2: BrainfartError) -> bool {
    e1 == e2 || (e1 is Io && e2 is Io)
}

/// The outcome `opt` of an optimized program is what the outcome `plain` of
/// the plain program asks for.
///
/// Where the plain program came to its end, the optimized one came to its
/// end with the same store, but that its pointer need not have been as far
/// to the right. Where the plain program failed, the optimized
/// one failed in the same way after writing the same. Nothing is asked
/// where the plain program overflowed a cell or the bound was too small,
/// nor where the optimized program wrote a single space for several writes
/// of a value that is no character; and that it did only where the plain
/// program, if it ended, wrote a value that is no character.
pub open spec fn agrees(plain: Outcome, opt: Outcome) -> bool {
    &&& plain.store.coalesced ==> opt.store.coalesced
    &&& (plain.end is Done || plain.end is Fail) && opt.store.coalesced ==> plain.store.blanked
        || plain.store.coalesced
    &&& opt.store.coalesced || match plain.end {
        End::Done => opt.end is Done && opt.store.reaching(plain.store.reach) == plain.store,
        End::Fail(e) => {
            &&& opt.end matches End::Fail(e2)
            &&& same_failure(e, e2)
            &&& opt.store.out == plain.store.out
            &&& opt.store.blanked == plain.store.blanked
        },
        End::Overflow => true,
        End::Timeout => true,
    }
}

/// The list `q` runs as the list `p` does, from every store.
pub open spec fn refines(p: Seq<Node>, q: Seq<Node>) -> bool {
    forall|s: Store, input: Seq<Option<char>>, fuel: nat|
        agrees(eval_nodes(p, s, input, fuel), #[trigger] eval_nodes(q, s, input, fuel))
}

/// The expression `y` runs as the expression `x` does, from every store.
pub open spec fn refines_node(x: Node, y: Node) -> bool {
    forall|s: Store, input: Seq<Option<char>>, fuel: nat|
        agrees(eval_node(x, s, input, fuel), #[trigger] eval_node(y, s, input, fuel))
}

/// What agrees with an outcome agrees with every outcome that this one
/// agrees with.
pub proof fn lemma_agrees_trans(a: Outcome, b: Outcome, c: Outcome)
    requires
        agrees(a, b),
        agrees(b, c),
    ensures
        agrees(a, c),
{
}

/// Once a run has written a value that is no character, and once it has
/// written a single space for several writes, every store after that says
/// so.
pub proof fn lemma_coalesced_stays(ns: Seq<Node>, s: Store, input: Seq<Option<char>>, fuel: nat)
    ensures
        s.coalesced ==> eval_nodes(ns, s, input, fuel).store.coalesced,
        s.blanked ==> eval_nodes(ns, s, input, fuel).store.blanked,
        (s.coalesced ==> s.blanked) && eval_nodes(ns, s, input, fuel).store.coalesced ==> eval_nodes(ns, s, input, fuel).store.blanked,
    decreases fuel, ns.len() + 2,
{
    if ns.len() > 0 {
        lemma_coalesced_stays_node(ns[0], s, input, fuel);
        let first = eval_node(ns[0], s, input, fuel);
        if first.end is Done {
            lemma_coalesced_stays(ns.drop_first(), first.store, input, fuel);
        }
    }
}

/// The same for one expression.
pub proof fn lemma_coalesced_stays_node(
    node: Node,
    s: Store,
    input: Seq<Option<char>>,
    fuel: nat,
)
    ensures
        s.coalesced ==> eval_node(node, s, input, fuel).store.coalesced,
        s.blanked ==> eval_node(node, s, input, fuel).store.blanked,
        (s.coalesced ==> s.blanked) && eval_node(node, s, input, fuel).store.coalesced ==> eval_node(node, s, input, fuel).store.blanked,
    decreases fuel, 1nat,
{
    match node.op {
        Op::Loop(body) => lemma_coalesced_stays_loop(body, s, input, fuel),
        Op::Input(n) => lemma_coalesced_stays_read(n, node.tokens[0], s, input),
        _ => {},
    }
}

/// The same for a loop.
pub proof fn lemma_coalesced_stays_loop(
    body: Seq<Node>,
    s: Store,
    input: Seq<Option<char>>,
    fuel: nat,
)
    ensures
        s.coalesced ==> eval_loop(body, s, input, fuel).store.coalesced,
        s.blanked ==> eval_loop(body, s, input, fuel).store.blanked,
        (s.coalesced ==> s.blanked) && eval_loop(body, s, input, fuel).store.coalesced ==> eval_loop(body, s, input, fuel).store.blanked,
    decreases fuel, 0nat,
{
    if s.cell() != 0 && fuel > 0 {
        lemma_coalesced_stays(body, s, input, (fuel - 1) as nat);
        let once = eval_nodes(body, s, input, (fuel - 1) as nat);
        if once.end is Done {
            lemma_coalesced_stays_loop(body, once.store, input, (fuel - 1) as nat);
        }
    }
}

/// The same for a run of inputs.
pub proof fn lemma_coalesced_stays_read(n: nat, token: Token, s: Store, input: Seq<Option<char>>)
    ensures
        s.coalesced ==> read_lines(n, token, s, input).store.coalesced,
        s.blanked ==> read_lines(n, token, s, input).store.blanked,
        (s.coalesced ==> s.blanked) && read_lines(n, token, s, input).store.coalesced ==> read_lines(n, token, s, input).store.blanked,
    decreases n,
{
    if n > 0 {
        if let Some(c) = line_at(input, s.used) {
            lemma_coalesced_stays_read((n - 1) as nat, token, s.with_line(c), input);
        }
    }
}

/// Outcomes that agree still agree after each is followed by an expression,
/// if the second expression runs as the first does from the store that the
/// second outcome left.
pub proof fn lemma_then_node_agrees(
    a: Outcome,
    b: Outcome,
    x: Node,
    y: Node,
    input: Seq<Option<char>>,
    fuel: nat,
)
    requires
        agrees(a, b),
        b.end is Done ==> agrees(
            eval_node(x, b.store, input, fuel),
            eval_node(y, b.store, input, fuel),
        ),
    ensures
        agrees(then_node(a, x, input, fuel), then_node(b, y, input, fuel)),
{
    if b.end is Done {
        lemma_coalesced_stays_node(y, b.store, input, fuel);
    }
    if a.end is Done {
        lemma_coalesced_stays_node(x, a.store, input, fuel);
        if b.end is Done && !b.store.coalesced {
            lemma_reach_node(x, b.store, a.store.reach, input, fuel);
        }
    }
}

/// Lists of which the second runs as the first does still do so after each
/// got one more expression, if the second of these runs as the first does.
pub proof fn lemma_push_refines(p: Seq<Node>, q: Seq<Node>, x: Node, y: Node)
    requires
        refines(p, q),
        refines_node(x, y),
    ensures
        refines(p.push(x), q.push(y)),
{
    assert forall|s: Store, input: Seq<Option<char>>, fuel: nat|
        agrees(
            eval_nodes(p.push(x), s, input, fuel),
            #[trigger] eval_nodes(q.push(y), s, input, fuel),
        ) by {
        lemma_eval_push(p, x, s, input, fuel);
        lemma_eval_push(q, y, s, input, fuel);
        let a = eval_nodes(p, s, input, fuel);
        let b = eval_nodes(q, s, input, fuel);
        assert(agrees(a, b));
        if b.end is Done {
            assert(agrees(
                eval_node(x, b.store, input, fuel),
                eval_node(y, b.store, input, fuel),
            ));
        }
        lemma_then_node_agrees(a, b, x, y, input, fuel);
    }
}

/// Running the empty list changes nothing.
pub proof fn lemma_eval_empty(s: Store, input: Seq<Option<char>>, fuel: nat)
    ensures
        eval_nodes(Seq::empty(), s, input, fuel) == done(s),
{
}

/// Running a list of one expression is running the expression.
pub proof fn lemma_eval_one(x: Node, s: Store, input: Seq<Option<char>>, fuel: nat)
    ensures
        eval_nodes(seq![x], s, input, fuel) == eval_node(x, s, input, fuel),
{
    lemma_eval_push(Seq::empty(), x, s, input, fuel);
    assert(Seq::<Node>::empty().push(x) =~= seq![x]);
}

/// Running a list of two expressions is running the first, then the second.
pub proof fn lemma_eval_two(x: Node, y: Node, s: Store, input: Seq<Option<char>>, fuel: nat)
    ensures
        eval_nodes(seq![x, y], s, input, fuel) == then_node(
            eval_node(x, s, input, fuel),
            y,
            input,
            fuel,
        ),
{
    lemma_eval_one(x, s, input, fuel);
    lemma_eval_push(seq![x], y, s, input, fuel);
    assert(seq![x].push(y) =~= seq![x, y]);
}

/// Writing a cell twice in a row overwrites the first value.
pub proof fn lemma_with_cell_twice(s: Store, a: u32, b: u32)
    ensures
        s.with_cell(a).with_cell(b) == s.with_cell(b),
        s.with_cell(s.cell()) == s,
{
    assert(s.with_cell(a).with_cell(b).cells =~= s.with_cell(b).cells);
    assert(s.with_cell(s.cell()).cells =~= s.cells);
}

/// One more move to the right after a list of one expression runs as the
/// list that the rule of the parser makes of them.
proof fn lemma_point_inc_one(last: Node, t: Token, s: Store, input: Seq<Option<char>>, fuel: nat)
    requires
        last.wf(),
        t.ty == TokenType::PointInc,
    ensures
        agrees(
            then_node(eval_node(last, s, input, fuel), unit_node(t), input, fuel),
            eval_nodes(with_point_inc(seq![last], t), s, input, fuel),
        ),
{
    let after = with_point_inc(seq![last], t);
    match last.op {
        Op::MoveRight(n) => {
            let merged = grown(last, Op::MoveRight(n + 1), t);
            assert(after =~= seq![merged]);
            lemma_eval_one(merged, s, input, fuel);
        },
        _ => {
            assert(after =~= seq![last, unit_node(t)]);
            lemma_eval_two(last, unit_node(t), s, input, fuel);
        },
    }
}

/// The same for one more move to the left.
proof fn lemma_point_dec_one(last: Node, t: Token, s: Store, input: Seq<Option<char>>, fuel: nat)
    requires
        last.wf(),
        t.ty == TokenType::PointDec,
    ensures
        agrees(
            then_node(eval_node(last, s, input, fuel), unit_node(t), input, fuel),
            eval_nodes(with_point_dec(seq![last], t), s, input, fuel),
        ),
{
    let after = with_point_dec(seq![last], t);
    match last.op {
        Op::MoveRight(n) => {
            if n == 1 {
                assert(after =~= Seq::<Node>::empty());
                lemma_eval_empty(s, input, fuel);
                assert(s.reaching(s.ptr + 1) == s.with_ptr(s.ptr + 1).with_ptr(s.ptr));
            } else {
                let merged = shrunk(last, Op::MoveRight((n - 1) as nat));
                assert(after =~= seq![merged]);
                lemma_eval_one(merged, s, input, fuel);
            }
        },
        Op::MoveLeft(n) => {
            let merged = grown(last, Op::MoveLeft(n + 1), t);
            assert(after =~= seq![merged]);
            lemma_eval_one(merged, s, input, fuel);
        },
        _ => {
            assert(after =~= seq![last, unit_node(t)]);
            lemma_eval_two(last, unit_node(t), s, input, fuel);
        },
    }
}

/// The same for one more increment.
proof fn lemma_val_inc_one(last: Node, t: Token, s: Store, input: Seq<Option<char>>, fuel: nat)
    requires
        last.wf(),
        t.ty == TokenType::ValInc,
    ensures
        agrees(
            then_node(eval_node(last, s, input, fuel), unit_node(t), input, fuel),
            eval_nodes(with_val_inc(seq![last], t), s, input, fuel),
        ),
{
    let after = with_val_inc(seq![last], t);
    match last.op {
        Op::Add(n) => {
            let merged = grown(last, Op::Add(n + 1), t);
            assert(after =~= seq![merged]);
            lemma_eval_one(merged, s, input, fuel);
            if s.cell() + n + 1 <= u32::MAX {
                lemma_with_cell_twice(s, (s.cell() + n) as u32, (s.cell() + n + 1) as u32);
            }
        },
        Op::Assign(n) => {
            let merged = grown(last, Op::Assign(n + 1), t);
            assert(after =~= seq![merged]);
            lemma_eval_one(merged, s, input, fuel);
            if n + 1 <= u32::MAX {
                lemma_with_cell_twice(s, n as u32, (n + 1) as u32);
            }
        },
        _ => {
            assert(after =~= seq![last, unit_node(t)]);
            lemma_eval_two(last, unit_node(t), s, input, fuel);
        },
    }
}

/// The same for one more decrement, where the rule does not fail.
proof fn lemma_val_dec_one(last: Node, t: Token, s: Store, input: Seq<Option<char>>, fuel: nat)
    requires
        last.wf(),
        t.ty == TokenType::ValDec,
        with_val_dec(seq![last], t) is Ok,
    ensures
        agrees(
            then_node(eval_node(last, s, input, fuel), unit_node(t), input, fuel),
            eval_nodes(with_val_dec(seq![last], t)->Ok_0, s, input, fuel),
        ),
{
    let after = with_val_dec(seq![last], t)->Ok_0;
    match last.op {
        Op::Add(n) => {
            if n == 1 {
                assert(after =~= Seq::<Node>::empty());
                lemma_eval_empty(s, input, fuel);
                if s.cell() + 1 <= u32::MAX {
                    lemma_with_cell_twice(s, (s.cell() + 1) as u32, s.cell());
                }
            } else {
                let merged = shrunk(last, Op::Add((n - 1) as nat));
                assert(after =~= seq![merged]);
                lemma_eval_one(merged, s, input, fuel);
                if s.cell() + n <= u32::MAX {
                    lemma_with_cell_twice(s, (s.cell() + n) as u32, (s.cell() + n - 1) as u32);
                }
            }
        },
        Op::Sub(n) => {
            let merged = grown(last, Op::Sub(n + 1), t);
            assert(after =~= seq![merged]);
            lemma_eval_one(merged, s, input, fuel);
            if n + 1 <= s.cell() {
                lemma_with_cell_twice(s, (s.cell() - n) as u32, (s.cell() - n - 1) as u32);
            }
        },
        Op::Assign(n) => {
            let merged = shrunk(last, Op::Assign((n - 1) as nat));
            assert(after =~= seq![merged]);
            lemma_eval_one(merged, s, input, fuel);
            if n <= u32::MAX {
                lemma_with_cell_twice(s, n as u32, (n - 1) as u32);
            }
        },
        _ => {
            assert(after =~= seq![last, unit_node(t)]);
            lemma_eval_two(last, unit_node(t), s, input, fuel);
        },
    }
}

/// The same for one more output.
proof fn lemma_output_one(last: Node, t: Token, s: Store, input: Seq<Option<char>>, fuel: nat)
    requires
        last.wf(),
        t.ty == TokenType::Output,
    ensures
        agrees(
            then_node(eval_node(last, s, input, fuel), unit_node(t), input, fuel),
            eval_nodes(with_output(seq![last], t), s, input, fuel),
        ),
{
    let after = with_output(seq![last], t);
    match last.op {
        Op::Output(n) => {
            let merged = grown(last, Op::Output(n + 1), t);
            assert(after =~= seq![merged]);
            lemma_eval_one(merged, s, input, fuel);
            if is_scalar(s.cell()) {
                let c = s.cell() as char;
                assert(s.out + repeated(c, n) + repeated(c, 1) =~= s.out + repeated(c, n + 1));
            }
        },
        _ => {
            assert(after =~= seq![last, unit_node(t)]);
            lemma_eval_two(last, unit_node(t), s, input, fuel);
        },
    }
}

/// Reading `n` times and then once more is reading `n + 1` times, but for
/// the token that a failure of the last read is reported at.
proof fn lemma_read_one_more(n: nat, token: Token, t: Token, s: Store, input: Seq<Option<char>>)
    ensures
        ({
            let first = read_lines(n, token, s, input);
            let both = if first.end is Done {
                read_lines(1, t, first.store, input)
            } else {
                first
            };
            let all = read_lines(n + 1, token, s, input);
            &&& both.store == all.store
            &&& both.end is Done <==> all.end is Done
            &&& both.end is Fail <==> all.end is Fail
            &&& both.end is Fail ==> both.end->Fail_0 is Io && all.end->Fail_0 is Io
            &&& !(both.end is Overflow) && !(both.end is Timeout)
        }),
    decreases n,
{
    if n == 0 {
        if let Some(c) = line_at(input, s.used) {
            assert(read_lines(0, token, s.with_line(c), input) == done(s.with_line(c)));
            assert(read_lines(0, t, s.with_line(c), input) == done(s.with_line(c)));
        }
    } else {
        if let Some(c) = line_at(input, s.used) {
            lemma_read_one_more((n - 1) as nat, token, t, s.with_line(c), input);
        }
    }
}

/// The same for one more input.
proof fn lemma_input_one(last: Node, t: Token, s: Store, input: Seq<Option<char>>, fuel: nat)
    requires
        last.wf(),
        t.ty == TokenType::Input,
    ensures
        agrees(
            then_node(eval_node(last, s, input, fuel), unit_node(t), input, fuel),
            eval_nodes(with_input(seq![last], t), s, input, fuel),
        ),
{
    let after = with_input(seq![last], t);
    match last.op {
        Op::Input(n) => {
            let merged = grown(last, Op::Input(n + 1), t);
            assert(after =~= seq![merged]);
            lemma_eval_one(merged, s, input, fuel);
            lemma_read_one_more(n, last.tokens[0], t, s, input);
        },
        _ => {
            assert(after =~= seq![last, unit_node(t)]);
            lemma_eval_two(last, unit_node(t), s, input, fuel);
        },
    }
}

/// A rule of the parser looks at the last expression of the list only.
proof fn lemma_emit_splits(ns: Seq<Node>, t: Token)
    requires
        ns.len() > 0,
    ensures
        emit(ns, t) is Ok <==> emit(seq![ns.last()], t) is Ok,
        emit(ns, t) is Ok ==> emit(ns, t)->Ok_0 == ns.drop_last() + emit(
            seq![ns.last()],
            t,
        )->Ok_0,
{
    let one = seq![ns.last()];
    assert(one.last() == ns.last());
    if emit(ns, t) is Ok {
        assert(emit(ns, t)->Ok_0 =~= ns.drop_last() + emit(one, t)->Ok_0);
    }
}

/// One more command after a list of one expression runs as the list that
/// the rule of the parser makes of them.
proof fn lemma_emit_one(last: Node, t: Token, s: Store, input: Seq<Option<char>>, fuel: nat)
    requires
        last.wf(),
        t.ty != TokenType::IfZero,
        t.ty != TokenType::IfNonZero,
        emit(seq![last], t) is Ok,
    ensures
        agrees(
            then_node(eval_node(last, s, input, fuel), unit_node(t), input, fuel),
            eval_nodes(emit(seq![last], t)->Ok_0, s, input, fuel),
        ),
{
    match t.ty {
        TokenType::PointInc => lemma_point_inc_one(last, t, s, input, fuel),
        TokenType::PointDec => lemma_point_dec_one(last, t, s, input, fuel),
        TokenType::ValInc => lemma_val_inc_one(last, t, s, input, fuel),
        TokenType::ValDec => lemma_val_dec_one(last, t, s, input, fuel),
        TokenType::Output => lemma_output_one(last, t, s, input, fuel),
        _ => lemma_input_one(last, t, s, input, fuel),
    }
}

/// One more command after a list runs as the list that the rule of the
/// parser makes of them.
proof fn lemma_emit_local(q: Seq<Node>, t: Token, s: Store, input: Seq<Option<char>>, fuel: nat)
    requires
        wf_nodes(q),
        t.ty != TokenType::IfZero,
        t.ty != TokenType::IfNonZero,
        emit(q, t) is Ok,
    ensures
        agrees(
            then_node(eval_nodes(q, s, input, fuel), unit_node(t), input, fuel),
            eval_nodes(emit(q, t)->Ok_0, s, input, fuel),
        ),
{
    if q.len() == 0 {
        assert(emit(q, t)->Ok_0 =~= seq![unit_node(t)]);
        lemma_eval_one(unit_node(t), s, input, fuel);
    } else {
        let init = q.drop_last();
        let last = q.last();
        assert(init.push(last) =~= q);
        lemma_eval_push(init, last, s, input, fuel);
        lemma_emit_splits(q, t);
        let tail = emit(seq![last], t)->Ok_0;
        lemma_eval_concat(init, tail, s, input, fuel);
        let o = eval_nodes(init, s, input, fuel);
        if o.end is Done {
            assert(last.wf());
            lemma_emit_one(last, t, o.store, input, fuel);
        }
    }
}

/// Lists of which the second runs as the first does still do so after the
/// first got the expression of one more command and the second took the
/// command by the rule of the parser.
pub proof fn lemma_emit_refines(p: Seq<Node>, q: Seq<Node>, t: Token)
    requires
        refines(p, q),
        wf_nodes(q),
        t.ty != TokenType::IfZero,
        t.ty != TokenType::IfNonZero,
        emit(q, t) is Ok,
    ensures
        refines(p.push(unit_node(t)), emit(q, t)->Ok_0),
{
    let u = unit_node(t);
    assert forall|s: Store, input: Seq<Option<char>>, fuel: nat|
        agrees(
            eval_nodes(p.push(u), s, input, fuel),
            #[trigger] eval_nodes(emit(q, t)->Ok_0, s, input, fuel),
        ) by {
        lemma_eval_push(p, u, s, input, fuel);
        let a = eval_nodes(p, s, input, fuel);
        let b = eval_nodes(q, s, input, fuel);
        assert(agrees(a, b));
        lemma_then_node_agrees(a, b, u, u, input, fuel);
        lemma_emit_local(q, t, s, input, fuel);
        lemma_agrees_trans(
            then_node(a, u, input, fuel),
            then_node(b, u, input, fuel),
            eval_nodes(emit(q, t)->Ok_0, s, input, fuel),
        );
    }
}

/// A loop runs as another loop does if its body runs as the body of the
/// other does.
pub proof fn lemma_loop_refines(
    p: Seq<Node>,
    q: Seq<Node>,
    s: Store,
    input: Seq<Option<char>>,
    fuel: nat,
)
    requires
        refines(p, q),
    ensures
        agrees(eval_loop(p, s, input, fuel), eval_loop(q, s, input, fuel)),
    decreases fuel,
{
    if s.cell() != 0 && fuel > 0 {
        let a = eval_nodes(p, s, input, (fuel - 1) as nat);
        let b = eval_nodes(q, s, input, (fuel - 1) as nat);
        assert(agrees(a, b));
        if b.end is Done {
            lemma_coalesced_stays_loop(q, b.store, input, (fuel - 1) as nat);
            lemma_loop_refines(p, q, b.store, input, (fuel - 1) as nat);
        }
        if a.end is Done {
            lemma_coalesced_stays_loop(p, a.store, input, (fuel - 1) as nat);
            if b.end is Done && !b.store.coalesced {
                lemma_reach_loop(p, b.store, a.store.reach, input, (fuel - 1) as nat);
            }
        }
    }
}

/// A loop whose body is a single decrement runs as the assignment of zero
/// does.
pub proof fn lemma_zero_loop(
    body: Seq<Node>,
    assign: Node,
    s: Store,
    input: Seq<Option<char>>,
    fuel: nat,
)
    requires
        is_zero_loop(body),
        assign.op == Op::Assign(0),
    ensures
        agrees(eval_loop(body, s, input, fuel), eval_node(assign, s, input, fuel)),
    decreases fuel,
{
    lemma_with_cell_twice(s, 0, 0);
    if s.cell() != 0 && fuel > 0 {
        assert(body =~= seq![body[0]]);
        lemma_eval_one(body[0], s, input, (fuel - 1) as nat);
        let once = s.with_cell((s.cell() - 1) as u32);
        lemma_zero_loop(body, assign, once, input, (fuel - 1) as nat);
        lemma_with_cell_twice(s, (s.cell() - 1) as u32, 0);
    }
}

/// The expression that the parser makes of a loop runs as the loop with the
/// plain body does, if the body that the parser made runs as the plain one
/// does.
pub proof fn lemma_loop_node_refines(p: Seq<Node>, q: Seq<Node>, closed: bool)
    requires
        refines(p, q),
    ensures
        refines_node(plain_loop(p), loop_node(q, closed)),
{
    let x = plain_loop(p);
    let y = loop_node(q, closed);
    assert forall|s: Store, input: Seq<Option<char>>, fuel: nat|
        agrees(eval_node(x, s, input, fuel), #[trigger] eval_node(y, s, input, fuel)) by {
        lemma_loop_refines(p, q, s, input, fuel);
        if closed && is_zero_loop(q) {
            lemma_zero_loop(q, y, s, input, fuel);
            lemma_agrees_trans(
                eval_loop(p, s, input, fuel),
                eval_loop(q, s, input, fuel),
                eval_node(y, s, input, fuel),
            );
        }
    }
}

/// Building the plain tree never ends before the place where it began.
pub proof fn lemma_plain_items_next(ts: Seq<Token>, pos: int, acc: Seq<Node>, nested: bool)
    requires
        0 <= pos <= ts.len(),
    ensures
        pos <= plain_items(ts, pos, acc, nested).next <= ts.len(),
    decreases ts.len() - pos,
{
    if pos < ts.len() {
        match ts[pos].ty {
            TokenType::IfZero => {
                let inner = plain_items(ts, pos + 1, Seq::empty(), true);
                lemma_plain_items_next(ts, pos + 1, Seq::empty(), true);
                lemma_plain_items_next(ts, inner.next, acc.push(plain_loop(inner.nodes)), nested);
            },
            TokenType::IfNonZero => {
                if !nested {
                    lemma_plain_items_next(ts, pos + 1, acc, nested);
                }
            },
            _ => {
                lemma_plain_items_next(ts, pos + 1, acc.push(unit_node(ts[pos])), nested);
            },
        }
    }
}

/// Where the parser succeeds, it matches the brackets as the plain tree
/// does, and the list that it makes runs as the plain list does, if the
/// lists that the two began with do.
pub proof fn lemma_parse_refines(
    ts: Seq<Token>,
    pos: int,
    p: Seq<Node>,
    q: Seq<Node>,
    nested: bool,
)
    requires
        0 <= pos <= ts.len(),
        refines(p, q),
        fits(q, pos),
        parse_items(ts, pos, q, nested).result is Ok,
    ensures
        plain_items(ts, pos, p, nested).next == parse_items(ts, pos, q, nested).next,
        plain_items(ts, pos, p, nested).closed == parse_items(ts, pos, q, nested).closed,
        refines(
            plain_items(ts, pos, p, nested).nodes,
            parse_items(ts, pos, q, nested).result->Ok_0,
        ),
    decreases ts.len() - pos,
{
    if pos < ts.len() {
        let t = ts[pos];
        match t.ty {
            TokenType::IfZero => {
                let inner_p = plain_items(ts, pos + 1, Seq::empty(), true);
                let inner_q = parse_items(ts, pos + 1, Seq::empty(), true);
                let none = Seq::<Node>::empty();
                assert(refines(none, none));
                assert(fits(none, pos + 1));
                lemma_parse_refines(ts, pos + 1, none, none, true);
                lemma_parse_items_next(ts, pos + 1, none, true);
                lemma_parse_items_fits(ts, pos + 1, none, true);
                let body_p = inner_p.nodes;
                let body_q = inner_q.result->Ok_0;
                lemma_loop_node_refines(body_p, body_q, inner_q.closed);
                lemma_push_refines(
                    p,
                    q,
                    plain_loop(body_p),
                    loop_node(body_q, inner_q.closed),
                );
                lemma_loop_node_fits(body_q, inner_q.closed, ts.len() as int);
                let node = loop_node(body_q, inner_q.closed);
                assert(fits(q.push(node), inner_q.next)) by {
                    assert forall|i: int| 0 <= i < q.push(node).len() implies (#[trigger] q.push(
                        node,
                    )[i]).wf() && q.push(node)[i].tokens.len() <= inner_q.next by {
                        if i < q.len() {
                            assert(q.push(node)[i] == q[i]);
                        }
                    }
                }
                lemma_parse_refines(
                    ts,
                    inner_q.next,
                    p.push(plain_loop(body_p)),
                    q.push(node),
                    nested,
                );
            },
            TokenType::IfNonZero => {
                if !nested {
                    assert(fits(q, pos + 1));
                    lemma_parse_refines(ts, pos + 1, p, q, nested);
                }
            },
            _ => {
                lemma_emit_refines(p, q, t);
                lemma_emit_fits(q, t, pos);
                lemma_parse_refines(
                    ts,
                    pos + 1,
                    p.push(unit_node(t)),
                    emit(q, t)->Ok_0,
                    nested,
                );
            },
        }
    }
}

/// The optimizer keeps the meaning of a program: for every token sequence
/// that the parser accepts, every store to start from, every input and
/// every bound, the tree that the parser builds runs as the plain tree
/// does.
///
/// Where the plain tree comes to its end, the optimized tree comes to its
/// end with the same in every cell of the tape, the same pointer, the same
/// output and as much of the input taken; its pointer has been no farther
/// to the right than that of the plain tree, and may have been less far. Where the plain tree fails, the optimized tree fails
/// with the same kind of failure after the same output, and, but for a
/// failure of the input, at the same token.
///
/// This is said of the runs in which the plain tree stays within the 32 bits
/// of every cell and within the bound, and in which the optimized tree
/// writes no value that is no character by a run of several outputs: the
/// single space that it writes then stands for as many spaces of the plain
/// tree. It is said in particular of every run in which the plain tree
/// writes no value that is no character.
pub proof fn lemma_optimization_keeps_meaning(
    ts: Seq<Token>,
    s: Store,
    input: Seq<Option<char>>,
    fuel: nat,
)
    requires
        parse_spec(ts) is Ok,
    ensures
        ({
            let plain = eval_nodes(plain_spec(ts), s, input, fuel);
            let opt = eval_nodes(parse_spec(ts)->Ok_0, s, input, fuel);
            &&& agrees(plain, opt)
            &&& !opt.store.coalesced && plain.end is Done ==> {
                &&& opt.end is Done
                &&& opt.store.reaching(plain.store.reach) == plain.store
            }
            &&& !opt.store.coalesced && plain.end is Fail ==> {
                &&& opt.end is Fail
                &&& same_failure(plain.end->Fail_0, opt.end->Fail_0)
                &&& opt.store.out == plain.store.out
            }
            &&& (s.coalesced ==> s.blanked) && !plain.store.blanked && (plain.end is Done
                || plain.end is Fail) ==> !opt.store.coalesced
        }),
{
    let none = Seq::<Node>::empty();
    assert(refines(none, none));
    assert(fits(none, 0));
    lemma_coalesced_stays(plain_spec(ts), s, input, fuel);
    lemma_parse_refines(ts, 0, none, none, false);
    let plain = eval_nodes(plain_spec(ts), s, input, fuel);
    let opt = eval_nodes(parse_spec(ts)->Ok_0, s, input, fuel);
    assert(agrees(plain, opt));
}

/// The number of iterations that the plain tree may need for a loop which
/// the parser has rewritten: a cell is counted down from at most 2^32 - 1.
pub open spec fn slack() -> nat {
    u32::MAX as nat
}

/// The list `p` ends wherever the list `q` ends: from every store from which
/// `q` ends within a bound without writing a single space for several
/// writes, `p` ends within the bound raised by `slack()`.
pub open spec fn ends_with(p: Seq<Node>, q: Seq<Node>) -> bool {
    forall|s: Store, input: Seq<Option<char>>, fuel: nat|
        {
            let o = #[trigger] eval_nodes(q, s, input, fuel);
            !(o.end is Timeout) && !o.store.coalesced ==> !(eval_nodes(
                p,
                s,
                input,
                fuel + slack(),
            ).end is Timeout)
        }
}

/// The expression `x` ends wherever the expression `y` ends.
pub open spec fn ends_with_node(x: Node, y: Node) -> bool {
    forall|s: Store, input: Seq<Option<char>>, fuel: nat|
        {
            let o = #[trigger] eval_node(y, s, input, fuel);
            !(o.end is Timeout) && !o.store.coalesced ==> !(eval_node(
                x,
                s,
                input,
                fuel + slack(),
            ).end is Timeout)
        }
}

/// A run of inputs ends whatever the bound.
pub proof fn lemma_read_ends(n: nat, token: Token, s: Store, input: Seq<Option<char>>)
    ensures
        !(read_lines(n, token, s, input).end is Timeout),
    decreases n,
{
    if n > 0 {
        if let Some(c) = line_at(input, s.used) {
            lemma_read_ends((n - 1) as nat, token, s.with_line(c), input);
        }
    }
}

/// An expression that is not a loop ends whatever the bound, and the bound
/// does not change its outcome.
pub proof fn lemma_simple_ends(
    node: Node,
    s: Store,
    input: Seq<Option<char>>,
    fuel: nat,
    other: nat,
)
    requires
        !(node.op is Loop),
    ensures
        !(eval_node(node, s, input, fuel).end is Timeout),
        eval_node(node, s, input, fuel) == eval_node(node, s, input, other),
{
    if let Op::Input(n) = node.op {
        lemma_read_ends(n, node.tokens[0], s, input);
    }
}

/// A loop whose body is a single decrement ends within a bound that is not
/// less than the value of the current cell.
pub proof fn lemma_zero_loop_ends(body: Seq<Node>, s: Store, input: Seq<Option<char>>, fuel: nat)
    requires
        is_zero_loop(body),
        fuel >= s.cell(),
    ensures
        eval_loop(body, s, input, fuel).end is Done,
    decreases fuel,
{
    if s.cell() != 0 {
        assert(body =~= seq![body[0]]);
        lemma_eval_one(body[0], s, input, (fuel - 1) as nat);
        let once = s.with_cell((s.cell() - 1) as u32);
        lemma_zero_loop_ends(body, once, input, (fuel - 1) as nat);
    }
}

/// A loop ends wherever another loop ends, if its body runs as the body of
/// the other does and ends wherever that one ends.
pub proof fn lemma_loop_ends_with(
    p: Seq<Node>,
    q: Seq<Node>,
    s: Store,
    input: Seq<Option<char>>,
    fuel: nat,
)
    requires
        refines(p, q),
        ends_with(p, q),
        !(eval_loop(q, s, input, fuel).end is Timeout),
        !eval_loop(q, s, input, fuel).store.coalesced,
    ensures
        !(eval_loop(p, s, input, fuel + slack()).end is Timeout),
    decreases fuel,
{
    if s.cell() != 0 {
        let less = (fuel - 1) as nat;
        let b = eval_nodes(q, s, input, less);
        let a = eval_nodes(p, s, input, less + slack());
        if b.store.coalesced && b.end is Done {
            lemma_coalesced_stays_loop(q, b.store, input, less);
        }
        assert(!(a.end is Timeout));
        if a.end is Done {
            let b_more = eval_nodes(q, s, input, less + slack());
            assert(agrees(a, b_more));
            lemma_eval_nodes_more_fuel(q, s, input, less, less + slack());
            lemma_loop_ends_with(p, q, b.store, input, less);
            lemma_reach_loop(p, b.store, a.store.reach, input, less + slack());
        }
    }
}

/// The list ends from every store, whatever the bound.
pub open spec fn quick(p: Seq<Node>) -> bool {
    forall|s: Store, input: Seq<Option<char>>, fuel: nat|
        !(#[trigger] eval_nodes(p, s, input, fuel).end is Timeout)
}

/// The list holds no loop and no assignment: the parser met no bracket when
/// it made it.
pub open spec fn unlooped(q: Seq<Node>) -> bool {
    forall|i: int| 0 <= i < q.len() ==> !((#[trigger] q[i]).op is Loop) && !(q[i].op is Assign)
}

/// A loop ends within a bound that is not less than the value of the
/// current cell, if its body ends whatever the bound and runs as a single
/// decrement does.
pub proof fn lemma_quick_zero_loop(
    p: Seq<Node>,
    q: Seq<Node>,
    s: Store,
    input: Seq<Option<char>>,
    fuel: nat,
)
    requires
        refines(p, q),
        quick(p),
        is_zero_loop(q),
        !s.coalesced,
        fuel >= s.cell(),
    ensures
        !(eval_loop(p, s, input, fuel).end is Timeout),
    decreases fuel,
{
    if s.cell() != 0 {
        let less = (fuel - 1) as nat;
        let a = eval_nodes(p, s, input, less);
        let b = eval_nodes(q, s, input, less);
        assert(!(a.end is Timeout));
        assert(agrees(a, b));
        assert(q =~= seq![q[0]]);
        lemma_eval_one(q[0], s, input, less);
        if a.end is Done {
            lemma_quick_zero_loop(p, q, a.store, input, less);
        }
    }
}

/// The plain loop ends wherever the expression ends that the parser makes
/// of the loop, if the plain body runs as the parsed body does and ends
/// wherever that one ends.
pub proof fn lemma_loop_node_ends_with(p: Seq<Node>, q: Seq<Node>, closed: bool)
    requires
        refines(p, q),
        ends_with(p, q),
        unlooped(q) ==> quick(p),
    ensures
        ends_with_node(plain_loop(p), loop_node(q, closed)),
{
    let x = plain_loop(p);
    let y = loop_node(q, closed);
    assert forall|s: Store, input: Seq<Option<char>>, fuel: nat|
        {
            let o = #[trigger] eval_node(y, s, input, fuel);
            !(o.end is Timeout) && !o.store.coalesced ==> !(eval_node(
                x,
                s,
                input,
                fuel + slack(),
            ).end is Timeout)
        } by {
        let o = eval_node(y, s, input, fuel);
        if !(o.end is Timeout) && !o.store.coalesced {
            if closed && is_zero_loop(q) {
                assert(unlooped(q));
                lemma_quick_zero_loop(p, q, s, input, fuel + slack());
            } else {
                lemma_loop_ends_with(p, q, s, input, fuel);
            }
        }
    }
}

/// Wherever a list ends that got an expression more, the list ended before.
proof fn lemma_push_ended(q: Seq<Node>, y: Node, s: Store, input: Seq<Option<char>>, fuel: nat)
    requires
        !(eval_nodes(q.push(y), s, input, fuel).end is Timeout),
        !eval_nodes(q.push(y), s, input, fuel).store.coalesced,
    ensures
        !(eval_nodes(q, s, input, fuel).end is Timeout),
        !eval_nodes(q, s, input, fuel).store.coalesced,
        eval_nodes(q, s, input, fuel).end is Done ==> {
            &&& !(eval_node(y, eval_nodes(q, s, input, fuel).store, input, fuel).end is Timeout)
            &&& !eval_node(y, eval_nodes(q, s, input, fuel).store, input, fuel).store.coalesced
        },
{
    lemma_eval_push(q, y, s, input, fuel);
    let o = eval_nodes(q, s, input, fuel);
    if o.store.coalesced && o.end is Done {
        lemma_coalesced_stays_node(y, o.store, input, fuel);
    }
}

/// Lists of which the first ends wherever the second ends still do so after
/// each got one more expression, if the same holds of the two expressions.
pub proof fn lemma_push_ends_with(p: Seq<Node>, q: Seq<Node>, x: Node, y: Node)
    requires
        refines(p, q),
        ends_with(p, q),
        ends_with_node(x, y),
    ensures
        ends_with(p.push(x), q.push(y)),
{
    assert forall|s: Store, input: Seq<Option<char>>, fuel: nat|
        {
            let o = #[trigger] eval_nodes(q.push(y), s, input, fuel);
            !(o.end is Timeout) && !o.store.coalesced ==> !(eval_nodes(
                p.push(x),
                s,
                input,
                fuel + slack(),
            ).end is Timeout)
        } by {
        let o = eval_nodes(q.push(y), s, input, fuel);
        if !(o.end is Timeout) && !o.store.coalesced {
            lemma_push_ended(q, y, s, input, fuel);
            lemma_eval_push(p, x, s, input, fuel + slack());
            let b = eval_nodes(q, s, input, fuel);
            let a = eval_nodes(p, s, input, fuel + slack());
            assert(!(a.end is Timeout));
            if a.end is Done {
                assert(agrees(a, eval_nodes(q, s, input, fuel + slack())));
                lemma_eval_nodes_more_fuel(q, s, input, fuel, fuel + slack());
                assert(!(eval_node(x, b.store, input, fuel + slack()).end is Timeout));
                lemma_reach_node(x, b.store, a.store.reach, input, fuel + slack());
            }
        }
    }
}

/// Lists of which the first ends wherever the second ends still do so after
/// the first got the expression of one more command and the second took the
/// command by the rule of the parser.
pub proof fn lemma_emit_ends_with(p: Seq<Node>, q: Seq<Node>, t: Token)
    requires
        refines(p, q),
        ends_with(p, q),
        wf_nodes(q),
        t.ty != TokenType::IfZero,
        t.ty != TokenType::IfNonZero,
        emit(q, t) is Ok,
    ensures
        ends_with(p.push(unit_node(t)), emit(q, t)->Ok_0),
{
    let u = unit_node(t);
    let q2 = emit(q, t)->Ok_0;
    assert forall|s: Store, input: Seq<Option<char>>, fuel: nat|
        {
            let o = #[trigger] eval_nodes(q2, s, input, fuel);
            !(o.end is Timeout) && !o.store.coalesced ==> !(eval_nodes(
                p.push(u),
                s,
                input,
                fuel + slack(),
            ).end is Timeout)
        } by {
        let o = eval_nodes(q2, s, input, fuel);
        if !(o.end is Timeout) && !o.store.coalesced {
            lemma_emit_ended(q, t, s, input, fuel);
            lemma_eval_push(p, u, s, input, fuel + slack());
            lemma_simple_ends(u, s, input, fuel, fuel);
            let b = eval_nodes(q, s, input, fuel);
            let a = eval_nodes(p, s, input, fuel + slack());
            assert(!(a.end is Timeout));
            if a.end is Done {
                lemma_simple_ends(u, a.store, input, fuel + slack(), fuel);
            }
        }
    }
}

/// Wherever the list ends that a rule of the parser made, the list ended
/// before the rule was applied.
proof fn lemma_emit_ended(q: Seq<Node>, t: Token, s: Store, input: Seq<Option<char>>, fuel: nat)
    requires
        wf_nodes(q),
        t.ty != TokenType::IfZero,
        t.ty != TokenType::IfNonZero,
        emit(q, t) is Ok,
        !(eval_nodes(emit(q, t)->Ok_0, s, input, fuel).end is Timeout),
        !eval_nodes(emit(q, t)->Ok_0, s, input, fuel).store.coalesced,
    ensures
        !(eval_nodes(q, s, input, fuel).end is Timeout),
        !eval_nodes(q, s, input, fuel).store.coalesced,
{
    let u = unit_node(t);
    lemma_emit_local(q, t, s, input, fuel);
    let b = eval_nodes(q, s, input, fuel);
    if b.store.coalesced && b.end is Done {
        lemma_coalesced_stays_node(u, b.store, input, fuel);
    }
    if q.len() > 0 {
        let init = q.drop_last();
        let last = q.last();
        assert(init.push(last) =~= q);
        lemma_eval_push(init, last, s, input, fuel);
        lemma_emit_splits(q, t);
        let tail = emit(seq![last], t)->Ok_0;
        lemma_eval_concat(init, tail, s, input, fuel);
        let o = eval_nodes(init, s, input, fuel);
        if o.end is Done {
            if last.op is Loop {
                assert(tail =~= seq![last, u]);
                lemma_eval_two(last, u, o.store, input, fuel);
            } else {
                lemma_simple_ends(last, o.store, input, fuel, fuel);
            }
        }
    }
}

/// A list that ends whatever the bound still does so after it got the
/// expression of one more command.
proof fn lemma_push_quick(p: Seq<Node>, t: Token)
    requires
        quick(p),
        t.ty != TokenType::IfZero,
        t.ty != TokenType::IfNonZero,
    ensures
        quick(p.push(unit_node(t))),
{
    let u = unit_node(t);
    assert forall|s: Store, input: Seq<Option<char>>, fuel: nat|
        !(#[trigger] eval_nodes(p.push(u), s, input, fuel).end is Timeout) by {
        lemma_eval_push(p, u, s, input, fuel);
        let a = eval_nodes(p, s, input, fuel);
        assert(!(a.end is Timeout));
        if a.end is Done {
            lemma_simple_ends(u, a.store, input, fuel, fuel);
        }
    }
}

/// Where the parser succeeds, the plain list ends wherever the list ends
/// that the parser makes, if the lists that the two began with do.
pub proof fn lemma_parse_ends_with(
    ts: Seq<Token>,
    pos: int,
    p: Seq<Node>,
    q: Seq<Node>,
    nested: bool,
)
    requires
        0 <= pos <= ts.len(),
        refines(p, q),
        ends_with(p, q),
        unlooped(q) ==> quick(p),
        fits(q, pos),
        parse_items(ts, pos, q, nested).result is Ok,
    ensures
        ends_with(
            plain_items(ts, pos, p, nested).nodes,
            parse_items(ts, pos, q, nested).result->Ok_0,
        ),
        unlooped(parse_items(ts, pos, q, nested).result->Ok_0) ==> quick(
            plain_items(ts, pos, p, nested).nodes,
        ),
    decreases ts.len() - pos,
{
    if pos < ts.len() {
        let t = ts[pos];
        match t.ty {
            TokenType::IfZero => {
                let inner_p = plain_items(ts, pos + 1, Seq::empty(), true);
                let inner_q = parse_items(ts, pos + 1, Seq::empty(), true);
                let none = Seq::<Node>::empty();
                assert(refines(none, none));
                assert(ends_with(none, none));
                assert(quick(none));
                assert(fits(none, pos + 1));
                lemma_parse_refines(ts, pos + 1, none, none, true);
                lemma_parse_ends_with(ts, pos + 1, none, none, true);
                lemma_parse_items_next(ts, pos + 1, none, true);
                lemma_parse_items_fits(ts, pos + 1, none, true);
                let body_p = inner_p.nodes;
                let body_q = inner_q.result->Ok_0;
                let node = loop_node(body_q, inner_q.closed);
                lemma_loop_node_refines(body_p, body_q, inner_q.closed);
                lemma_loop_node_ends_with(body_p, body_q, inner_q.closed);
                lemma_push_refines(p, q, plain_loop(body_p), node);
                lemma_push_ends_with(p, q, plain_loop(body_p), node);
                lemma_loop_node_fits(body_q, inner_q.closed, ts.len() as int);
                assert(fits(q.push(node), inner_q.next)) by {
                    assert forall|i: int| 0 <= i < q.push(node).len() implies (#[trigger] q.push(
                        node,
                    )[i]).wf() && q.push(node)[i].tokens.len() <= inner_q.next by {
                        if i < q.len() {
                            assert(q.push(node)[i] == q[i]);
                        }
                    }
                }
                assert(!unlooped(q.push(node))) by {
                    assert(q.push(node)[q.len() as int] == node);
                }
                lemma_parse_ends_with(
                    ts,
                    inner_q.next,
                    p.push(plain_loop(body_p)),
                    q.push(node),
                    nested,
                );
            },
            TokenType::IfNonZero => {
                if !nested {
                    assert(fits(q, pos + 1));
                    lemma_parse_ends_with(ts, pos + 1, p, q, nested);
                }
            },
            _ => {
                let q2 = emit(q, t)->Ok_0;
                lemma_emit_refines(p, q, t);
                lemma_emit_ends_with(p, q, t);
                lemma_emit_fits(q, t, pos);
                if unlooped(q2) {
                    assert(unlooped(q)) by {
                        assert forall|i: int| 0 <= i < q.len() implies !((#[trigger] q[i]).op
                            is Loop) && !(q[i].op is Assign) by {
                            if i < q.len() - 1 {
                                assert(q2[i] == q[i]);
                            } else {
                                if q2.len() >= q.len() {
                                    assert(!(q2[i].op is Loop) && !(q2[i].op is Assign));
                                }
                            }
                        }
                    }
                    lemma_push_quick(p, t);
                }
                lemma_parse_ends_with(ts, pos + 1, p.push(unit_node(t)), q2, nested);
            },
        }
    }
}

/// The optimizer adds no run to a program: for every token sequence that
/// the parser accepts, every store to start from, every input and every
/// bound within which the tree that the parser builds ends, the plain tree
/// ends within the bound raised by `slack()`, and unless it overflows a
/// cell, it ends as the optimized tree does: with the same store where that
/// one comes to its end, and with the same kind of failure after the same
/// output where that one fails.
///
/// This is said of the runs in which the optimized tree writes no value
/// that is no character by a run of several outputs.
pub proof fn lemma_optimization_adds_nothing(
    ts: Seq<Token>,
    s: Store,
    input: Seq<Option<char>>,
    fuel: nat,
)
    requires
        parse_spec(ts) is Ok,
    ensures
        ({
            let opt = eval_nodes(parse_spec(ts)->Ok_0, s, input, fuel);
            let plain = eval_nodes(plain_spec(ts), s, input, fuel + slack());
            !(opt.end is Timeout) && !opt.store.coalesced ==> {
                &&& !(plain.end is Timeout)
                &&& plain.end is Done ==> {
                    &&& opt.end is Done
                    &&& opt.store.reaching(plain.store.reach) == plain.store
                }
                &&& plain.end is Fail ==> {
                    &&& opt.end is Fail
                    &&& same_failure(plain.end->Fail_0, opt.end->Fail_0)
                    &&& opt.store.out == plain.store.out
                }
            }
        }),
{
    let none = Seq::<Node>::empty();
    assert(refines(none, none));
    assert(ends_with(none, none));
    assert(quick(none));
    assert(fits(none, 0));
    lemma_parse_ends_with(ts, 0, none, none, false);
    lemma_optimization_keeps_meaning(ts, s, input, fuel + slack());
    let opt = eval_nodes(parse_spec(ts)->Ok_0, s, input, fuel);
    if !(opt.end is Timeout) {
        lemma_eval_nodes_more_fuel(parse_spec(ts)->Ok_0, s, input, fuel, fuel + slack());
    }
}

/// The list satisfies the invariant of the model and can be held in
/// memory, and it has no more than `k` nodes, none with more than `k`
/// tokens.
pub open spec fn built(ns: Seq<Node>, k: int) -> bool {
    fits(ns, k) && sized_nodes(ns) && ns.len() <= k
}

/// What the parser makes of no more than 2^32 - 1 tokens can be held in
/// memory.
pub proof fn lemma_parse_items_built(ts: Seq<Token>, pos: int, q: Seq<Node>, nested: bool)
    requires
        0 <= pos <= ts.len() <= u32::MAX,
        built(q, pos),
        parse_items(ts, pos, q, nested).result is Ok,
    ensures
        built(parse_items(ts, pos, q, nested).result->Ok_0, ts.len() as int),
    decreases ts.len() - pos,
{
    if pos < ts.len() {
        let t = ts[pos];
        match t.ty {
            TokenType::IfZero => {
                let none = Seq::<Node>::empty();
                let inner = parse_items(ts, pos + 1, none, true);
                assert(built(none, pos + 1));
                lemma_parse_items_next(ts, pos + 1, none, true);
                lemma_parse_items_built(ts, pos + 1, none, true);
                let body = inner.result->Ok_0;
                let node = loop_node(body, inner.closed);
                lemma_loop_node_fits(body, inner.closed, ts.len() as int);
                assert(node.sized());
                assert(built(q.push(node), inner.next)) by {
                    assert forall|i: int| 0 <= i < q.push(node).len() implies {
                        &&& (#[trigger] q.push(node)[i]).wf()
                        &&& q.push(node)[i].sized()
                        &&& q.push(node)[i].tokens.len() <= inner.next
                    } by {
                        if i < q.len() {
                            assert(q.push(node)[i] == q[i]);
                        }
                    }
                }
                lemma_parse_items_built(ts, inner.next, q.push(node), nested);
            },
            TokenType::IfNonZero => {
                if !nested {
                    assert(built(q, pos + 1));
                    lemma_parse_items_built(ts, pos + 1, q, nested);
                }
            },
            _ => {
                let q2 = emit(q, t)->Ok_0;
                lemma_emit_fits(q, t, pos);
                assert(built(q2, pos + 1)) by {
                    assert forall|i: int| 0 <= i < q2.len() implies (#[trigger] q2[i]).sized() by {
                        if i < q.len() - 1 {
                            assert(q2[i] == q[i]);
                        } else {
                            assert(q2[i].wf());
                            assert(q2[i].tokens.len() <= pos + 1);
                        }
                    }
                }
                lemma_parse_items_built(ts, pos + 1, q2, nested);
            },
        }
    }
}

/// The plain tree of no more than 2^32 - 1 tokens satisfies the invariant of
/// the model and can be held in memory.
pub proof fn lemma_plain_items_built(ts: Seq<Token>, pos: int, p: Seq<Node>, nested: bool)
    requires
        0 <= pos <= ts.len() <= u32::MAX,
        built(p, pos),
    ensures
        built(plain_items(ts, pos, p, nested).nodes, ts.len() as int),
    decreases ts.len() - pos,
{
    if pos < ts.len() {
        let t = ts[pos];
        match t.ty {
            TokenType::IfZero => {
                let none = Seq::<Node>::empty();
                let inner = plain_items(ts, pos + 1, none, true);
                assert(built(none, pos + 1));
                lemma_plain_items_next(ts, pos + 1, none, true);
                lemma_plain_items_built(ts, pos + 1, none, true);
                let node = plain_loop(inner.nodes);
                assert(node.wf() && node.sized());
                assert(built(p.push(node), inner.next)) by {
                    assert forall|i: int| 0 <= i < p.push(node).len() implies {
                        &&& (#[trigger] p.push(node)[i]).wf()
                        &&& p.push(node)[i].sized()
                        &&& p.push(node)[i].tokens.len() <= inner.next
                    } by {
                        if i < p.len() {
                            assert(p.push(node)[i] == p[i]);
                        }
                    }
                }
                lemma_plain_items_built(ts, inner.next, p.push(node), nested);
            },
            TokenType::IfNonZero => {
                if !nested {
                    assert(built(p, pos + 1));
                    lemma_plain_items_built(ts, pos + 1, p, nested);
                }
            },
            _ => {
                let node = unit_node(t);
                assert(built(p.push(node), pos + 1)) by {
                    assert forall|i: int| 0 <= i < p.push(node).len() implies {
                        &&& (#[trigger] p.push(node)[i]).wf()
                        &&& p.push(node)[i].sized()
                        &&& p.push(node)[i].tokens.len() <= pos + 1
                    } by {
                        if i < p.len() {
                            assert(p.push(node)[i] == p[i]);
                        }
                    }
                }
                lemma_plain_items_built(ts, pos + 1, p.push(node), nested);
            },
        }
    }
}

/// The machine runs the tree that the parser builds as it runs the plain
/// tree: for every sequence of no more than 2^32 - 1 tokens that the parser
/// accepts and every input, a run of the one and a run of the other from the
/// start, each of as many steps as it may be, agree wherever both have
/// ended.
///
/// Where both halt, they have written the same characters, taken as many
/// lines of the input, and left the pointer on the same cell of tapes that
/// hold the same in every cell, a cell beyond the end of a tape counting as
/// zero. Where both fail, they have written the same characters and failed
/// in the same way. It does not happen that one halts where the other
/// fails.
///
/// This is said of the inputs on which the optimized tree writes no value
/// that is no character by a run of several outputs, and so of all on which
/// the plain tree writes no value that is no character.
pub proof fn lemma_runs_agree(
    ts: Seq<Token>,
    input: Seq<Option<char>>,
    plain_limit: nat,
    limit: nat,
)
    requires
        ts.len() <= u32::MAX,
        parse_spec(ts) is Ok,
        !eval_nodes(parse_spec(ts)->Ok_0, Store::initial(), input, limit).store.coalesced
            || !eval_nodes(plain_spec(ts), Store::initial(), input, plain_limit).store.blanked,
    ensures
        ({
            let none = Seq::<char>::empty();
            let plain = run_spec(plain_spec(ts), Machine::initial(), input, 0, none, plain_limit);
            let opt = run_spec(parse_spec(ts)->Ok_0, Machine::initial(), input, 0, none, limit);
            &&& plain.action == Action::Halt && opt.action == Action::Halt ==> {
                &&& opt.out == plain.out
                &&& opt.used == plain.used
                &&& opt.machine.ptr == plain.machine.ptr
                &&& cells_of(opt.machine.tape) == cells_of(plain.machine.tape)
            }
            &&& plain.action is Fail && opt.action is Fail ==> {
                &&& opt.out == plain.out
                &&& same_failure(plain.action->Fail_0, opt.action->Fail_0)
            }
            &&& !(plain.action == Action::Halt && opt.action is Fail)
            &&& !(plain.action is Fail && opt.action == Action::Halt)
        }),
{
    let none = Seq::<Node>::empty();
    let p = plain_spec(ts);
    let q = parse_spec(ts)->Ok_0;
    let m = Machine::initial();
    let s = Store::initial();
    assert(built(none, 0));
    lemma_parse_items_built(ts, 0, none, false);
    lemma_plain_items_built(ts, 0, none, false);
    lemma_initial_store();
    lemma_run_from_start(p, m, input, plain_limit);
    lemma_run_from_start(q, m, input, limit);
    let most = if plain_limit <= limit {
        limit
    } else {
        plain_limit
    };
    let a = eval_nodes(p, s, input, plain_limit);
    let b = eval_nodes(q, s, input, limit);
    lemma_optimization_keeps_meaning(ts, s, input, most);
    if !(a.end is Timeout) {
        lemma_eval_nodes_more_fuel(p, s, input, plain_limit, most);
    }
    if !(b.end is Timeout) {
        lemma_eval_nodes_more_fuel(q, s, input, limit, most);
    }
}

/// The optimized tree runs to its end wherever the plain tree does: for
/// every sequence of no more than 2^32 - 1 tokens that the parser accepts
/// and every input on which a run of the plain tree from the start halts,
/// there is a number of steps from which on the run of the optimized tree
/// from the start has halted, with the same characters written, as many
/// lines of the input taken, and the pointer on the same cell of a tape that
/// holds the same in every cell, a cell beyond the end of a tape counting as
/// zero, and that is no longer than the tape of the plain tree.
///
/// This is said of the inputs on which the optimized tree writes no value
/// that is no character by a run of several outputs, and so of all on which
/// the plain tree writes no value that is no character.
pub proof fn lemma_optimized_run_halts(
    ts: Seq<Token>,
    input: Seq<Option<char>>,
    plain_limit: nat,
) -> (limit: nat)
    requires
        ts.len() <= u32::MAX,
        parse_spec(ts) is Ok,
        run_spec(
            plain_spec(ts),
            Machine::initial(),
            input,
            0,
            Seq::empty(),
            plain_limit,
        ).action == Action::Halt,
        !eval_nodes(parse_spec(ts)->Ok_0, Store::initial(), input, plain_limit).store.coalesced
            || !eval_nodes(plain_spec(ts), Store::initial(), input, plain_limit).store.blanked,
    ensures
        forall|more: nat|
            more >= limit ==> {
                let plain = run_spec(
                    plain_spec(ts),
                    Machine::initial(),
                    input,
                    0,
                    Seq::empty(),
                    plain_limit,
                );
                let opt = #[trigger] run_spec(
                    parse_spec(ts)->Ok_0,
                    Machine::initial(),
                    input,
                    0,
                    Seq::empty(),
                    more,
                );
                &&& opt.action == Action::Halt
                &&& opt.out == plain.out
                &&& opt.used == plain.used
                &&& opt.machine.ptr == plain.machine.ptr
                &&& cells_of(opt.machine.tape) == cells_of(plain.machine.tape)
                &&& opt.machine.tape.len() <= plain.machine.tape.len()
            },
{
    let none = Seq::<Node>::empty();
    let p = plain_spec(ts);
    let q = parse_spec(ts)->Ok_0;
    let m = Machine::initial();
    let s = Store::initial();
    assert(built(none, 0));
    lemma_parse_items_built(ts, 0, none, false);
    lemma_plain_items_built(ts, 0, none, false);
    lemma_initial_store();
    lemma_run_from_start(p, m, input, plain_limit);
    lemma_run_keeps_shape(p, m, input, 0, Seq::empty(), plain_limit);
    lemma_optimization_keeps_meaning(ts, s, input, plain_limit);
    let limit = lemma_run_complete(q, m, s, input, plain_limit);
    assert forall|more: nat| more >= limit implies {
        let opt = #[trigger] run_spec(q, m, input, 0, Seq::<char>::empty(), more);
        opt == run_spec(q, m, input, 0, Seq::<char>::empty(), limit)
    } by {
        lemma_run_settled(q, m, input, 0, Seq::<char>::empty(), limit, more);
    }
    limit
}

} // verus!
