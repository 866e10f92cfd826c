//! The parser: from tokens to the optimized expression tree.
//!
//! Tokens are taken one at a time. A command either extends the run at the
//! end of the list under construction, cancels one unit of a run of the
//! opposite command, adjusts the constant of an assignment, or starts a
//! new run. A loop is parsed by recursive descent; a loop whose body is a
//! single decrement is replaced by the assignment of zero.

use vstd::prelude::*;
use crate::error::BrainfartError;
use crate::error::BrainfartResult;
use crate::expr::{Expr, ExprType, LoopBlock, Node, Op, lemma_nodes_of, node_of, nodes_of, op_of, wf_nodes};
use crate::token::{Token, TokenType};

verus! {

/// A run of one unit, built from one token.
pub open spec fn single(op: Op, token: Token) -> Node {
    Node { op, tokens: seq![token] }
}

/// The list with its last node replaced.
pub open spec fn with_last(ns: Seq<Node>, node: Node) -> Seq<Node>
    recommends
        ns.len() > 0,
{
    ns.update(ns.len() - 1, node)
}

/// A node that took one more unit: the new operation, and the token appended.
pub open spec fn grown(node: Node, op: Op, token: Token) -> Node {
    Node { op, tokens: node.tokens.push(token) }
}

/// A node that lost one unit: the new operation, and the token that was
/// appended last dropped.
pub open spec fn shrunk(node: Node, op: Op) -> Node {
    Node { op, tokens: node.tokens.drop_last() }
}

/// The list after a move to the right: a trailing run of moves to the right
/// grows, anything else is followed by a new run.
pub open spec fn with_point_inc(ns: Seq<Node>, token: Token) -> Seq<Node> {
    if ns.len() == 0 {
        ns.push(single(Op::MoveRight(1), token))
    } else {
        match ns.last().op {
            Op::MoveRight(n) => with_last(ns, grown(ns.last(), Op::MoveRight(n + 1), token)),
            _ => ns.push(single(Op::MoveRight(1), token)),
        }
    }
}

/// The list after a move to the left: a trailing run of moves to the right
/// loses one unit, and is removed if that was its only one; a trailing run
/// of moves to the left grows; anything else is followed by a new run.
pub open spec fn with_point_dec(ns: Seq<Node>, token: Token) -> Seq<Node> {
    if ns.len() == 0 {
        ns.push(single(Op::MoveLeft(1), token))
    } else {
        match ns.last().op {
            Op::MoveRight(n) => if n == 1 {
                ns.drop_last()
            } else {
                with_last(ns, shrunk(ns.last(), Op::MoveRight((n - 1) as nat)))
            },
            Op::MoveLeft(n) => with_last(ns, grown(ns.last(), Op::MoveLeft(n + 1), token)),
            _ => ns.push(single(Op::MoveLeft(1), token)),
        }
    }
}

/// The list after an increment: a trailing run of increments grows, the
/// constant of a trailing assignment is raised, anything else is followed by
/// a new run.
pub open spec fn with_val_inc(ns: Seq<Node>, token: Token) -> Seq<Node> {
    if ns.len() == 0 {
        ns.push(single(Op::Add(1), token))
    } else {
        match ns.last().op {
            Op::Add(n) => with_last(ns, grown(ns.last(), Op::Add(n + 1), token)),
            Op::Assign(n) => with_last(ns, grown(ns.last(), Op::Assign(n + 1), token)),
            _ => ns.push(single(Op::Add(1), token)),
        }
    }
}

/// The list after a decrement: a trailing run of increments loses one unit,
/// and is removed if that was its only one; a trailing run of decrements
/// grows; the constant of a trailing assignment is lowered, which fails at
/// this token if the constant is zero; anything else is followed by a new
/// run.
pub open spec fn with_val_dec(ns: Seq<Node>, token: Token) -> Result<Seq<Node>, BrainfartError> {
    if ns.len() == 0 {
        Ok(ns.push(single(Op::Sub(1), token)))
    } else {
        match ns.last().op {
            Op::Add(n) => Ok(
                if n == 1 {
                    ns.drop_last()
                } else {
                    with_last(ns, shrunk(ns.last(), Op::Add((n - 1) as nat)))
                },
            ),
            Op::Sub(n) => Ok(with_last(ns, grown(ns.last(), Op::Sub(n + 1), token))),
            Op::Assign(n) => if n == 0 {
                Err(BrainfartError::ValZeroDec(token))
            } else {
                Ok(with_last(ns, shrunk(ns.last(), Op::Assign((n - 1) as nat))))
            },
            _ => Ok(ns.push(single(Op::Sub(1), token))),
        }
    }
}

/// The list after an output: a trailing run of outputs grows, anything else
/// is followed by a new run.
pub open spec fn with_output(ns: Seq<Node>, token: Token) -> Seq<Node> {
    if ns.len() == 0 {
        ns.push(single(Op::Output(1), token))
    } else {
        match ns.last().op {
            Op::Output(n) => with_last(ns, grown(ns.last(), Op::Output(n + 1), token)),
            _ => ns.push(single(Op::Output(1), token)),
        }
    }
}

/// The list after an input: a trailing run of inputs grows, anything else is
/// followed by a new run.
pub open spec fn with_input(ns: Seq<Node>, token: Token) -> Seq<Node> {
    if ns.len() == 0 {
        ns.push(single(Op::Input(1), token))
    } else {
        match ns.last().op {
            Op::Input(n) => with_last(ns, grown(ns.last(), Op::Input(n + 1), token)),
            _ => ns.push(single(Op::Input(1), token)),
        }
    }
}

/// The list after one command that is not a bracket.
pub open spec fn emit(ns: Seq<Node>, token: Token) -> Result<Seq<Node>, BrainfartError> {
    match token.ty {
        TokenType::PointInc => Ok(with_point_inc(ns, token)),
        TokenType::PointDec => Ok(with_point_dec(ns, token)),
        TokenType::ValInc => Ok(with_val_inc(ns, token)),
        TokenType::ValDec => with_val_dec(ns, token),
        TokenType::Output => Ok(with_output(ns, token)),
        TokenType::Input => Ok(with_input(ns, token)),
        TokenType::IfZero => Ok(ns),
        TokenType::IfNonZero => Ok(ns),
    }
}

/// A body that does nothing but decrement the current cell once.
pub open spec fn is_zero_loop(body: Seq<Node>) -> bool {
    body.len() == 1 && body[0].op == Op::Sub(1)
}

/// The node that a parsed loop becomes. A loop that was closed by its
/// bracket and whose body is a single decrement becomes the assignment of
/// zero, with the token of the decrement; any other loop keeps its body.
pub open spec fn loop_node(body: Seq<Node>, closed: bool) -> Node {
    if closed && is_zero_loop(body) {
        Node { op: Op::Assign(0), tokens: seq![body[0].tokens[0]] }
    } else {
        Node { op: Op::Loop(body), tokens: Seq::empty() }
    }
}

/// Where parsing a list of expressions ended: the list or the failure, the
/// index of the first token that was not consumed, and whether the list was
/// ended by a closing bracket.
pub struct Parsed {
    pub result: Result<Seq<Node>, BrainfartError>,
    pub next: int,
    pub closed: bool,
}

/// Parses the tokens from index `pos` on into the list `acc`.
///
/// Inside a loop (`nested`) the list ends after the closing bracket of the
/// loop, or where the tokens end. At the top level it ends where the tokens
/// end, and a closing bracket is passed over. An opening bracket starts a
/// loop, whose node is appended once its body is parsed. The first failure
/// ends the parse.
pub open spec fn parse_items(ts: Seq<Token>, pos: int, acc: Seq<Node>, nested: bool) -> Parsed
    decreases ts.len() - pos,
{
    if pos < 0 || pos >= ts.len() {
        Parsed { result: Ok(acc), next: pos, closed: false }
    } else {
        match ts[pos].ty {
            TokenType::IfZero => {
                let inner = parse_items(ts, pos + 1, Seq::empty(), true);
                match inner.result {
                    Err(e) => Parsed { result: Err(e), next: inner.next, closed: false },
                    Ok(body) => {
                        // a body ends after the place where it began
                        let next = if pos < inner.next <= ts.len() {
                            inner.next
                        } else {
                            pos + 1
                        };
                        parse_items(ts, next, acc.push(loop_node(body, inner.closed)), nested)
                    },
                }
            },
            TokenType::IfNonZero => if nested {
                Parsed { result: Ok(acc), next: pos + 1, closed: true }
            } else {
                parse_items(ts, pos + 1, acc, nested)
            },
            _ => match emit(acc, ts[pos]) {
                Err(e) => Parsed { result: Err(e), next: pos + 1, closed: false },
                Ok(grown) => parse_items(ts, pos + 1, grown, nested),
            },
        }
    }
}

/// What parsing a token sequence gives: the optimized list of expressions,
/// or the first failure.
pub open spec fn parse_spec(ts: Seq<Token>) -> Result<Seq<Node>, BrainfartError> {
    parse_items(ts, 0, Seq::empty(), false).result
}

/// The last node, if there is one, can take one more unit without its count
/// leaving 32 bits.
pub open spec fn has_room(ns: Seq<Node>) -> bool {
    ns.len() > 0 ==> ns.last().count() < u32::MAX
}

/// The list satisfies the invariant of the model, and no node holds more
/// than `k` tokens.
pub open spec fn fits(ns: Seq<Node>, k: int) -> bool {
    &&& wf_nodes(ns)
    &&& forall|i: int| 0 <= i < ns.len() ==> (#[trigger] ns[i]).tokens.len() <= k
}

/// A parse never ends before the place where it began.
pub proof fn lemma_parse_items_next(ts: Seq<Token>, pos: int, acc: Seq<Node>, nested: bool)
    requires
        0 <= pos <= ts.len(),
    ensures
        pos <= parse_items(ts, pos, acc, nested).next <= ts.len(),
    decreases ts.len() - pos,
{
    if pos < ts.len() {
        match ts[pos].ty {
            TokenType::IfZero => {
                let inner = parse_items(ts, pos + 1, Seq::empty(), true);
                lemma_parse_items_next(ts, pos + 1, Seq::empty(), true);
                if let Ok(body) = inner.result {
                    lemma_parse_items_next(
                        ts,
                        inner.next,
                        acc.push(loop_node(body, inner.closed)),
                        nested,
                    );
                }
            },
            TokenType::IfNonZero => {
                if !nested {
                    lemma_parse_items_next(ts, pos + 1, acc, nested);
                }
            },
            _ => {
                if let Ok(grown) = emit(acc, ts[pos]) {
                    lemma_parse_items_next(ts, pos + 1, grown, nested);
                }
            },
        }
    }
}

/// Each rule keeps the invariant of the model.
pub proof fn lemma_rules_keep_wf(ns: Seq<Node>, token: Token)
    requires
        wf_nodes(ns),
    ensures
        wf_nodes(with_point_inc(ns, token)),
        wf_nodes(with_point_dec(ns, token)),
        wf_nodes(with_val_inc(ns, token)),
        with_val_dec(ns, token) is Ok ==> wf_nodes(with_val_dec(ns, token)->Ok_0),
        wf_nodes(with_output(ns, token)),
        wf_nodes(with_input(ns, token)),
        emit(ns, token) is Ok ==> wf_nodes(emit(ns, token)->Ok_0),
{
    if ns.len() > 0 {
        assert(ns.last().wf());
    }
    lemma_wf_after(ns, with_point_inc(ns, token));
    lemma_wf_after(ns, with_point_dec(ns, token));
    lemma_wf_after(ns, with_val_inc(ns, token));
    if with_val_dec(ns, token) is Ok {
        lemma_wf_after(ns, with_val_dec(ns, token)->Ok_0);
    }
    lemma_wf_after(ns, with_output(ns, token));
    lemma_wf_after(ns, with_input(ns, token));
}

/// A list that differs from one satisfying the invariant only from the last
/// node of that one on satisfies it if its own nodes from there on do.
proof fn lemma_wf_after(ns: Seq<Node>, after: Seq<Node>)
    requires
        wf_nodes(ns),
        forall|i: int| 0 <= i < after.len() && i < ns.len() - 1 ==> after[i] == ns[i],
        forall|i: int| 0 <= i < after.len() && i >= ns.len() - 1 ==> (#[trigger] after[i]).wf(),
    ensures
        wf_nodes(after),
{
    assert forall|i: int| 0 <= i < after.len() implies (#[trigger] after[i]).wf() by {
        if i < ns.len() - 1 {
            assert(ns[i].wf());
        }
    }
}

/// One command keeps the invariant of the model, and adds at most one token
/// to a node.
pub proof fn lemma_emit_fits(ns: Seq<Node>, token: Token, k: int)
    requires
        0 <= k,
        fits(ns, k),
        emit(ns, token) is Ok,
    ensures
        fits(emit(ns, token)->Ok_0, k + 1),
{
    lemma_rules_keep_wf(ns, token);
    let after = emit(ns, token)->Ok_0;
    assert forall|i: int| 0 <= i < after.len() implies (#[trigger] after[i]).tokens.len() <= k
        + 1 by {
        if i < ns.len() - 1 {
            assert(after[i] == ns[i]);
        } else if i < ns.len() {
            assert(ns[ns.len() - 1].tokens.len() <= k);
        }
    }
}

/// A parsed loop keeps the invariant of the model if its body does, and
/// holds at most one token.
pub proof fn lemma_loop_node_fits(body: Seq<Node>, closed: bool, k: int)
    requires
        fits(body, k),
    ensures
        loop_node(body, closed).wf(),
        loop_node(body, closed).tokens.len() <= 1,
{
    if closed && is_zero_loop(body) {
        assert(body[0].wf());
    }
}

/// A list that was parsed into a list satisfying the invariant of the
/// model satisfies it too.
pub proof fn lemma_parse_items_fits(ts: Seq<Token>, pos: int, acc: Seq<Node>, nested: bool)
    requires
        0 <= pos <= ts.len(),
        fits(acc, pos),
        parse_items(ts, pos, acc, nested).result is Ok,
    ensures
        fits(parse_items(ts, pos, acc, nested).result->Ok_0, ts.len() as int),
    decreases ts.len() - pos,
{
    if pos < ts.len() {
        match ts[pos].ty {
            TokenType::IfZero => {
                let inner = parse_items(ts, pos + 1, Seq::empty(), true);
                lemma_parse_items_next(ts, pos + 1, Seq::empty(), true);
                let body = inner.result->Ok_0;
                lemma_parse_items_fits(ts, pos + 1, Seq::empty(), true);
                lemma_loop_node_fits(body, inner.closed, ts.len() as int);
                let node = loop_node(body, inner.closed);
                assert(fits(acc.push(node), inner.next)) by {
                    assert forall|i: int| 0 <= i < acc.push(node).len() implies (
                    #[trigger] acc.push(node)[i]).wf() && acc.push(node)[i].tokens.len()
                        <= inner.next by {
                        if i < acc.len() {
                            assert(acc.push(node)[i] == acc[i]);
                        }
                    }
                }
                lemma_parse_items_fits(ts, inner.next, acc.push(node), nested);
            },
            TokenType::IfNonZero => {
                if !nested {
                    lemma_parse_items_fits(ts, pos + 1, acc, nested);
                }
            },
            _ => {
                lemma_emit_fits(acc, ts[pos], pos);
                lemma_parse_items_fits(ts, pos + 1, emit(acc, ts[pos])->Ok_0, nested);
            },
        }
    }
}

/// Appends a run of one unit of the given type, built from the given token.
pub fn push_new_expr(exprs: &mut Vec<Expr>, ty: ExprType, token: Token)
    ensures
        nodes_of(final(exprs)@) == nodes_of(old(exprs)@).push(single(op_of(ty), token)),
{
    let mut tokens: Vec<Token> = Vec::new();
    tokens.push(token);
    let expr: Expr = Expr { ty, tokens };
    exprs.push(expr);
    proof {
        lemma_nodes_of(old(exprs)@);
        lemma_nodes_of(exprs@);
        assert(nodes_of(exprs@) =~= nodes_of(old(exprs)@).push(single(op_of(ty), token)));
    }
}

/// Appends a run of one move to the right.
pub fn push_new_move_right(exprs: &mut Vec<Expr>, token: Token)
    ensures
        nodes_of(final(exprs)@) == nodes_of(old(exprs)@).push(single(Op::MoveRight(1), token)),
{
    push_new_expr(exprs, ExprType::MoveRight(1), token);
}

/// Appends a run of one move to the left.
pub fn push_new_move_left(exprs: &mut Vec<Expr>, token: Token)
    ensures
        nodes_of(final(exprs)@) == nodes_of(old(exprs)@).push(single(Op::MoveLeft(1), token)),
{
    push_new_expr(exprs, ExprType::MoveLeft(1), token);
}

/// Appends a run of one increment.
pub fn push_new_add(exprs: &mut Vec<Expr>, token: Token)
    ensures
        nodes_of(final(exprs)@) == nodes_of(old(exprs)@).push(single(Op::Add(1), token)),
{
    push_new_expr(exprs, ExprType::Add(1), token);
}

/// Appends a run of one decrement.
pub fn push_new_sub(exprs: &mut Vec<Expr>, token: Token)
    ensures
        nodes_of(final(exprs)@) == nodes_of(old(exprs)@).push(single(Op::Sub(1), token)),
{
    push_new_expr(exprs, ExprType::Sub(1), token);
}

/// Appends a run of one output.
pub fn push_new_output(exprs: &mut Vec<Expr>, token: Token)
    ensures
        nodes_of(final(exprs)@) == nodes_of(old(exprs)@).push(single(Op::Output(1), token)),
{
    push_new_expr(exprs, ExprType::Output(1), token);
}

/// Appends a run of one input.
pub fn push_new_input(exprs: &mut Vec<Expr>, token: Token)
    ensures
        nodes_of(final(exprs)@) == nodes_of(old(exprs)@).push(single(Op::Input(1), token)),
{
    push_new_expr(exprs, ExprType::Input(1), token);
}

/// The last expression takes one more unit: its type is replaced and the
/// token appended.
fn grow_last(exprs: &mut Vec<Expr>, ty: ExprType, token: Token)
    requires
        old(exprs)@.len() > 0,
    ensures
        nodes_of(final(exprs)@) == with_last(
            nodes_of(old(exprs)@),
            grown(nodes_of(old(exprs)@).last(), op_of(ty), token),
        ),
{
    let last_index: usize = exprs.len() - 1;
    let prev: &mut Expr = &mut exprs[last_index];
    prev.ty = ty;
    prev.tokens.push(token);
    proof {
        lemma_nodes_of(old(exprs)@);
        lemma_nodes_of(exprs@);
        assert(nodes_of(exprs@) =~= with_last(
            nodes_of(old(exprs)@),
            grown(nodes_of(old(exprs)@).last(), op_of(ty), token),
        ));
    }
}

/// The last expression loses one unit: its type is replaced and the token
/// that was appended last is dropped.
fn shrink_last(exprs: &mut Vec<Expr>, ty: ExprType)
    requires
        old(exprs)@.len() > 0,
        old(exprs)@.last().tokens@.len() > 0,
    ensures
        nodes_of(final(exprs)@) == with_last(
            nodes_of(old(exprs)@),
            shrunk(nodes_of(old(exprs)@).last(), op_of(ty)),
        ),
{
    let last_index: usize = exprs.len() - 1;
    let prev: &mut Expr = &mut exprs[last_index];
    prev.ty = ty;
    prev.tokens.pop();
    proof {
        lemma_nodes_of(old(exprs)@);
        lemma_nodes_of(exprs@);
        assert(nodes_of(exprs@) =~= with_last(
            nodes_of(old(exprs)@),
            shrunk(nodes_of(old(exprs)@).last(), op_of(ty)),
        ));
    }
}

/// The last expression is removed.
fn drop_last_expr(exprs: &mut Vec<Expr>)
    requires
        old(exprs)@.len() > 0,
    ensures
        nodes_of(final(exprs)@) == nodes_of(old(exprs)@).drop_last(),
{
    exprs.pop();
    proof {
        lemma_nodes_of(old(exprs)@);
        lemma_nodes_of(exprs@);
        assert(nodes_of(exprs@) =~= nodes_of(old(exprs)@).drop_last());
    }
}

/// Takes a move to the right into the list.
pub fn parse_point_inc(exprs: &mut Vec<Expr>, token: Token)
    requires
        wf_nodes(nodes_of(old(exprs)@)),
        has_room(nodes_of(old(exprs)@)),
    ensures
        nodes_of(final(exprs)@) == with_point_inc(nodes_of(old(exprs)@), token),
        wf_nodes(nodes_of(final(exprs)@)),
{
    proof {
        lemma_nodes_of(exprs@);
        lemma_rules_keep_wf(nodes_of(exprs@), token);
    }
    if exprs.is_empty() {
        push_new_move_right(exprs, token);
    } else {
        let last_index: usize = exprs.len() - 1;
        if let ExprType::MoveRight(x) = exprs[last_index].ty {
            grow_last(exprs, ExprType::MoveRight(x + 1), token);
        } else {
            push_new_move_right(exprs, token);
        }
    }
}

/// Takes a move to the left into the list.
pub fn parse_point_dec(exprs: &mut Vec<Expr>, token: Token)
    requires
        wf_nodes(nodes_of(old(exprs)@)),
        has_room(nodes_of(old(exprs)@)),
    ensures
        nodes_of(final(exprs)@) == with_point_dec(nodes_of(old(exprs)@), token),
        wf_nodes(nodes_of(final(exprs)@)),
{
    proof {
        lemma_nodes_of(exprs@);
        lemma_rules_keep_wf(nodes_of(exprs@), token);
        if exprs@.len() > 0 {
            assert(nodes_of(exprs@).last().wf());
        }
    }
    if exprs.is_empty() {
        push_new_move_left(exprs, token);
    } else {
        let last_index: usize = exprs.len() - 1;
        match exprs[last_index].ty {
            ExprType::MoveRight(x) => {
                if x == 1 {
                    drop_last_expr(exprs);
                } else {
                    shrink_last(exprs, ExprType::MoveRight(x - 1));
                }
            },
            ExprType::MoveLeft(x) => {
                grow_last(exprs, ExprType::MoveLeft(x + 1), token);
            },
            _ => push_new_move_left(exprs, token),
        }
    }
}

/// Takes an increment into the list.
pub fn parse_val_inc(exprs: &mut Vec<Expr>, token: Token)
    requires
        wf_nodes(nodes_of(old(exprs)@)),
        has_room(nodes_of(old(exprs)@)),
    ensures
        nodes_of(final(exprs)@) == with_val_inc(nodes_of(old(exprs)@), token),
        wf_nodes(nodes_of(final(exprs)@)),
{
    proof {
        lemma_nodes_of(exprs@);
        lemma_rules_keep_wf(nodes_of(exprs@), token);
    }
    if exprs.is_empty() {
        push_new_add(exprs, token);
    } else {
        let last_index: usize = exprs.len() - 1;
        match exprs[last_index].ty {
            ExprType::Add(x) => {
                grow_last(exprs, ExprType::Add(x + 1), token);
            },
            ExprType::Assign(x) => {
                grow_last(exprs, ExprType::Assign(x + 1), token);
            },
            _ => push_new_add(exprs, token),
        };
    }
}

/// Takes a decrement into the list. Lowering the constant of an assignment
/// that is already zero fails at the token, and leaves the list as it was.
pub fn parse_val_dec(exprs: &mut Vec<Expr>, token: Token) -> (r: BrainfartResult<()>)
    requires
        wf_nodes(nodes_of(old(exprs)@)),
        has_room(nodes_of(old(exprs)@)),
    ensures
        match r {
            Ok(()) => with_val_dec(nodes_of(old(exprs)@), token) == Ok::<
                Seq<Node>,
                BrainfartError,
            >(nodes_of(final(exprs)@)),
            Err(e) => with_val_dec(nodes_of(old(exprs)@), token) == Err::<
                Seq<Node>,
                BrainfartError,
            >(e) && final(exprs)@ == old(exprs)@,
        },
        wf_nodes(nodes_of(final(exprs)@)),
{
    proof {
        lemma_nodes_of(exprs@);
        lemma_rules_keep_wf(nodes_of(exprs@), token);
        if exprs@.len() > 0 {
            assert(nodes_of(exprs@).last().wf());
        }
    }
    if exprs.is_empty() {
        push_new_sub(exprs, token);
        Ok(())
    } else {
        let last_index: usize = exprs.len() - 1;
        match exprs[last_index].ty {
            ExprType::Add(x) => {
                if x == 1 {
                    drop_last_expr(exprs);
                } else {
                    shrink_last(exprs, ExprType::Add(x - 1));
                }
            },
            ExprType::Sub(x) => {
                grow_last(exprs, ExprType::Sub(x + 1), token);
            },
            ExprType::Assign(x) => {
                if x == 0 {
                    return Err(BrainfartError::ValZeroDec(token));
                }
                shrink_last(exprs, ExprType::Assign(x - 1));
            },
            _ => push_new_sub(exprs, token),
        };

        Ok(())
    }
}

/// Takes an output into the list.
pub fn parse_output(exprs: &mut Vec<Expr>, token: Token)
    requires
        wf_nodes(nodes_of(old(exprs)@)),
        has_room(nodes_of(old(exprs)@)),
    ensures
        nodes_of(final(exprs)@) == with_output(nodes_of(old(exprs)@), token),
        wf_nodes(nodes_of(final(exprs)@)),
{
    proof {
        lemma_nodes_of(exprs@);
        lemma_rules_keep_wf(nodes_of(exprs@), token);
    }
    if exprs.is_empty() {
        push_new_output(exprs, token);
    } else {
        let last_index: usize = exprs.len() - 1;
        match exprs[last_index].ty {
            ExprType::Output(x) => {
                grow_last(exprs, ExprType::Output(x + 1), token);
            },
            _ => push_new_output(exprs, token),
        }
    }
}

/// Takes an input into the list.
pub fn parse_input(exprs: &mut Vec<Expr>, token: Token)
    requires
        wf_nodes(nodes_of(old(exprs)@)),
        has_room(nodes_of(old(exprs)@)),
    ensures
        nodes_of(final(exprs)@) == with_input(nodes_of(old(exprs)@), token),
        wf_nodes(nodes_of(final(exprs)@)),
{
    proof {
        lemma_nodes_of(exprs@);
        lemma_rules_keep_wf(nodes_of(exprs@), token);
    }
    if exprs.is_empty() {
        push_new_input(exprs, token);
    } else {
        let last_index: usize = exprs.len() - 1;
        match exprs[last_index].ty {
            ExprType::Input(x) => {
                grow_last(exprs, ExprType::Input(x + 1), token);
            },
            _ => push_new_input(exprs, token),
        }
    }
}

/// Takes one command that is not a bracket into the list, by the rule of
/// its kind. The command is the `k`-th of its token sequence, so that no
/// count of the list is above `k`.
fn parse_command(exprs: &mut Vec<Expr>, token: Token, Ghost(k): Ghost<int>) -> (r:
    BrainfartResult<()>)
    requires
        0 <= k < u32::MAX,
        fits(nodes_of(old(exprs)@), k),
        token.ty != TokenType::IfZero,
        token.ty != TokenType::IfNonZero,
    ensures
        match r {
            Ok(()) => emit(nodes_of(old(exprs)@), token) == Ok::<Seq<Node>, BrainfartError>(
                nodes_of(final(exprs)@),
            ) && fits(nodes_of(final(exprs)@), k + 1),
            Err(e) => emit(nodes_of(old(exprs)@), token) == Err::<Seq<Node>, BrainfartError>(e)
                && final(exprs)@ == old(exprs)@,
        },
{
    proof {
        let acc = nodes_of(exprs@);
        if acc.len() > 0 {
            assert(acc.last().wf());
            assert(acc.last().tokens.len() <= k);
        }
        if emit(acc, token) is Ok {
            lemma_emit_fits(acc, token, k);
        }
    }
    match token.ty {
        TokenType::PointInc => parse_point_inc(exprs, token),
        TokenType::PointDec => parse_point_dec(exprs, token),
        TokenType::ValInc => parse_val_inc(exprs, token),
        TokenType::ValDec => {
            return parse_val_dec(exprs, token);
        },
        TokenType::Output => parse_output(exprs, token),
        _ => parse_input(exprs, token),
    }
    Ok(())
}

/// Appends the expression of a loop whose body has been parsed: the
/// assignment of zero for a closed body of a single decrement, the loop
/// with its body for any other.
fn push_loop(exprs: &mut Vec<Expr>, lb_exprs: Vec<Expr>, closed: bool)
    requires
        wf_nodes(nodes_of(lb_exprs@)),
    ensures
        nodes_of(final(exprs)@) == nodes_of(old(exprs)@).push(
            loop_node(nodes_of(lb_exprs@), closed),
        ),
{
    proof {
        lemma_nodes_of(lb_exprs@);
        lemma_nodes_of(exprs@);
    }
    if closed && lb_exprs.len() == 1 {
        let expr: &Expr = &lb_exprs[0];
        if let ExprType::Sub(1) = expr.ty {
            assert(nodes_of(lb_exprs@)[0].wf());
            let expr_token: Token = expr.tokens[0];
            push_new_expr(exprs, ExprType::Assign(0), expr_token);
            assert(nodes_of(exprs@) =~= nodes_of(old(exprs)@).push(
                loop_node(nodes_of(lb_exprs@), closed),
            ));
            return ;
        }
    }
    let ghost body = nodes_of(lb_exprs@);
    let loop_block = LoopBlock { exprs: lb_exprs };
    let boxed_loop_block = Box::new(loop_block);
    let loop_block_expr = Expr { ty: ExprType::LoopBlock(boxed_loop_block), tokens: Vec::new() };
    exprs.push(loop_block_expr);
    proof {
        lemma_nodes_of(exprs@);
        assert(node_of(loop_block_expr) == Node { op: Op::Loop(body), tokens: Seq::empty() });
        assert(nodes_of(exprs@) =~= nodes_of(old(exprs)@).push(loop_node(body, closed)));
    }
}

/// Parses the body of a loop, from the token after its opening bracket on,
/// and appends the expression of the loop to the list, whatever the list
/// holds. `pos` is left at the first token after the loop. A failure in the
/// body leaves the list as it was.
pub fn parse_loop_block(exprs: &mut Vec<Expr>, tokens: &Vec<Token>, pos: &mut usize) -> (r:
    BrainfartResult<()>)
    requires
        *old(pos) <= tokens@.len() <= u32::MAX,
    ensures
        ({
            let body = parse_items(tokens@, *old(pos) as int, Seq::empty(), true);
            match r {
                Ok(()) => {
                    &&& body.result is Ok
                    &&& nodes_of(final(exprs)@) == nodes_of(old(exprs)@).push(
                        loop_node(body.result->Ok_0, body.closed),
                    )
                    &&& *final(pos) == body.next
                    &&& *old(pos) <= *final(pos) <= tokens@.len()
                    &&& loop_node(body.result->Ok_0, body.closed).wf()
                    &&& wf_nodes(nodes_of(old(exprs)@)) ==> wf_nodes(nodes_of(final(exprs)@))
                    &&& fits(nodes_of(old(exprs)@), *old(pos) as int) ==> fits(
                        nodes_of(final(exprs)@),
                        *final(pos) as int,
                    )
                },
                Err(e) => body.result == Err::<Seq<Node>, BrainfartError>(e) && final(exprs)@
                    == old(exprs)@,
            }
        }),
    decreases tokens@.len() - *old(pos),
{
    let mut lb_exprs: Vec<Expr> = Vec::new();
    let mut closed = false;
    let ghost start = *pos as int;
    let ghost target = parse_items(tokens@, start, Seq::empty(), true);
    proof {
        assert(fits(nodes_of(lb_exprs@), start));
    }
    while *pos < tokens.len()
        invariant_except_break
            !closed,
            parse_items(tokens@, *pos as int, nodes_of(lb_exprs@), true) == target,
        invariant
            start == *old(pos),
            start <= *pos <= tokens@.len() <= u32::MAX,
            fits(nodes_of(lb_exprs@), *pos as int),
            exprs@ == old(exprs)@,
            target == parse_items(tokens@, start, Seq::empty(), true),
        ensures
            target.result == Ok::<Seq<Node>, BrainfartError>(nodes_of(lb_exprs@)),
            target.next == *pos,
            target.closed == closed,
        decreases tokens@.len() - *pos,
    {
        let token = tokens[*pos];
        let ghost here = *pos as int;
        *pos += 1;
        match token.ty {
            TokenType::IfZero => {
                proof {
                    lemma_parse_items_next(tokens@, here + 1, Seq::empty(), true);
                }
                let result = parse_loop_block(&mut lb_exprs, tokens, pos);
                if let Err(e) = result {
                    return Err(e);
                }
            },
            TokenType::IfNonZero => {
                closed = true;
                break ;
            },
            _ => {
                let result = parse_command(&mut lb_exprs, token, Ghost(here));
                if let Err(e) = result {
                    return Err(e);
                }
            },
        }
    }
    let ghost before = nodes_of(exprs@);
    push_loop(exprs, lb_exprs, closed);
    proof {
        lemma_loop_node_fits(target.result->Ok_0, closed, *pos as int);
        let node = loop_node(target.result->Ok_0, closed);
        if wf_nodes(before) {
            assert forall|i: int| 0 <= i < before.push(node).len() implies (#[trigger] before.push(
                node,
            )[i]).wf() by {
                if i < before.len() {
                    assert(before.push(node)[i] == before[i]);
                }
            }
        }
        if fits(before, start) {
            assert forall|i: int| 0 <= i < before.push(node).len() implies (#[trigger] before.push(
                node,
            )[i]).tokens.len() <= *pos by {
                if i < before.len() {
                    assert(before.push(node)[i] == before[i]);
                }
            }
        }
    }
    Ok(())
}

/// Parses the tokens that the lexer produced into the optimized list of
/// expressions. There must be no more than 2^32 - 1 tokens, so that every
/// run count fits its 32 bits.
pub fn parse_tokens(tokens: Vec<Token>) -> (r: BrainfartResult<Vec<Expr>>)
    requires
        tokens@.len() <= u32::MAX,
    ensures
        match r {
            Ok(exprs) => parse_spec(tokens@) == Ok::<Seq<Node>, BrainfartError>(nodes_of(exprs@))
                && wf_nodes(nodes_of(exprs@)),
            Err(e) => parse_spec(tokens@) == Err::<Seq<Node>, BrainfartError>(e),
        },
{
    let mut exprs: Vec<Expr> = Vec::new();
    let mut pos: usize = 0;
    proof {
        assert(fits(nodes_of(exprs@), 0));
    }
    while pos < tokens.len()
        invariant
            pos <= tokens@.len() <= u32::MAX,
            fits(nodes_of(exprs@), pos as int),
            parse_items(tokens@, pos as int, nodes_of(exprs@), false).result == parse_spec(
                tokens@,
            ),
        decreases tokens@.len() - pos,
    {
        let token = tokens[pos];
        let ghost here = pos as int;
        pos += 1;
        match token.ty {
            TokenType::IfZero => {
                proof {
                    lemma_parse_items_next(tokens@, here + 1, Seq::empty(), true);
                }
                let result = parse_loop_block(&mut exprs, &tokens, &mut pos);
                if let Err(e) = result {
                    return Err(e);
                }
            },
            TokenType::IfNonZero => (),
            _ => {
                let result = parse_command(&mut exprs, token, Ghost(here));
                if let Err(e) = result {
                    return Err(e);
                }
            },
        }
    }
    Ok(exprs)
}

} // verus!
