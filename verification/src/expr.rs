//! The expression model: what the parser produces and the interpreter runs.
//!
//! An expression is a run of one command collapsed into a count, an
//! assignment of a constant, or a loop that owns its body. Every expression
//! but a loop remembers the tokens it was built from, so that a failure can be
//! reported at the place in the source that caused it.

use vstd::prelude::*;
use crate::token::Token;

verus! {

/// What an expression does, with its run count.
#[derive(Debug, PartialEq, Eq)]
pub enum ExprType {
    /// Move the pointer right by the count.
    MoveRight(u32),
    /// Move the pointer left by the count.
    MoveLeft(u32),
    /// Add the count to the current cell.
    Add(u32),
    /// Subtract the count from the current cell.
    Sub(u32),
    /// Overwrite the current cell with the constant.
    Assign(u32),
    /// Write the current cell the given number of times.
    Output(u32),
    /// Read into the current cell the given number of times.
    Input(u32),
    /// Run the body while the current cell is not zero.
    LoopBlock(Box<LoopBlock>),
}

/// The body of a loop.
#[derive(Debug, PartialEq, Eq)]
pub struct LoopBlock {
    pub exprs: Vec<Expr>,
}

/// One node of the expression tree, with the tokens it came from.
#[derive(Debug, PartialEq, Eq)]
pub struct Expr {
    pub ty: ExprType,
    pub tokens: Vec<Token>,
}

/// The mathematical counterpart of [`ExprType`]: counts are natural numbers
/// and a loop holds the sequence of its body.
pub enum Op {
    MoveRight(nat),
    MoveLeft(nat),
    Add(nat),
    Sub(nat),
    Assign(nat),
    Output(nat),
    Input(nat),
    Loop(Seq<Node>),
}

/// The mathematical counterpart of [`Expr`].
pub struct Node {
    pub op: Op,
    pub tokens: Seq<Token>,
}

impl View for Expr {
    type V = Node;

    open spec fn view(&self) -> Node {
        node_of(*self)
    }
}

/// The operation that an expression type stands for.
pub open spec fn op_of(ty: ExprType) -> Op
    decreases ty,
{
    match ty {
        ExprType::MoveRight(n) => Op::MoveRight(n as nat),
        ExprType::MoveLeft(n) => Op::MoveLeft(n as nat),
        ExprType::Add(n) => Op::Add(n as nat),
        ExprType::Sub(n) => Op::Sub(n as nat),
        ExprType::Assign(n) => Op::Assign(n as nat),
        ExprType::Output(n) => Op::Output(n as nat),
        ExprType::Input(n) => Op::Input(n as nat),
        ExprType::LoopBlock(lb) => Op::Loop(nodes_of(lb.exprs@)),
    }
}

/// The node that an expression stands for.
pub open spec fn node_of(e: Expr) -> Node
    decreases e,
{
    Node { op: op_of(e.ty), tokens: e.tokens@ }
}

/// The nodes that a sequence of expressions stands for, in order.
pub open spec fn nodes_of(es: Seq<Expr>) -> Seq<Node>
    decreases es,
{
    if es.len() == 0 {
        Seq::empty()
    } else {
        nodes_of(es.drop_last()).push(node_of(es.last()))
    }
}

/// `nodes_of` keeps the length and maps element by element.
pub proof fn lemma_nodes_of(es: Seq<Expr>)
    ensures
        nodes_of(es).len() == es.len(),
        forall|i: int| 0 <= i < es.len() ==> #[trigger] nodes_of(es)[i] == node_of(es[i]),
    decreases es.len(),
{
    if es.len() > 0 {
        lemma_nodes_of(es.drop_last());
    }
}

impl Node {
    /// The run count of a counted node, the constant of an assignment, zero
    /// for a loop.
    pub open spec fn count(self) -> nat {
        match self.op {
            Op::MoveRight(n) => n,
            Op::MoveLeft(n) => n,
            Op::Add(n) => n,
            Op::Sub(n) => n,
            Op::Assign(n) => n,
            Op::Output(n) => n,
            Op::Input(n) => n,
            Op::Loop(_) => 0,
        }
    }

    /// The invariant of the expression model: a run has at least one unit
    /// and carries one token per unit, an assignment carries the token of
    /// the zeroing followed by one token per unit of its constant, and a loop
    /// carries no token and holds a body of which the same is true.
    pub open spec fn wf(self) -> bool
        decreases self,
    {
        match self.op {
            Op::Loop(body) => self.tokens.len() == 0 && forall|i: int|
                0 <= i < body.len() ==> (#[trigger] body[i]).wf(),
            Op::Assign(n) => self.tokens.len() == n + 1,
            _ => self.count() >= 1 && self.tokens.len() == self.count(),
        }
    }

    /// The node can be held in memory: its count fits 32 bits, and if it is
    /// a loop, its body can be indexed and every node of it can be held in
    /// memory.
    pub open spec fn sized(self) -> bool
        decreases self,
    {
        match self.op {
            Op::Loop(body) => body.len() <= usize::MAX && forall|i: int|
                0 <= i < body.len() ==> (#[trigger] body[i]).sized(),
            _ => self.count() <= u32::MAX,
        }
    }
}

/// Every node of the sequence satisfies the invariant of the model.
pub open spec fn wf_nodes(ns: Seq<Node>) -> bool {
    forall|i: int| 0 <= i < ns.len() ==> (#[trigger] ns[i]).wf()
}

/// The list can be held in memory: it can be indexed, and so can the body
/// of every loop in it, and every count fits 32 bits.
pub open spec fn sized_nodes(ns: Seq<Node>) -> bool {
    ns.len() <= usize::MAX && forall|i: int| 0 <= i < ns.len() ==> (#[trigger] ns[i]).sized()
}

/// What stands for expressions can be held in memory.
pub proof fn lemma_nodes_of_sized(es: Seq<Expr>)
    requires
        es.len() <= usize::MAX,
    ensures
        sized_nodes(nodes_of(es)),
    decreases es,
{
    lemma_nodes_of(es);
    assert forall|i: int| 0 <= i < es.len() implies (#[trigger] nodes_of(es)[i]).sized() by {
        let e = es[i];
        if let ExprType::LoopBlock(lb) = e.ty {
            assert(lb.exprs@.len() == lb.exprs.len());
            lemma_nodes_of(lb.exprs@);
            lemma_nodes_of_sized(lb.exprs@);
        }
    }
}

/// Whether one expression satisfies the invariant of the model.
fn well_formed_expr(expr: &Expr) -> (ok: bool)
    ensures
        ok == node_of(*expr).wf(),
    decreases expr,
{
    let held = expr.tokens.len();
    match &expr.ty {
        ExprType::LoopBlock(lb) => {
            let body_ok = well_formed(lb.exprs.as_slice());
            proof {
                let body = nodes_of(lb.exprs@);
                let node = node_of(*expr);
                assert(node.op == Op::Loop(body));
                if node.wf() {
                    assert forall|i: int| 0 <= i < body.len() implies (#[trigger] body[i]).wf() by {
                        assert(node.op->Loop_0[i].wf());
                    }
                }
                if wf_nodes(body) && held == 0 {
                    assert(node.wf());
                }
            }
            held == 0 && body_ok
        },
        ExprType::Assign(n) => held >= 1 && held - 1 == *n as usize,
        ExprType::MoveRight(n) => *n >= 1 && held == *n as usize,
        ExprType::MoveLeft(n) => *n >= 1 && held == *n as usize,
        ExprType::Add(n) => *n >= 1 && held == *n as usize,
        ExprType::Sub(n) => *n >= 1 && held == *n as usize,
        ExprType::Output(n) => *n >= 1 && held == *n as usize,
        ExprType::Input(n) => *n >= 1 && held == *n as usize,
    }
}

/// Whether a list of expressions satisfies the invariant of the model: in
/// every run one token for each unit, in every assignment one token more
/// than its constant, no token in a loop, and the same throughout the body
/// of every loop.
pub fn well_formed(exprs: &[Expr]) -> (ok: bool)
    ensures
        ok == wf_nodes(nodes_of(exprs@)),
    decreases exprs@,
{
    proof {
        lemma_nodes_of(exprs@);
    }
    let mut i: usize = 0;
    while i < exprs.len()
        invariant
            i <= exprs@.len(),
            nodes_of(exprs@).len() == exprs@.len(),
            forall|j: int| 0 <= j < exprs@.len() ==> #[trigger] nodes_of(exprs@)[j] == node_of(exprs@[j]),
            forall|j: int| 0 <= j < i ==> (#[trigger] nodes_of(exprs@)[j]).wf(),
        decreases exprs@.len() - i,
    {
        if !well_formed_expr(&exprs[i]) {
            assert(!nodes_of(exprs@)[i as int].wf());
            return false;
        }
        i += 1;
    }
    true
}

} // verus!
