//! What a program means: the outcome of running a list of expressions on a
//! store, given the lines that the input holds.
//!
//! The tape of this semantics is unbounded: every cell that was never
//! written holds zero. A loop may run forever, so the evaluation takes a
//! bound on the depth to which loop iterations may follow one another, and
//! says so when the bound is too small.

use vstd::prelude::*;
use crate::error::BrainfartError;
use crate::expr::{Node, Op};
use crate::token::Token;

verus! {

/// The state that a program works on.
pub struct Store {
    /// What each cell of the tape holds.
    pub cells: spec_fn(nat) -> u32,
    /// The index of the current cell.
    pub ptr: nat,
    /// The highest index that the pointer has been moved to.
    pub reach: nat,
    /// The characters written so far.
    pub out: Seq<char>,
    /// How many lines of the input were taken so far.
    pub used: nat,
    /// Whether a value that is no character has been written, as a space.
    pub blanked: bool,
    /// Whether a run of more than one output has written a value that is no
    /// character, so that a single space stands for several writes.
    pub coalesced: bool,
}

/// How a run ended.
pub enum End {
    /// It came to the end of the program.
    Done,
    /// It failed.
    Fail(BrainfartError),
    /// It would have moved a cell out of the range of 32 bits.
    Overflow,
    /// The bound on the iterations was too small to tell.
    Timeout,
}

/// What a run came to: how it ended, and the store at which it stopped.
pub struct Outcome {
    pub end: End,
    pub store: Store,
}

impl Store {
    /// The store at the start of a run: every cell zero, the pointer at the
    /// first cell, nothing written and nothing read.
    pub open spec fn initial() -> Store {
        Store {
            cells: |i: nat| 0u32,
            ptr: 0,
            reach: 0,
            out: Seq::empty(),
            used: 0,
            blanked: false,
            coalesced: false,
        }
    }

    /// The value of the current cell.
    pub open spec fn cell(self) -> u32 {
        (self.cells)(self.ptr)
    }

    /// The store with the current cell overwritten.
    pub open spec fn with_cell(self, value: u32) -> Store {
        Store {
            cells: |i: nat|
                if i == self.ptr {
                    value
                } else {
                    (self.cells)(i)
                },
            ..self
        }
    }

    /// The store with the pointer moved.
    pub open spec fn with_ptr(self, ptr: nat) -> Store {
        Store {
            ptr,
            reach: if ptr > self.reach {
                ptr
            } else {
                self.reach
            },
            ..self
        }
    }

    /// The store in which the pointer has been as far as `reach`, if it has
    /// not been farther.
    pub open spec fn reaching(self, reach: nat) -> Store {
        Store {
            reach: if reach > self.reach {
                reach
            } else {
                self.reach
            },
            ..self
        }
    }

    /// The store after the current cell was written `n` times.
    pub open spec fn with_written(self, n: nat) -> Store {
        Store {
            out: self.out + written(self.cell(), n),
            blanked: self.blanked || !is_scalar(self.cell()),
            coalesced: self.coalesced || (n >= 2 && !is_scalar(self.cell())),
            ..self
        }
    }

    /// The store after a line that begins with `c` was read into the current
    /// cell.
    pub open spec fn with_line(self, c: char) -> Store {
        Store { used: self.used + 1, ..self.with_cell(c as u32) }
    }
}

/// A run that came to the end of the program.
pub open spec fn done(store: Store) -> Outcome {
    Outcome { end: End::Done, store }
}

/// A run that failed at this store.
pub open spec fn failed(error: BrainfartError, store: Store) -> Outcome {
    Outcome { end: End::Fail(error), store }
}

/// A run that overflowed at this store.
pub open spec fn overflowed(store: Store) -> Outcome {
    Outcome { end: End::Overflow, store }
}

/// A run for which the bound was too small at this store.
pub open spec fn timed_out(store: Store) -> Outcome {
    Outcome { end: End::Timeout, store }
}

impl Outcome {
    /// The outcome of a run in which the pointer had been as far as `reach`
    /// before.
    pub open spec fn reaching(self, reach: nat) -> Outcome {
        Outcome { end: self.end, store: self.store.reaching(reach) }
    }
}

/// Whether a cell value is a Unicode scalar value.
pub open spec fn is_scalar(value: u32) -> bool {
    value <= 0xD7FF || (0xE000 <= value && value <= 0x10FFFF)
}

/// A character, a number of times.
pub open spec fn repeated(c: char, n: nat) -> Seq<char> {
    Seq::new(n, |i: int| c)
}

/// What writing a cell `n` times puts out: the character of the value `n`
/// times, or a single space if the value is no character.
pub open spec fn written(value: u32, n: nat) -> Seq<char> {
    if is_scalar(value) {
        repeated(value as char, n)
    } else {
        repeated(' ', 1)
    }
}

/// What the `k`-th read gives: the first character of the line, or nothing
/// if the read fails. Past the end of the input every read fails.
pub open spec fn line_at(input: Seq<Option<char>>, k: nat) -> Option<char> {
    if k < input.len() {
        input[k as int]
    } else {
        None
    }
}

/// Reads `n` times into the current cell. The first read that fails ends it
/// with a failure at `token`.
pub open spec fn read_lines(n: nat, token: Token, s: Store, input: Seq<Option<char>>) -> Outcome
    decreases n,
{
    if n == 0 {
        done(s)
    } else {
        match line_at(input, s.used) {
            Some(c) => read_lines((n - 1) as nat, token, s.with_line(c), input),
            None => failed(BrainfartError::Io(token), s),
        }
    }
}

/// The outcome of one expression that is not a loop.
///
/// A move to the left of the first cell, and a decrement below zero, fail at
/// the token of the unit at which the run first went too far. An input fails
/// at the first token of its run.
pub open spec fn apply(node: Node, s: Store, input: Seq<Option<char>>) -> Outcome {
    match node.op {
        Op::MoveRight(n) => done(s.with_ptr(s.ptr + n)),
        Op::MoveLeft(n) => if n > s.ptr {
            failed(BrainfartError::PointZeroDec(node.tokens[s.ptr as int]), s)
        } else {
            done(s.with_ptr((s.ptr - n) as nat))
        },
        Op::Add(n) => if s.cell() + n > u32::MAX {
            overflowed(s)
        } else {
            done(s.with_cell((s.cell() + n) as u32))
        },
        Op::Sub(n) => if n > s.cell() {
            failed(BrainfartError::ValZeroDec(node.tokens[s.cell() as int]), s)
        } else {
            done(s.with_cell((s.cell() - n) as u32))
        },
        Op::Assign(n) => if n > u32::MAX {
            overflowed(s)
        } else {
            done(s.with_cell(n as u32))
        },
        Op::Output(n) => done(s.with_written(n)),
        Op::Input(n) => read_lines(n, node.tokens[0], s, input),
        Op::Loop(_) => done(s),
    }
}

/// The outcome of a list of expressions, run from left to right.
pub open spec fn eval_nodes(ns: Seq<Node>, s: Store, input: Seq<Option<char>>, fuel: nat) -> Outcome
    decreases fuel, ns.len() + 2,
{
    if ns.len() == 0 {
        done(s)
    } else {
        let first = eval_node(ns[0], s, input, fuel);
        if first.end is Done {
            eval_nodes(ns.drop_first(), first.store, input, fuel)
        } else {
            first
        }
    }
}

/// The outcome of one expression.
pub open spec fn eval_node(node: Node, s: Store, input: Seq<Option<char>>, fuel: nat) -> Outcome
    decreases fuel, 1nat,
{
    match node.op {
        Op::Loop(body) => eval_loop(body, s, input, fuel),
        _ => apply(node, s, input),
    }
}

/// The outcome of a loop: while the current cell is not zero, the body is
/// run, and the cell is looked at again.
pub open spec fn eval_loop(body: Seq<Node>, s: Store, input: Seq<Option<char>>, fuel: nat) -> Outcome
    decreases fuel, 0nat,
{
    if s.cell() == 0 {
        done(s)
    } else if fuel == 0 {
        timed_out(s)
    } else {
        let once = eval_nodes(body, s, input, (fuel - 1) as nat);
        if once.end is Done {
            eval_loop(body, once.store, input, (fuel - 1) as nat)
        } else {
            once
        }
    }
}

/// An outcome followed by a list of expressions: they run if it came to the
/// end, and it stands if it did not.
pub open spec fn then_nodes(o: Outcome, ns: Seq<Node>, input: Seq<Option<char>>, fuel: nat) -> Outcome {
    if o.end is Done {
        eval_nodes(ns, o.store, input, fuel)
    } else {
        o
    }
}

/// An outcome followed by one expression.
pub open spec fn then_node(o: Outcome, node: Node, input: Seq<Option<char>>, fuel: nat) -> Outcome {
    if o.end is Done {
        eval_node(node, o.store, input, fuel)
    } else {
        o
    }
}

/// Running a list that ends in an expression is running the list, then the
/// expression.
pub proof fn lemma_eval_push(
    ns: Seq<Node>,
    node: Node,
    s: Store,
    input: Seq<Option<char>>,
    fuel: nat,
)
    ensures
        eval_nodes(ns.push(node), s, input, fuel) == then_node(
            eval_nodes(ns, s, input, fuel),
            node,
            input,
            fuel,
        ),
    decreases ns.len(),
{
    if ns.len() == 0 {
        assert(ns.push(node).drop_first() =~= Seq::<Node>::empty());
        let first = eval_node(node, s, input, fuel);
        assert(eval_nodes(Seq::<Node>::empty(), first.store, input, fuel) == done(first.store));
    } else {
        assert(ns.push(node).drop_first() =~= ns.drop_first().push(node));
        let first = eval_node(ns[0], s, input, fuel);
        if first.end is Done {
            lemma_eval_push(ns.drop_first(), node, first.store, input, fuel);
        }
    }
}

/// Running two lists one after the other is running the first, then the
/// second.
pub proof fn lemma_eval_concat(
    a: Seq<Node>,
    b: Seq<Node>,
    s: Store,
    input: Seq<Option<char>>,
    fuel: nat,
)
    ensures
        eval_nodes(a + b, s, input, fuel) == then_nodes(
            eval_nodes(a, s, input, fuel),
            b,
            input,
            fuel,
        ),
    decreases a.len(),
{
    if a.len() == 0 {
        assert(a + b =~= b);
    } else {
        assert((a + b).drop_first() =~= a.drop_first() + b);
        let first = eval_node(a[0], s, input, fuel);
        if first.end is Done {
            lemma_eval_concat(a.drop_first(), b, first.store, input, fuel);
        }
    }
}

/// A bound that was large enough stays large enough when it is raised, and
/// the outcome stays the same.
pub proof fn lemma_eval_nodes_more_fuel(
    ns: Seq<Node>,
    s: Store,
    input: Seq<Option<char>>,
    fuel: nat,
    more: nat,
)
    requires
        !(eval_nodes(ns, s, input, fuel).end is Timeout),
        fuel <= more,
    ensures
        eval_nodes(ns, s, input, more) == eval_nodes(ns, s, input, fuel),
    decreases fuel, ns.len() + 2,
{
    if ns.len() > 0 {
        lemma_eval_node_more_fuel(ns[0], s, input, fuel, more);
        let first = eval_node(ns[0], s, input, fuel);
        if first.end is Done {
            lemma_eval_nodes_more_fuel(ns.drop_first(), first.store, input, fuel, more);
        }
    }
}

/// The same for one expression.
pub proof fn lemma_eval_node_more_fuel(
    node: Node,
    s: Store,
    input: Seq<Option<char>>,
    fuel: nat,
    more: nat,
)
    requires
        !(eval_node(node, s, input, fuel).end is Timeout),
        fuel <= more,
    ensures
        eval_node(node, s, input, more) == eval_node(node, s, input, fuel),
    decreases fuel, 1nat,
{
    if let Op::Loop(body) = node.op {
        lemma_eval_loop_more_fuel(body, s, input, fuel, more);
    }
}

/// The same for a loop.
pub proof fn lemma_eval_loop_more_fuel(
    body: Seq<Node>,
    s: Store,
    input: Seq<Option<char>>,
    fuel: nat,
    more: nat,
)
    requires
        !(eval_loop(body, s, input, fuel).end is Timeout),
        fuel <= more,
    ensures
        eval_loop(body, s, input, more) == eval_loop(body, s, input, fuel),
    decreases fuel, 0nat,
{
    if s.cell() != 0 {
        let once = eval_nodes(body, s, input, (fuel - 1) as nat);
        lemma_eval_nodes_more_fuel(body, s, input, (fuel - 1) as nat, (more - 1) as nat);
        if once.end is Done {
            lemma_eval_loop_more_fuel(
                body,
                once.store,
                input,
                (fuel - 1) as nat,
                (more - 1) as nat,
            );
        }
    }
}

/// How far the pointer has been before a run changes nothing but how far
/// it has been after the run.
pub proof fn lemma_reach_nodes(
    ns: Seq<Node>,
    s: Store,
    reach: nat,
    input: Seq<Option<char>>,
    fuel: nat,
)
    ensures
        eval_nodes(ns, s.reaching(reach), input, fuel) == eval_nodes(ns, s, input, fuel).reaching(
            reach,
        ),
    decreases fuel, ns.len() + 2,
{
    if ns.len() > 0 {
        lemma_reach_node(ns[0], s, reach, input, fuel);
        let first = eval_node(ns[0], s, input, fuel);
        if first.end is Done {
            lemma_reach_nodes(ns.drop_first(), first.store, reach, input, fuel);
        }
    }
}

/// The same for one expression.
pub proof fn lemma_reach_node(
    node: Node,
    s: Store,
    reach: nat,
    input: Seq<Option<char>>,
    fuel: nat,
)
    ensures
        eval_node(node, s.reaching(reach), input, fuel) == eval_node(node, s, input, fuel).reaching(
            reach,
        ),
    decreases fuel, 1nat,
{
    match node.op {
        Op::Loop(body) => lemma_reach_loop(body, s, reach, input, fuel),
        Op::Input(n) => lemma_reach_read(n, node.tokens[0], s, reach, input),
        Op::Add(n) => {
            assert(s.reaching(reach).with_cell((s.cell() + n) as u32) == s.with_cell(
                (s.cell() + n) as u32,
            ).reaching(reach));
        },
        Op::Sub(n) => {
            assert(s.reaching(reach).with_cell((s.cell() - n) as u32) == s.with_cell(
                (s.cell() - n) as u32,
            ).reaching(reach));
        },
        Op::Assign(n) => {
            assert(s.reaching(reach).with_cell(n as u32) == s.with_cell(n as u32).reaching(reach));
        },
        _ => {},
    }
}

/// The same for a loop.
pub proof fn lemma_reach_loop(
    body: Seq<Node>,
    s: Store,
    reach: nat,
    input: Seq<Option<char>>,
    fuel: nat,
)
    ensures
        eval_loop(body, s.reaching(reach), input, fuel) == eval_loop(body, s, input, fuel).reaching(
            reach,
        ),
    decreases fuel, 0nat,
{
    if s.cell() != 0 && fuel > 0 {
        lemma_reach_nodes(body, s, reach, input, (fuel - 1) as nat);
        let once = eval_nodes(body, s, input, (fuel - 1) as nat);
        if once.end is Done {
            lemma_reach_loop(body, once.store, reach, input, (fuel - 1) as nat);
        }
    }
}

/// The same for a run of inputs.
pub proof fn lemma_reach_read(
    n: nat,
    token: Token,
    s: Store,
    reach: nat,
    input: Seq<Option<char>>,
)
    ensures
        read_lines(n, token, s.reaching(reach), input) == read_lines(n, token, s, input).reaching(
            reach,
        ),
    decreases n,
{
    if n > 0 {
        if let Some(c) = line_at(input, s.used) {
            assert(s.reaching(reach).with_line(c) == s.with_line(c).reaching(reach));
            lemma_reach_read((n - 1) as nat, token, s.with_line(c), reach, input);
        }
    }
}

/// After a run the pointer has been at least as far as before it.
pub proof fn lemma_reach_grows_nodes(ns: Seq<Node>, s: Store, input: Seq<Option<char>>, fuel: nat)
    ensures
        s.reach <= eval_nodes(ns, s, input, fuel).store.reach,
    decreases fuel, ns.len() + 2,
{
    if ns.len() > 0 {
        lemma_reach_grows_node(ns[0], s, input, fuel);
        let first = eval_node(ns[0], s, input, fuel);
        if first.end is Done {
            lemma_reach_grows_nodes(ns.drop_first(), first.store, input, fuel);
        }
    }
}

/// The same for one expression.
pub proof fn lemma_reach_grows_node(node: Node, s: Store, input: Seq<Option<char>>, fuel: nat)
    ensures
        s.reach <= eval_node(node, s, input, fuel).store.reach,
    decreases fuel, 1nat,
{
    match node.op {
        Op::Loop(body) => lemma_reach_grows_loop(body, s, input, fuel),
        Op::Input(n) => lemma_reach_grows_read(n, node.tokens[0], s, input),
        _ => {},
    }
}

/// The same for a loop.
pub proof fn lemma_reach_grows_loop(body: Seq<Node>, s: Store, input: Seq<Option<char>>, fuel: nat)
    ensures
        s.reach <= eval_loop(body, s, input, fuel).store.reach,
    decreases fuel, 0nat,
{
    if s.cell() != 0 && fuel > 0 {
        lemma_reach_grows_nodes(body, s, input, (fuel - 1) as nat);
        let once = eval_nodes(body, s, input, (fuel - 1) as nat);
        if once.end is Done {
            lemma_reach_grows_loop(body, once.store, input, (fuel - 1) as nat);
        }
    }
}

/// The same for a run of inputs.
pub proof fn lemma_reach_grows_read(n: nat, token: Token, s: Store, input: Seq<Option<char>>)
    ensures
        s.reach <= read_lines(n, token, s, input).store.reach,
    decreases n,
{
    if n > 0 {
        if let Some(c) = line_at(input, s.used) {
            lemma_reach_grows_read((n - 1) as nat, token, s.with_line(c), input);
        }
    }
}

} // verus!
