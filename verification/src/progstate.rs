//! The interpreter: a machine that runs an expression tree against a
//! growable tape, one expression at a time.
//!
//! The machine neither reads nor writes. Each step hands back an action:
//! what to write, a request for a line of input, or how the run ended.
//! Whoever drives the machine performs the action and, after a request for
//! input, hands the line back as the event of the next step. Where the
//! machine stands in the tree is an explicit path of indices, one for each
//! loop it is inside of, so that a run can stop after any step and go on
//! later.

use vstd::prelude::*;
use crate::error::BrainfartError;
use crate::expr::{
    Expr, ExprType, Node, Op, lemma_nodes_of, lemma_nodes_of_sized, nodes_of, wf_nodes,
};
use crate::semantics::{is_scalar, line_at, repeated};
use crate::soundness::{lemma_run_from_start, run_evaluates};

verus! {

/// What is handed to a step.
#[derive(Debug, Clone, Copy, PartialEq, Eq, Structural)]
pub enum Event {
    /// Nothing: go on.
    Resume,
    /// A line was read, and this is its first character.
    Char(char),
    /// Reading a line failed.
    ReadFailed,
}

/// What a step hands back.
#[derive(Debug, Clone, Copy, PartialEq, Eq, Structural)]
pub enum Action {
    /// Nothing to do: take the next step.
    Continue,
    /// Write the character the given number of times, then take the next
    /// step.
    Print(char, u32),
    /// Read a line, and hand its first character or the failure to the next
    /// step.
    Read,
    /// The program has run to its end.
    Halt,
    /// The program failed.
    Fail(BrainfartError),
    /// A cell would leave the range of 32 bits, or the pointer the range of
    /// addresses. The machine has not moved.
    Overflow,
}

/// The state of a running program: the tape, the pointer, and the place in
/// the expression tree.
#[derive(Debug)]
pub struct ProgState {
    data: Vec<u32>,
    data_index: usize,
    path: Vec<usize>,
    reads: u32,
}

/// What a run of a bounded number of steps came to.
#[derive(Debug, PartialEq, Eq)]
pub struct Transcript {
    /// The action of the last step: `Halt`, `Fail` or `Overflow`, or
    /// `Continue` if the program was still running when the steps were used
    /// up.
    pub action: Action,
    /// The characters written.
    pub output: Vec<char>,
    /// How many lines of the input were taken.
    pub reads: usize,
}

/// The mathematical counterpart of [`ProgState`].
pub struct Machine {
    /// The cells of the tape, from the first on.
    pub tape: Seq<u32>,
    /// The index of the current cell.
    pub ptr: nat,
    /// The place in the tree: the index of the current expression in the
    /// list that holds it, preceded by the indices of the loops around it,
    /// outermost first.
    pub path: Seq<usize>,
    /// How many lines the current expression has read so far.
    pub reads: nat,
}

/// The list of expressions that a path leads into.
pub open spec fn innermost(ns: Seq<Node>, path: Seq<usize>) -> Seq<Node>
    decreases path.len(),
{
    if path.len() <= 1 {
        ns
    } else {
        match ns[path[0] as int].op {
            Op::Loop(body) => innermost(body, path.drop_first()),
            _ => Seq::empty(),
        }
    }
}

/// Whether a path names a place in a tree: all its indices but the last
/// name loops, each in the body of the one before, and the last names an
/// expression of the innermost body or the end of it.
pub open spec fn valid_path(ns: Seq<Node>, path: Seq<usize>) -> bool
    decreases path.len(),
{
    if path.len() == 0 {
        false
    } else if path.len() == 1 {
        path[0] <= ns.len()
    } else {
        &&& path[0] < ns.len()
        &&& match ns[path[0] as int].op {
            Op::Loop(body) => valid_path(body, path.drop_first()),
            _ => false,
        }
    }
}

/// The tape after the pointer moved to `ptr`: as it was if the cell exists,
/// else grown by zeros up to that cell.
pub open spec fn reaching(tape: Seq<u32>, ptr: nat) -> Seq<u32> {
    if ptr < tape.len() {
        tape
    } else {
        tape + Seq::new((ptr + 1 - tape.len()) as nat, |i: int| 0u32)
    }
}

impl Machine {
    /// The machine at the start of a run: a tape of one cell that holds
    /// zero, the pointer on it, before the first expression.
    pub open spec fn initial() -> Machine {
        Machine { tape: seq![0u32], ptr: 0, path: seq![0usize], reads: 0 }
    }

    /// The pointer names a cell of the tape, and the path is not empty.
    pub open spec fn wf(self) -> bool {
        self.ptr < self.tape.len() && self.path.len() >= 1
    }

    /// The value of the current cell.
    pub open spec fn cell(self) -> u32 {
        self.tape[self.ptr as int]
    }

    /// The machine with the current cell overwritten.
    pub open spec fn with_cell(self, value: u32) -> Machine {
        Machine { tape: self.tape.update(self.ptr as int, value), ..self }
    }

    /// The machine after the current expression: the last index of the path
    /// is one higher, and no line is read yet.
    pub open spec fn advanced(self) -> Machine {
        Machine {
            path: self.path.update(self.path.len() - 1, (self.path.last() + 1) as usize),
            reads: 0,
            ..self
        }
    }
}

/// One step of the machine at an expression: the machine after it, and the
/// action.
///
/// A move to the left of the first cell, and a decrement below zero, fail
/// at the token of the unit at which the run first went too far, and an
/// input that fails at the first token of its run. An input takes one line
/// with each step, if the event brings one, and asks for one if it does
/// not; anywhere else the event is not looked at. A loop is entered if the
/// current cell is not zero, and passed over if it is. After a failure or
/// an overflow the machine is as it was.
pub open spec fn step_node(node: Node, m: Machine, event: Event) -> (Machine, Action) {
    match node.op {
        Op::MoveRight(n) => if m.ptr + n >= usize::MAX {
            (m, Action::Overflow)
        } else {
            (
                Machine { tape: reaching(m.tape, m.ptr + n), ptr: m.ptr + n, ..m }.advanced(),
                Action::Continue,
            )
        },
        Op::MoveLeft(n) => if n > m.ptr {
            (m, Action::Fail(BrainfartError::PointZeroDec(node.tokens[m.ptr as int])))
        } else {
            (Machine { ptr: (m.ptr - n) as nat, ..m }.advanced(), Action::Continue)
        },
        Op::Add(n) => if m.cell() + n > u32::MAX {
            (m, Action::Overflow)
        } else {
            (m.with_cell((m.cell() + n) as u32).advanced(), Action::Continue)
        },
        Op::Sub(n) => if n > m.cell() {
            (m, Action::Fail(BrainfartError::ValZeroDec(node.tokens[m.cell() as int])))
        } else {
            (m.with_cell((m.cell() - n) as u32).advanced(), Action::Continue)
        },
        Op::Assign(n) => if n > u32::MAX {
            (m, Action::Overflow)
        } else {
            (m.with_cell(n as u32).advanced(), Action::Continue)
        },
        Op::Output(n) => (
            m.advanced(),
            if is_scalar(m.cell()) {
                Action::Print(m.cell() as char, n as u32)
            } else {
                Action::Print(' ', 1)
            },
        ),
        Op::Input(n) => if m.reads >= n {
            (m.advanced(), Action::Continue)
        } else {
            match event {
                Event::Resume => (m, Action::Read),
                Event::Char(c) => (
                    Machine { reads: m.reads + 1, ..m.with_cell(c as u32) },
                    Action::Continue,
                ),
                Event::ReadFailed => (m, Action::Fail(BrainfartError::Io(node.tokens[0]))),
            }
        },
        Op::Loop(body) => if m.cell() != 0 {
            (Machine { path: m.path.push(0), reads: 0, ..m }, Action::Continue)
        } else {
            (m.advanced(), Action::Continue)
        },
    }
}

/// One step of the machine on a program: the machine after it, and the
/// action.
///
/// At the end of the program the machine halts. At the end of the body of a
/// loop it goes back to the loop, which looks at the current cell again.
/// Anywhere else it runs the current expression.
pub open spec fn step_spec(ns: Seq<Node>, m: Machine, event: Event) -> (Machine, Action) {
    let list = innermost(ns, m.path);
    if m.path.last() >= list.len() {
        if m.path.len() == 1 {
            (m, Action::Halt)
        } else {
            (Machine { path: m.path.drop_last(), reads: 0, ..m }, Action::Continue)
        }
    } else {
        step_node(list[m.path.last() as int], m, event)
    }
}

/// What a run of a bounded number of steps came to.
pub struct Trace {
    /// The machine after the last step.
    pub machine: Machine,
    /// The characters written.
    pub out: Seq<char>,
    /// How many lines of the input were taken.
    pub used: nat,
    /// The action of the last step.
    pub action: Action,
}

/// The event that the `k`-th read of the input gives.
pub open spec fn event_at(input: Seq<Option<char>>, k: nat) -> Event {
    match line_at(input, k) {
        Some(c) => Event::Char(c),
        None => Event::ReadFailed,
    }
}

/// Runs the machine for at most `limit` steps on the given input, from a
/// state in which `used` lines were taken and `out` was written.
///
/// Whenever the machine asks for a line, the next line of the input is
/// handed to it. What the machine asks to be written is appended to the
/// output. The run ends when the program halts, fails or overflows; or
/// after `limit` steps, with the action `Continue`.
pub open spec fn run_spec(
    ns: Seq<Node>,
    m: Machine,
    input: Seq<Option<char>>,
    used: nat,
    out: Seq<char>,
    limit: nat,
) -> Trace
    decreases limit,
{
    if limit == 0 {
        Trace { machine: m, out, used, action: Action::Continue }
    } else {
        let asked = step_spec(ns, m, Event::Resume).1 == Action::Read;
        let event = if asked {
            event_at(input, used)
        } else {
            Event::Resume
        };
        let (after, action) = step_spec(ns, m, event);
        match action {
            Action::Continue => run_spec(
                ns,
                after,
                input,
                if asked {
                    used + 1
                } else {
                    used
                },
                out,
                (limit - 1) as nat,
            ),
            Action::Print(c, n) => run_spec(
                ns,
                after,
                input,
                used,
                out + repeated(c, n as nat),
                (limit - 1) as nat,
            ),
            _ => Trace { machine: after, out, used, action },
        }
    }
}

/// `char::from_u32` of the standard library: it gives the character of a
/// number that is a Unicode scalar value (up to 0xD7FF, or from 0xE000 to
/// 0x10FFFF), and nothing for any other number.
pub assume_specification[ char::from_u32 ](i: u32) -> (r: Option<char>)
    ensures
        r == if is_scalar(i) {
            Some(i as char)
        } else {
            None::<char>
        },
;

/// The list of expressions that a path leads into, with what is known of it.
fn locate<'a>(program: &'a [Expr], path: &Vec<usize>) -> (list: &'a [Expr])
    requires
        wf_nodes(nodes_of(program@)),
        valid_path(nodes_of(program@), path@),
    ensures
        nodes_of(list@) == innermost(nodes_of(program@), path@),
        wf_nodes(nodes_of(list@)),
        path@.last() <= list@.len(),
{
    let mut list: &[Expr] = program;
    let mut d: usize = 0;
    assert(path@.skip(0) =~= path@);
    while d + 1 < path.len()
        invariant
            d < path.len(),
            innermost(nodes_of(list@), path@.skip(d as int)) == innermost(
                nodes_of(program@),
                path@,
            ),
            valid_path(nodes_of(list@), path@.skip(d as int)),
            wf_nodes(nodes_of(list@)),
        decreases path@.len() - d,
    {
        proof {
            lemma_nodes_of(list@);
            assert(path@.skip(d as int).drop_first() =~= path@.skip(d + 1));
            assert(nodes_of(list@)[path@[d as int] as int].wf());
        }
        match &list[path[d]].ty {
            ExprType::LoopBlock(lb) => {
                list = lb.exprs.as_slice();
            },
            _ => {
                assert(false);
            },
        }
        d += 1;
    }
    proof {
        lemma_nodes_of(list@);
    }
    list
}

impl View for ProgState {
    type V = Machine;

    closed spec fn view(&self) -> Machine {
        Machine {
            tape: self.data@,
            ptr: self.data_index as nat,
            path: self.path@,
            reads: self.reads as nat,
        }
    }
}

impl ProgState {
    /// The state at the start of a run: a tape of one cell that holds zero,
    /// and the pointer on it.
    pub fn default() -> (state: Self)
        ensures
            state@ == Machine::initial(),
    {
        let mut data: Vec<u32> = Vec::new();
        data.push(0);
        let mut path: Vec<usize> = Vec::new();
        path.push(0);
        let state = ProgState { data, data_index: 0, path, reads: 0 };
        assert(state@.tape =~= Machine::initial().tape);
        assert(state@.path =~= Machine::initial().path);
        state
    }

    /// The index of the current cell.
    pub fn pointer(&self) -> (ptr: usize)
        ensures
            ptr == self@.ptr,
    {
        self.data_index
    }

    /// The cells of the tape.
    pub fn tape(&self) -> (tape: &Vec<u32>)
        ensures
            tape@ == self@.tape,
    {
        &self.data
    }

    /// Overwrites the current cell.
    fn run_set(&mut self, val: u32)
        requires
            old(self)@.wf(),
        ensures
            final(self)@ == old(self)@.with_cell(val),
    {
        self.data[self.data_index] = val;
    }

    /// Adds to the current cell, unless the sum leaves the range of 32 bits.
    fn run_add(&mut self, val: u32) -> (action: Action)
        requires
            old(self)@.wf(),
        ensures
            old(self)@.cell() + val > u32::MAX ==> action == Action::Overflow && final(self)@
                == old(self)@,
            old(self)@.cell() + val <= u32::MAX ==> action == Action::Continue && final(self)@
                == old(self)@.with_cell((old(self)@.cell() + val) as u32),
    {
        let curr_val = self.data[self.data_index];
        if val > u32::MAX - curr_val {
            Action::Overflow
        } else {
            self.data[self.data_index] = curr_val + val;
            Action::Continue
        }
    }

    /// Subtracts from the current cell, unless that takes it below zero:
    /// then it fails at the token of the first unit that cannot be taken.
    fn run_sub(&mut self, expr: &Expr, val: u32) -> (action: Action)
        requires
            old(self)@.wf(),
            expr.tokens@.len() == val,
        ensures
            val > old(self)@.cell() ==> action == Action::Fail(
                BrainfartError::ValZeroDec(expr.tokens@[old(self)@.cell() as int]),
            ) && final(self)@ == old(self)@,
            val <= old(self)@.cell() ==> action == Action::Continue && final(self)@ == old(
                self,
            )@.with_cell((old(self)@.cell() - val) as u32),
    {
        let curr_val = self.data[self.data_index];
        if curr_val < val {
            let err_token = expr.tokens[curr_val as usize];
            Action::Fail(BrainfartError::ValZeroDec(err_token))
        } else {
            self.data[self.data_index] = curr_val - val;
            Action::Continue
        }
    }

    /// Moves the pointer to the right, and grows the tape by zeros where it
    /// ends before the new cell, unless the pointer leaves the range of
    /// addresses.
    fn run_move_right(&mut self, val: u32) -> (action: Action)
        requires
            old(self)@.wf(),
        ensures
            old(self)@.ptr + val >= usize::MAX ==> action == Action::Overflow && final(self)@
                == old(self)@,
            old(self)@.ptr + val < usize::MAX ==> action == Action::Continue && final(self)@ == (
            Machine {
                tape: reaching(old(self)@.tape, old(self)@.ptr + val as nat),
                ptr: old(self)@.ptr + val as nat,
                ..old(self)@
            }),
    {
        if val as usize >= usize::MAX - self.data_index {
            return Action::Overflow;
        }
        self.data_index += val as usize;
        if self.data_index >= self.data.len() {
            self.data.resize(self.data_index + 1, 0);
        }
        assert(self@.tape =~= reaching(old(self)@.tape, old(self)@.ptr + val as nat));
        Action::Continue
    }

    /// Moves the pointer to the left, unless that takes it before the first
    /// cell: then it fails at the token of the first unit that cannot be
    /// taken.
    fn run_move_left(&mut self, expr: &Expr, val: u32) -> (action: Action)
        requires
            old(self)@.wf(),
            expr.tokens@.len() == val,
        ensures
            val > old(self)@.ptr ==> action == Action::Fail(
                BrainfartError::PointZeroDec(expr.tokens@[old(self)@.ptr as int]),
            ) && final(self)@ == old(self)@,
            val <= old(self)@.ptr ==> action == Action::Continue && final(self)@ == (Machine {
                ptr: (old(self)@.ptr - val) as nat,
                ..old(self)@
            }),
    {
        let dec_val = val as usize;
        if self.data_index < dec_val {
            let err_token = expr.tokens[self.data_index];
            Action::Fail(BrainfartError::PointZeroDec(err_token))
        } else {
            self.data_index -= dec_val;
            Action::Continue
        }
    }

    /// What writing the current cell the given number of times asks for: the
    /// character of its value that many times, or a single space if the
    /// value is no character.
    fn run_output(&self, val: u32) -> (action: Action)
        requires
            self@.wf(),
        ensures
            action == if is_scalar(self@.cell()) {
                Action::Print(self@.cell() as char, val)
            } else {
                Action::Print(' ', 1)
            },
    {
        let char_val = self.data[self.data_index];
        match char::from_u32(char_val) {
            Some(c) => Action::Print(c, val),
            None => Action::Print(' ', 1),
        }
    }

    /// One read of an input: asks for a line if none is handed in, takes the
    /// character of the line into the current cell, or fails at the first
    /// token of the run.
    fn run_input(&mut self, expr: &Expr, val: u32, event: Event) -> (action: Action)
        requires
            old(self)@.wf(),
            old(self)@.reads < val,
            expr.tokens@.len() == val,
        ensures
            (final(self)@, action) == (match event {
                Event::Resume => (old(self)@, Action::Read),
                Event::Char(c) => (
                    Machine { reads: old(self)@.reads + 1, ..old(self)@.with_cell(c as u32) },
                    Action::Continue,
                ),
                Event::ReadFailed => (old(self)@, Action::Fail(BrainfartError::Io(expr.tokens@[0]))),
            }),
    {
        match event {
            Event::Resume => Action::Read,
            Event::Char(input) => {
                let cell_val = input as u32;
                self.data[self.data_index] = cell_val;
                self.reads += 1;
                Action::Continue
            },
            Event::ReadFailed => {
                let token = expr.tokens[0];
                Action::Fail(BrainfartError::Io(token))
            },
        }
    }

    /// A loop is entered if the current cell is not zero, and passed over if
    /// it is.
    fn run_loop_block(&mut self)
        requires
            old(self)@.wf(),
            old(self)@.path.last() < usize::MAX,
        ensures
            final(self)@ == if old(self)@.cell() != 0 {
                Machine { path: old(self)@.path.push(0), reads: 0, ..old(self)@ }
            } else {
                old(self)@.advanced()
            },
    {
        if self.data[self.data_index] == 0 {
            self.advance();
        } else {
            self.path.push(0);
            self.reads = 0;
        }
    }

    /// Goes on to the expression after the current one.
    fn advance(&mut self)
        requires
            old(self)@.wf(),
            old(self)@.path.last() < usize::MAX,
        ensures
            final(self)@ == old(self)@.advanced(),
    {
        let last = self.path.len() - 1;
        let i = self.path[last];
        self.path[last] = i + 1;
        self.reads = 0;
    }

    /// Takes one step of the program: runs the current expression, or moves
    /// on from the end of a list, and hands back what is to be done.
    ///
    /// The state must have been reached by steps of the same program from
    /// the state at the start of a run.
    pub fn step(&mut self, program: &[Expr], event: Event) -> (action: Action)
        requires
            wf_nodes(nodes_of(program@)),
            old(self)@.wf(),
            valid_path(nodes_of(program@), old(self)@.path),
        ensures
            (final(self)@, action) == step_spec(nodes_of(program@), old(self)@, event),
            final(self)@.wf(),
            valid_path(nodes_of(program@), final(self)@.path),
            old(self)@.tape.len() <= final(self)@.tape.len(),
    {
        let list = locate(program, &self.path);
        let depth = self.path.len();
        let i = self.path[depth - 1];
        proof {
            lemma_nodes_of(list@);
            lemma_step_keeps_path(nodes_of(program@), self@, event);
        }
        if i >= list.len() {
            if depth == 1 {
                return Action::Halt;
            }
            self.path.pop();
            self.reads = 0;
            return Action::Continue;
        }
        let expr = &list[i];
        assert(nodes_of(list@)[i as int].wf());
        let action = match &expr.ty {
            ExprType::Assign(val) => {
                self.run_set(*val);
                Action::Continue
            },
            ExprType::Add(val) => self.run_add(*val),
            ExprType::Sub(val) => self.run_sub(expr, *val),
            ExprType::MoveRight(val) => self.run_move_right(*val),
            ExprType::MoveLeft(val) => self.run_move_left(expr, *val),
            ExprType::Output(val) => self.run_output(*val),
            ExprType::Input(val) => {
                if self.reads >= *val {
                    Action::Continue
                } else {
                    return self.run_input(expr, *val, event);
                }
            },
            ExprType::LoopBlock(_) => {
                self.run_loop_block();
                return Action::Continue;
            },
        };
        match action {
            Action::Continue | Action::Print(_, _) => {
                self.advance();
            },
            _ => {},
        }
        action
    }

    /// Runs the program for at most `limit` steps, from this state on. The
    /// lines of `input` are handed to the program as it asks for them, a
    /// line by its first character and a read that fails by `None`; past
    /// the end of `input` every read fails.
    ///
    /// The state must have been reached by steps of the same program from
    /// the state at the start of a run. Of a run from the start of the
    /// program, the outcome is that of the evaluation of the program.
    pub fn run(&mut self, exprs: &[Expr], input: &[Option<char>], limit: u64) -> (transcript:
        Transcript)
        requires
            wf_nodes(nodes_of(exprs@)),
            old(self)@.wf(),
            valid_path(nodes_of(exprs@), old(self)@.path),
        ensures
            ({
                let trace = run_spec(
                    nodes_of(exprs@),
                    old(self)@,
                    input@,
                    0,
                    Seq::empty(),
                    limit as nat,
                );
                &&& final(self)@ == trace.machine
                &&& transcript.output@ == trace.out
                &&& transcript.reads == trace.used
                &&& transcript.action == trace.action
            }),
            old(self)@.path == seq![0usize] && old(self)@.reads == 0 ==> run_evaluates(
                nodes_of(exprs@),
                old(self)@,
                input@,
                limit as nat,
            ),
            final(self)@.wf(),
            valid_path(nodes_of(exprs@), final(self)@.path),
            old(self)@.tape.len() <= final(self)@.tape.len(),
    {
        proof {
            lemma_run_keeps_shape(
                nodes_of(exprs@),
                self@,
                input@,
                0,
                Seq::empty(),
                limit as nat,
            );
            if self@.path == seq![0usize] && self@.reads == 0 {
                assert(exprs@.len() == exprs.len());
                lemma_nodes_of_sized(exprs@);
                lemma_run_from_start(nodes_of(exprs@), self@, input@, limit as nat);
            }
        }
        let mut output: Vec<char> = Vec::new();
        let mut reads: usize = 0;
        let mut steps: u64 = 0;
        let ghost ns = nodes_of(exprs@);
        let ghost goal = run_spec(ns, self@, input@, 0, Seq::empty(), limit as nat);
        while steps < limit
            invariant
                steps <= limit,
                ns == nodes_of(exprs@),
                wf_nodes(ns),
                self@.wf(),
                valid_path(ns, self@.path),
                reads <= input@.len(),
                goal == run_spec(ns, old(self)@, input@, 0, Seq::empty(), limit as nat),
                old(self)@.tape.len() <= goal.machine.tape.len(),
                old(self)@.path == seq![0usize] && old(self)@.reads == 0 ==> run_evaluates(
                    ns,
                    old(self)@,
                    input@,
                    limit as nat,
                ),
                run_spec(ns, self@, input@, reads as nat, output@, (limit - steps) as nat) == goal,
            decreases limit - steps,
        {
            let mut action = self.step(exprs, Event::Resume);
            let mut asked = false;
            if let Action::Read = action {
                let event = if reads < input.len() {
                    match input[reads] {
                        Some(c) => Event::Char(c),
                        None => Event::ReadFailed,
                    }
                } else {
                    Event::ReadFailed
                };
                action = self.step(exprs, event);
                asked = true;
            }
            match action {
                Action::Continue => {
                    if asked {
                        reads += 1;
                    }
                },
                Action::Print(c, n) => {
                    let ghost start = output@;
                    let mut k: u32 = 0;
                    while k < n
                        invariant
                            k <= n,
                            output@ == start + repeated(c, k as nat),
                        decreases n - k,
                    {
                        output.push(c);
                        k += 1;
                        assert(output@ =~= start + repeated(c, k as nat));
                    }
                },
                _ => {
                    return Transcript { action, output, reads };
                },
            }
            steps += 1;
        }
        Transcript { action: Action::Continue, output, reads }
    }
}

/// A path without its last index is a path, into the list that holds the
/// loop whose body the path led into.
pub proof fn lemma_path_drop_last(ns: Seq<Node>, path: Seq<usize>)
    requires
        valid_path(ns, path),
        path.len() >= 2,
    ensures
        valid_path(ns, path.drop_last()),
        path.drop_last().last() < innermost(ns, path.drop_last()).len(),
        innermost(ns, path.drop_last())[path.drop_last().last() as int].op == Op::Loop(
            innermost(ns, path),
        ),
    decreases path.len(),
{
    let body = ns[path[0] as int].op->Loop_0;
    if path.len() > 2 {
        lemma_path_drop_last(body, path.drop_first());
        assert(path.drop_last().drop_first() =~= path.drop_first().drop_last());
    } else {
        assert(innermost(body, path.drop_first()) == body);
    }
}

/// A path whose last index is replaced by another index of the same list,
/// or by the end of that list, is a path into the same list.
pub proof fn lemma_path_update_last(ns: Seq<Node>, path: Seq<usize>, j: usize)
    requires
        valid_path(ns, path),
        j <= innermost(ns, path).len(),
    ensures
        valid_path(ns, path.update(path.len() - 1, j)),
        innermost(ns, path.update(path.len() - 1, j)) == innermost(ns, path),
    decreases path.len(),
{
    if path.len() >= 2 {
        let body = ns[path[0] as int].op->Loop_0;
        lemma_path_update_last(body, path.drop_first(), j);
        assert(path.update(path.len() - 1, j).drop_first() =~= path.drop_first().update(
            path.len() - 2,
            j,
        ));
    }
}

/// A path to a loop, followed by an index of the body of the loop or by the
/// end of that body, is a path into the body.
pub proof fn lemma_path_push(ns: Seq<Node>, path: Seq<usize>, j: usize)
    requires
        valid_path(ns, path),
        path.last() < innermost(ns, path).len(),
        innermost(ns, path)[path.last() as int].op is Loop,
        j <= innermost(ns, path)[path.last() as int].op->Loop_0.len(),
    ensures
        valid_path(ns, path.push(j)),
        innermost(ns, path.push(j)) == innermost(ns, path)[path.last() as int].op->Loop_0,
    decreases path.len(),
{
    if path.len() >= 2 {
        let body = ns[path[0] as int].op->Loop_0;
        lemma_path_push(body, path.drop_first(), j);
        assert(path.push(j).drop_first() =~= path.drop_first().push(j));
    } else {
        let body = ns[path[0] as int].op->Loop_0;
        assert(path.push(j).drop_first() =~= seq![j]);
        assert(valid_path(body, seq![j]));
        assert(innermost(body, seq![j]) == body);
    }
}

/// A run never shortens the tape nor grows it beyond the range of
/// addresses, and leaves the machine at a place in the tree with the pointer
/// on the tape.
pub proof fn lemma_run_keeps_shape(
    ns: Seq<Node>,
    m: Machine,
    input: Seq<Option<char>>,
    used: nat,
    out: Seq<char>,
    limit: nat,
)
    requires
        m.wf(),
        valid_path(ns, m.path),
    ensures
        run_spec(ns, m, input, used, out, limit).machine.wf(),
        valid_path(ns, run_spec(ns, m, input, used, out, limit).machine.path),
        m.tape.len() <= run_spec(ns, m, input, used, out, limit).machine.tape.len(),
        m.tape.len() <= usize::MAX ==> run_spec(ns, m, input, used, out, limit).machine.tape.len()
            <= usize::MAX,
    decreases limit,
{
    if limit > 0 {
        let asked = step_spec(ns, m, Event::Resume).1 == Action::Read;
        let event = if asked {
            event_at(input, used)
        } else {
            Event::Resume
        };
        let (after, action) = step_spec(ns, m, event);
        lemma_step_keeps_path(ns, m, event);
        match action {
            Action::Continue => {
                lemma_run_keeps_shape(
                    ns,
                    after,
                    input,
                    if asked {
                        used + 1
                    } else {
                        used
                    },
                    out,
                    (limit - 1) as nat,
                );
            },
            Action::Print(c, n) => {
                lemma_run_keeps_shape(
                    ns,
                    after,
                    input,
                    used,
                    out + repeated(c, n as nat),
                    (limit - 1) as nat,
                );
            },
            _ => {},
        }
    }
}

/// A step leads from a place in the tree to a place in the tree, and keeps
/// the pointer on the tape.
pub proof fn lemma_step_keeps_path(ns: Seq<Node>, m: Machine, event: Event)
    requires
        m.wf(),
        valid_path(ns, m.path),
    ensures
        step_spec(ns, m, event).0.wf(),
        valid_path(ns, step_spec(ns, m, event).0.path),
{
    let list = innermost(ns, m.path);
    let i = m.path.last();
    if i >= list.len() {
        if m.path.len() >= 2 {
            lemma_path_drop_last(ns, m.path);
        }
    } else {
        lemma_path_update_last(ns, m.path, (i + 1) as usize);
        if list[i as int].op is Loop {
            lemma_path_push(ns, m.path, 0);
        }
    }
}

} // verus!
