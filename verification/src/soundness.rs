//! The machine runs a program as the semantics says.
//!
//! A machine in the middle of a program stands for what is left to run: the
//! rest of the current expression, the rest of the list that holds it, and
//! the rest of every loop around it. This module shows that a step of the
//! machine does not change the outcome of what is left, and from that, that
//! a run of the machine which halts or fails ends as the evaluation of the
//! program does.

use vstd::prelude::*;
use crate::error::BrainfartError;
use crate::expr::{Node, Op, sized_nodes, wf_nodes};
use crate::progstate::{
    Action, Event, Machine, Trace, event_at, innermost, lemma_step_keeps_path, run_spec,
    step_spec, valid_path,
};
use crate::semantics::{
    End, Outcome, Store, done, eval_loop, eval_node, eval_nodes, failed, is_scalar,
    lemma_eval_nodes_more_fuel, line_at, read_lines, repeated, then_nodes,
};

verus! {

/// The cells that a tape stands for: its own, and zero everywhere beyond its
/// end.
pub open spec fn cells_of(tape: Seq<u32>) -> spec_fn(nat) -> u32 {
    |i: nat|
        if i < tape.len() {
            tape[i as int]
        } else {
            0u32
        }
}

/// The store shows the tape and the pointer of the machine: the cells of
/// the tape, and its end one cell after the farthest that the pointer has
/// been.
pub open spec fn shows(s: Store, m: Machine) -> bool {
    s.cells == cells_of(m.tape) && s.ptr == m.ptr && s.reach + 1 == m.tape.len()
}

/// The outcome of the rest of an expression of which `reads` lines are read
/// already.
pub open spec fn rest_of(
    node: Node,
    reads: nat,
    s: Store,
    input: Seq<Option<char>>,
    fuel: nat,
) -> Outcome {
    match node.op {
        Op::Input(n) => if reads >= n {
            done(s)
        } else {
            read_lines((n - reads) as nat, node.tokens[0], s, input)
        },
        _ => eval_node(node, s, input, fuel),
    }
}

/// The outcome of what is left of a program at a place in it: the rest of
/// the current expression, then the expressions after it, then, for each
/// loop around them from the innermost on, the loop once more and the
/// expressions after it.
pub open spec fn resume(
    ns: Seq<Node>,
    path: Seq<usize>,
    reads: nat,
    s: Store,
    input: Seq<Option<char>>,
    fuel: nat,
) -> Outcome
    decreases path.len(),
{
    if path.len() == 0 {
        done(s)
    } else if path.len() == 1 {
        if path[0] >= ns.len() {
            done(s)
        } else {
            then_nodes(
                rest_of(ns[path[0] as int], reads, s, input, fuel),
                ns.skip(path[0] + 1),
                input,
                fuel,
            )
        }
    } else {
        match ns[path[0] as int].op {
            Op::Loop(body) => then_nodes(
                resume(body, path.drop_first(), reads, s, input, fuel),
                ns.skip(path[0] as int),
                input,
                fuel,
            ),
            _ => done(s),
        }
    }
}

/// The expression at which the machine stands, if it stands at one.
pub open spec fn current(ns: Seq<Node>, m: Machine) -> Option<Node> {
    let list = innermost(ns, m.path);
    if m.path.last() < list.len() {
        Some(list[m.path.last() as int])
    } else {
        None
    }
}

/// Whether the machine asks for a line before it goes on.
pub open spec fn asks(ns: Seq<Node>, m: Machine) -> bool {
    step_spec(ns, m, Event::Resume).1 == Action::Read
}

/// One turn of a run: a step, to which the next line of the input is handed
/// if the machine asks for one.
pub open spec fn turn(ns: Seq<Node>, m: Machine, input: Seq<Option<char>>, used: nat) -> (
    Machine,
    Action,
) {
    if asks(ns, m) {
        step_spec(ns, m, event_at(input, used))
    } else {
        step_spec(ns, m, Event::Resume)
    }
}

/// The store after a turn of the machine that stood for the store `s`.
pub open spec fn next_store(ns: Seq<Node>, m: Machine, s: Store, input: Seq<Option<char>>) -> Store {
    let (after, action) = turn(ns, m, input, s.used);
    Store {
        cells: cells_of(after.tape),
        ptr: after.ptr,
        reach: (after.tape.len() - 1) as nat,
        out: match action {
            Action::Print(c, n) => s.out + repeated(c, n as nat),
            _ => s.out,
        },
        used: if asks(ns, m) && action == Action::Continue {
            s.used + 1
        } else {
            s.used
        },
        blanked: s.blanked || match current(ns, m) {
            Some(node) => node.op is Output && !is_scalar(m.cell()),
            None => false,
        },
        coalesced: s.coalesced || match current(ns, m) {
            Some(node) => node.op matches Op::Output(n) && n >= 2 && !is_scalar(m.cell()),
            None => false,
        },
    }
}

/// An outcome followed by a list of expressions stays the same when the
/// bound is raised, if the bound was large enough.
pub proof fn lemma_then_nodes_more_fuel(
    o: Outcome,
    ns: Seq<Node>,
    input: Seq<Option<char>>,
    fuel: nat,
    more: nat,
)
    requires
        !(then_nodes(o, ns, input, fuel).end is Timeout),
        fuel <= more,
    ensures
        then_nodes(o, ns, input, more) == then_nodes(o, ns, input, fuel),
{
    if o.end is Done {
        lemma_eval_nodes_more_fuel(ns, o.store, input, fuel, more);
    }
}

/// What is left of a list at the start of one of its expressions is the
/// list from that expression on.
pub proof fn lemma_resume_fresh(
    ns: Seq<Node>,
    j: usize,
    s: Store,
    input: Seq<Option<char>>,
    fuel: nat,
)
    requires
        j <= ns.len(),
    ensures
        resume(ns, seq![j], 0, s, input, fuel) == eval_nodes(ns.skip(j as int), s, input, fuel),
{
    if j < ns.len() {
        let rest = ns.skip(j as int);
        assert(rest[0] == ns[j as int]);
        assert(rest.drop_first() =~= ns.skip(j + 1));
    }
}

/// The store that shows a machine, after a write to the current cell, shows
/// the machine after the same write.
pub proof fn lemma_shows_with_cell(s: Store, m: Machine, value: u32)
    requires
        shows(s, m),
        m.wf(),
    ensures
        s.cell() == m.cell(),
        s.with_cell(value).cells == cells_of(m.with_cell(value).tape),
{
    assert(s.with_cell(value).cells =~= cells_of(m.with_cell(value).tape));
}

/// What a turn says of what is left to run: that the turn did not change
/// its outcome, or how it ends.
///
/// After a turn that asks to go on, what is left runs as it would have run
/// before the turn; the bound is one higher before the turn, for the turn
/// may have entered a loop. At a turn that halts, nothing is left. At a turn
/// that fails, what is left fails in the same way.
pub open spec fn turn_kept(
    ns: Seq<Node>,
    m: Machine,
    s: Store,
    input: Seq<Option<char>>,
    fuel: nat,
) -> bool {
    let (after, action) = turn(ns, m, input, s.used);
    let s2 = next_store(ns, m, s, input);
    match action {
        Action::Continue | Action::Print(_, _) => {
            let then = resume(ns, after.path, after.reads, s2, input, fuel);
            !(then.end is Timeout) ==> resume(ns, m.path, m.reads, s, input, fuel + 1) == then
        },
        Action::Halt => resume(ns, m.path, m.reads, s, input, fuel) == done(s),
        Action::Fail(e) => resume(ns, m.path, m.reads, s, input, fuel) == failed(e, s),
        _ => true,
    }
}

/// A turn at the top of a list keeps the outcome of what is left.
proof fn lemma_turn_flat(ns: Seq<Node>, m: Machine, s: Store, input: Seq<Option<char>>, fuel: nat)
    requires
        wf_nodes(ns),
        m.wf(),
        sized_nodes(ns),
        m.path.len() == 1,
        m.path[0] <= ns.len(),
        shows(s, m),
    ensures
        turn_kept(ns, m, s, input, fuel),
{
    let i = m.path[0];
    let (after, action) = turn(ns, m, input, s.used);
    let s2 = next_store(ns, m, s, input);
    let then = resume(ns, after.path, after.reads, s2, input, fuel);
    assert(innermost(ns, m.path) == ns);
    if i < ns.len() {
        let node = ns[i as int];
        let tail = ns.skip(i + 1);
        assert(node.wf());
        assert(node.sized());
        lemma_shows_with_cell(s, m, 0);
        let next: usize = (i + 1) as usize;
        assert(m.advanced().path =~= seq![next]);
        lemma_resume_fresh(ns, next, s2, input, fuel);
        match node.op {
            Op::Loop(body) => {
                assert(s2 == s);
                if m.cell() != 0 {
                    assert(after.path =~= seq![i, 0usize]);
                    assert(after.path.drop_first() =~= seq![0usize]);
                    lemma_resume_fresh(body, 0, s2, input, fuel);
                    assert(body.skip(0) =~= body);
                    let once = eval_nodes(body, s, input, fuel);
                    assert(then == then_nodes(once, ns.skip(i as int), input, fuel));
                    assert(ns.skip(i as int)[0] == node);
                    assert(ns.skip(i as int).drop_first() =~= tail);
                    if !(then.end is Timeout) && once.end is Done {
                        let again = eval_loop(body, once.store, input, fuel);
                        assert(eval_node(node, once.store, input, fuel) == again);
                        assert(eval_nodes(ns.skip(i as int), once.store, input, fuel)
                            == then_nodes(again, tail, input, fuel));
                        lemma_then_nodes_more_fuel(again, tail, input, fuel, fuel + 1);
                    }
                } else if !(then.end is Timeout) {
                    lemma_then_nodes_more_fuel(done(s), tail, input, fuel, fuel + 1);
                }
            },
            Op::Input(n) => {
                if m.reads >= n {
                    assert(s2 == s);
                    assert(rest_of(node, m.reads, s, input, fuel + 1) == done(s));
                    if !(then.end is Timeout) {
                        lemma_then_nodes_more_fuel(done(s), tail, input, fuel, fuel + 1);
                    }
                    } else {
                    assert(asks(ns, m));
                    match line_at(input, s.used) {
                        Some(c) => {
                            lemma_shows_with_cell(s, m, c as u32);
                            assert(s2 == s.with_line(c));
                            let rest = read_lines(
                                (n - m.reads - 1) as nat,
                                node.tokens[0],
                                s2,
                                input,
                            );
                            assert(after.path =~= m.path);
                            assert(rest_of(node, m.reads, s, input, fuel + 1) == rest);
                            assert(rest_of(node, after.reads, s2, input, fuel) == rest);
                            if !(then.end is Timeout) {
                                lemma_then_nodes_more_fuel(rest, tail, input, fuel, fuel + 1);
                            }
                                    },
                        None => {
                            assert(rest_of(node, m.reads, s, input, fuel) == failed(
                                BrainfartError::Io(node.tokens[0]),
                                s,
                            ));
                                    },
                    }
                }
            },
            Op::MoveRight(n) => {
                if m.ptr + n < usize::MAX {
                    assert(s2.cells =~= s.cells);
                    assert(s2 == s.with_ptr(s.ptr + n));
                    if !(then.end is Timeout) {
                        lemma_then_nodes_more_fuel(done(s2), tail, input, fuel, fuel + 1);
                    }
                }
            },
            Op::MoveLeft(n) => {
                if n <= m.ptr {
                    assert(s2 == s.with_ptr((s.ptr - n) as nat));
                    if !(then.end is Timeout) {
                        lemma_then_nodes_more_fuel(done(s2), tail, input, fuel, fuel + 1);
                    }
                }
            },
            Op::Add(n) => {
                if m.cell() + n <= u32::MAX {
                    lemma_shows_with_cell(s, m, (m.cell() + n) as u32);
                    assert(s2 == s.with_cell((s.cell() + n) as u32));
                    if !(then.end is Timeout) {
                        lemma_then_nodes_more_fuel(done(s2), tail, input, fuel, fuel + 1);
                    }
                }
            },
            Op::Sub(n) => {
                if n <= m.cell() {
                    lemma_shows_with_cell(s, m, (m.cell() - n) as u32);
                    assert(s2 == s.with_cell((s.cell() - n) as u32));
                    if !(then.end is Timeout) {
                        lemma_then_nodes_more_fuel(done(s2), tail, input, fuel, fuel + 1);
                    }
                }
            },
            Op::Assign(n) => {
                if n <= u32::MAX {
                    lemma_shows_with_cell(s, m, n as u32);
                    assert(s2 == s.with_cell(n as u32));
                    if !(then.end is Timeout) {
                        lemma_then_nodes_more_fuel(done(s2), tail, input, fuel, fuel + 1);
                    }
                }
            },
            Op::Output(n) => {
                assert(s2 == s.with_written(n));
                if !(then.end is Timeout) {
                    lemma_then_nodes_more_fuel(done(s2), tail, input, fuel, fuel + 1);
                }
            },
        }
    }
}

/// The machine inside a loop, seen from the body of the loop.
pub open spec fn inside(m: Machine) -> Machine {
    Machine { path: m.path.drop_first(), ..m }
}

/// A step inside a loop is the step that the machine takes when it is seen
/// from the body of the loop; but at the end of the body, where the machine
/// seen from the body halts, the machine goes back to the loop.
proof fn lemma_step_inside(ns: Seq<Node>, m: Machine, event: Event)
    requires
        m.wf(),
        m.path.len() >= 2,
        valid_path(ns, m.path),
    ensures
        ({
            let body = ns[m.path[0] as int].op->Loop_0;
            let (after, action) = step_spec(ns, m, event);
            let (after_in, action_in) = step_spec(body, inside(m), event);
            &&& innermost(ns, m.path) == innermost(body, inside(m).path)
            &&& if m.path.len() == 2 && m.path[1] >= body.len() {
                &&& action == Action::Continue
                &&& action_in == Action::Halt
                &&& after == (Machine { path: seq![m.path[0]], reads: 0, ..m })
            } else {
                &&& action == action_in
                &&& after == (Machine { path: seq![m.path[0]] + after_in.path, ..after_in })
                &&& after_in.path.len() >= 1
            }
        }),
{
    let body = ns[m.path[0] as int].op->Loop_0;
    let inner = inside(m);
    let (after, action) = step_spec(ns, m, event);
    let (after_in, action_in) = step_spec(body, inner, event);
    let list = innermost(ns, m.path);
    assert(list == innermost(body, inner.path));
    assert(m.path.last() == inner.path.last());
    if m.path.last() >= list.len() {
        if m.path.len() == 2 {
            assert(after.path =~= seq![m.path[0]]);
        } else {
            assert(after.path =~= seq![m.path[0]] + after_in.path);
        }
    } else {
        assert(m.advanced().path =~= seq![m.path[0]] + inner.advanced().path);
        assert(m.path.push(0) =~= seq![m.path[0]] + inner.path.push(0));
        assert(m.path =~= seq![m.path[0]] + inner.path);
        let node = list[m.path.last() as int];
        assert(after.path =~= seq![m.path[0]] + after_in.path);
    }
}

/// The same for a turn, and for the store after it.
proof fn lemma_turn_inside(ns: Seq<Node>, m: Machine, s: Store, input: Seq<Option<char>>)
    requires
        m.wf(),
        m.path.len() >= 2,
        valid_path(ns, m.path),
        shows(s, m),
    ensures
        ({
            let body = ns[m.path[0] as int].op->Loop_0;
            let (after, action) = turn(ns, m, input, s.used);
            let (after_in, action_in) = turn(body, inside(m), input, s.used);
            if m.path.len() == 2 && m.path[1] >= body.len() {
                &&& action == Action::Continue
                &&& action_in == Action::Halt
                &&& after == (Machine { path: seq![m.path[0]], reads: 0, ..m })
                &&& next_store(ns, m, s, input) == s
            } else {
                &&& action == action_in
                &&& after == (Machine { path: seq![m.path[0]] + after_in.path, ..after_in })
                &&& after_in.path.len() >= 1
                &&& next_store(ns, m, s, input) == next_store(body, inside(m), s, input)
            }
        }),
{
    lemma_step_inside(ns, m, Event::Resume);
    lemma_step_inside(ns, m, event_at(input, s.used));
}

/// A turn keeps the outcome of what is left.
pub proof fn lemma_turn_sound(
    ns: Seq<Node>,
    m: Machine,
    s: Store,
    input: Seq<Option<char>>,
    fuel: nat,
)
    requires
        wf_nodes(ns),
        sized_nodes(ns),
        m.wf(),
        valid_path(ns, m.path),
        shows(s, m),
    ensures
        turn_kept(ns, m, s, input, fuel),
    decreases m.path.len(),
{
    if m.path.len() == 1 {
        lemma_turn_flat(ns, m, s, input, fuel);
    } else {
        let i = m.path[0];
        let body = ns[i as int].op->Loop_0;
        let inner = inside(m);
        assert(ns[i as int].wf());
        assert(ns[i as int].sized());
        lemma_turn_sound(body, inner, s, input, fuel);
        lemma_turn_inside(ns, m, s, input);
        lemma_turn_lifted(ns, m, s, input, fuel);
    }
}

/// What a turn keeps when the machine is seen from the body of a loop, it
/// keeps for the machine inside the loop.
proof fn lemma_turn_lifted(ns: Seq<Node>, m: Machine, s: Store, input: Seq<Option<char>>, fuel: nat)
    requires
        m.path.len() >= 2,
        m.path[0] < ns.len(),
        ns[m.path[0] as int].op is Loop,
        turn_kept(ns[m.path[0] as int].op->Loop_0, inside(m), s, input, fuel),
        ({
            let body = ns[m.path[0] as int].op->Loop_0;
            let (after, action) = turn(ns, m, input, s.used);
            let (after_in, action_in) = turn(body, inside(m), input, s.used);
            if m.path.len() == 2 && m.path[1] >= body.len() {
                &&& action == Action::Continue
                &&& action_in == Action::Halt
                &&& after == (Machine { path: seq![m.path[0]], reads: 0, ..m })
                &&& next_store(ns, m, s, input) == s
            } else {
                &&& action == action_in
                &&& after == (Machine { path: seq![m.path[0]] + after_in.path, ..after_in })
                &&& after_in.path.len() >= 1
                &&& next_store(ns, m, s, input) == next_store(body, inside(m), s, input)
            }
        }),
    ensures
        turn_kept(ns, m, s, input, fuel),
{
    let i = m.path[0];
    let body = ns[i as int].op->Loop_0;
    let inner = inside(m);
    let (after, action) = turn(ns, m, input, s.used);
    let (after_in, action_in) = turn(body, inner, input, s.used);
    let s2 = next_store(ns, m, s, input);
    let then = resume(ns, after.path, after.reads, s2, input, fuel);
    let rest = ns.skip(i as int);
    if m.path.len() == 2 && m.path[1] >= body.len() {
        lemma_resume_fresh(ns, i, s, input, fuel);
        assert(resume(body, inner.path, inner.reads, s, input, fuel + 1) == done(s));
        if !(then.end is Timeout) {
            lemma_eval_nodes_more_fuel(rest, s, input, fuel, fuel + 1);
        }
    } else {
        assert(after.path.drop_first() =~= after_in.path);
        let then_in = resume(body, after_in.path, after_in.reads, s2, input, fuel);
        assert(then == then_nodes(then_in, rest, input, fuel));
        if !(then.end is Timeout) {
            lemma_then_nodes_more_fuel(then_in, rest, input, fuel, fuel + 1);
        }
    }
}

/// A run of the machine ends as the semantics says.
///
/// Where a run of at most `limit` steps halts, what was left of the program
/// when the run began comes to its end within the bound `limit`, and leaves
/// the tape and the pointer of the machine, the output of the run, and as
/// much of the input taken. Where the run fails, what was left fails in the
/// same way, at the same state.
pub proof fn lemma_run_sound(
    ns: Seq<Node>,
    m: Machine,
    s: Store,
    input: Seq<Option<char>>,
    limit: nat,
)
    requires
        wf_nodes(ns),
        sized_nodes(ns),
        m.wf(),
        valid_path(ns, m.path),
        shows(s, m),
    ensures
        ({
            let trace = run_spec(ns, m, input, s.used, s.out, limit);
            let left = resume(ns, m.path, m.reads, s, input, limit);
            match trace.action {
                Action::Halt => left.end is Done && ends_as(left, trace),
                Action::Fail(e) => left.end == End::Fail(e) && ends_as(left, trace),
                _ => true,
            }
        }),
    decreases limit,
{
    if limit > 0 {
        let (after, action) = turn(ns, m, input, s.used);
        let s2 = next_store(ns, m, s, input);
        lemma_step_keeps_path(ns, m, Event::Resume);
        lemma_step_keeps_path(ns, m, event_at(input, s.used));
        match action {
            Action::Continue | Action::Print(_, _) => {
                lemma_turn_sound(ns, m, s, input, (limit - 1) as nat);
                lemma_run_sound(ns, after, s2, input, (limit - 1) as nat);
            },
            _ => {
                lemma_turn_sound(ns, m, s, input, limit);
            },
        }
    }
}

/// The outcome leaves what the run left: the tape and the pointer of the
/// machine, the output, and as much of the input taken.
pub open spec fn ends_as(o: Outcome, trace: Trace) -> bool {
    &&& shows(o.store, trace.machine)
    &&& o.store.out == trace.out
    &&& o.store.used == trace.used
}

/// The store that a machine stands for when nothing is written and nothing
/// read yet.
pub open spec fn store_of(m: Machine) -> Store {
    Store {
        cells: cells_of(m.tape),
        ptr: m.ptr,
        reach: (m.tape.len() - 1) as nat,
        out: Seq::empty(),
        used: 0,
        blanked: false,
        coalesced: false,
    }
}

/// A run of at most `limit` steps from the start of a program ends as the
/// evaluation of the program does: where the run halts, the program
/// comes to its end within the bound `limit` and leaves what the run left,
/// and where the run fails, the program fails in the same way, at the same
/// state.
pub open spec fn run_evaluates(
    ns: Seq<Node>,
    m: Machine,
    input: Seq<Option<char>>,
    limit: nat,
) -> bool {
    let trace = run_spec(ns, m, input, 0, Seq::empty(), limit);
    let outcome = eval_nodes(ns, store_of(m), input, limit);
    match trace.action {
        Action::Halt => outcome.end is Done && ends_as(outcome, trace),
        Action::Fail(e) => outcome.end == End::Fail(e) && ends_as(outcome, trace),
        _ => true,
    }
}

/// A run of the machine from the start of a program ends as the
/// evaluation of the program does.
pub proof fn lemma_run_from_start(ns: Seq<Node>, m: Machine, input: Seq<Option<char>>, limit: nat)
    requires
        wf_nodes(ns),
        sized_nodes(ns),
        m.wf(),
        m.path == seq![0usize],
        m.reads == 0,
    ensures
        run_evaluates(ns, m, input, limit),
{
    lemma_run_sound(ns, m, store_of(m), input, limit);
    lemma_resume_fresh(ns, 0, store_of(m), input, limit);
    assert(ns.skip(0) =~= ns);
}

/// The store at the start of a run is what the machine at the start of a
/// run stands for.
pub proof fn lemma_initial_store()
    ensures
        store_of(Machine::initial()) == Store::initial(),
{
    assert(store_of(Machine::initial()).cells =~= Store::initial().cells);
}

} // verus!
