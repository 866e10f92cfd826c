//! The machine follows the semantics to the end.
//!
//! Where the evaluation of a program comes to its end, the machine that
//! runs the program from the start halts after a number of steps; unless
//! the pointer is moved out of the range of addresses, where the machine
//! stops and the semantics goes on.

use vstd::prelude::*;
use crate::expr::{Node, Op, sized_nodes, wf_nodes};
use crate::progstate::{
    Action, Event, Machine, Trace, event_at, innermost, lemma_path_push, lemma_path_update_last,
    lemma_run_keeps_shape, lemma_step_keeps_path, run_spec, step_spec, valid_path,
};
use crate::semantics::{
    Store, apply, eval_loop, eval_node, eval_nodes, lemma_reach_grows_loop,
    lemma_reach_grows_nodes, line_at, read_lines, repeated,
};
use crate::soundness::{asks, cells_of, current, lemma_shows_with_cell, shows, turn};

verus! {

/// After `n` steps from the machine `m`, which stands for the store `s`, the
/// run is still going, at the path `path` and at a machine that stands for
/// the store `s2`; or it has stopped because of an overflow, and the store
/// `s2` is one whose pointer has left the range of addresses.
pub open spec fn arrives(
    ns: Seq<Node>,
    m: Machine,
    s: Store,
    input: Seq<Option<char>>,
    n: nat,
    path: Seq<usize>,
    s2: Store,
) -> bool {
    let t = run_spec(ns, m, input, s.used, s.out, n);
    (t.action == Action::Overflow && s2.reach >= usize::MAX) || {
        &&& t.action == Action::Continue
        &&& t.machine.path == path
        &&& t.machine.reads == 0
        &&& shows(s2, t.machine)
        &&& t.out == s2.out
        &&& t.used == s2.used
    }
}

/// A run of `a + b` steps is a run of `a` steps, followed by a run of `b`
/// steps if it has not ended by then.
pub proof fn lemma_run_split(
    ns: Seq<Node>,
    m: Machine,
    input: Seq<Option<char>>,
    used: nat,
    out: Seq<char>,
    a: nat,
    b: nat,
)
    ensures
        ({
            let t = run_spec(ns, m, input, used, out, a);
            run_spec(ns, m, input, used, out, a + b) == if t.action == Action::Continue {
                run_spec(ns, t.machine, input, t.used, t.out, b)
            } else {
                t
            }
        }),
    decreases a,
{
    if a > 0 {
        let asked = step_spec(ns, m, Event::Resume).1 == Action::Read;
        let event = if asked {
            event_at(input, used)
        } else {
            Event::Resume
        };
        let (after, action) = step_spec(ns, m, event);
        match action {
            Action::Continue => {
                lemma_run_split(
                    ns,
                    after,
                    input,
                    if asked {
                        used + 1
                    } else {
                        used
                    },
                    out,
                    (a - 1) as nat,
                    b,
                );
            },
            Action::Print(c, k) => {
                lemma_run_split(
                    ns,
                    after,
                    input,
                    used,
                    out + repeated(c, k as nat),
                    (a - 1) as nat,
                    b,
                );
            },
            _ => {},
        }
    }
}

/// A run of one step is one turn.
pub proof fn lemma_run_one(
    ns: Seq<Node>,
    m: Machine,
    input: Seq<Option<char>>,
    used: nat,
    out: Seq<char>,
)
    ensures
        ({
            let (after, action) = turn(ns, m, input, used);
            run_spec(ns, m, input, used, out, 1) == (Trace {
                machine: after,
                out: match action {
                    Action::Print(c, k) => out + repeated(c, k as nat),
                    _ => out,
                },
                used: if asks(ns, m) && action == Action::Continue {
                    used + 1
                } else {
                    used
                },
                action: match action {
                    Action::Print(_, _) => Action::Continue,
                    _ => action,
                },
            })
        }),
{
    let (after, action) = turn(ns, m, input, used);
    match action {
        Action::Continue => {
            let used2 = if asks(ns, m) {
                used + 1
            } else {
                used
            };
            assert(run_spec(ns, after, input, used2, out, 0).action == Action::Continue);
        },
        Action::Print(c, k) => {
            assert(run_spec(ns, after, input, used, out + repeated(c, k as nat), 0).action
                == Action::Continue);
        },
        _ => {},
    }
}

/// Where a run arrives somewhere, and a run from there arrives somewhere
/// else, the two runs one after the other arrive there.
pub proof fn lemma_arrives_then(
    ns: Seq<Node>,
    m: Machine,
    s: Store,
    input: Seq<Option<char>>,
    n1: nat,
    path1: Seq<usize>,
    s1: Store,
    n2: nat,
    path2: Seq<usize>,
    s2: Store,
)
    requires
        arrives(ns, m, s, input, n1, path1, s1),
        s1.reach <= s2.reach,
        ({
            let t = run_spec(ns, m, input, s.used, s.out, n1);
            t.action == Action::Continue ==> arrives(ns, t.machine, s1, input, n2, path2, s2)
        }),
    ensures
        arrives(ns, m, s, input, n1 + n2, path2, s2),
{
    lemma_run_split(ns, m, input, s.used, s.out, n1, n2);
}

/// The list that a path leads into satisfies the invariant of the model
/// and can be held in memory, if the tree does.
pub proof fn lemma_innermost_wf(ns: Seq<Node>, path: Seq<usize>)
    requires
        wf_nodes(ns),
        sized_nodes(ns),
        valid_path(ns, path),
    ensures
        wf_nodes(innermost(ns, path)),
        sized_nodes(innermost(ns, path)),
        path.last() <= innermost(ns, path).len(),
    decreases path.len(),
{
    if path.len() >= 2 {
        let node = ns[path[0] as int];
        assert(node.wf());
        assert(node.sized());
        lemma_innermost_wf(node.op->Loop_0, path.drop_first());
    }
}

/// One step at an expression that neither loops nor reads, and that comes to
/// its end in the semantics: the machine stops for an overflow of the
/// pointer, or goes on to the next expression as the semantics says.
proof fn lemma_step_simple(ns: Seq<Node>, m: Machine, s: Store, input: Seq<Option<char>>)
    requires
        wf_nodes(ns),
        sized_nodes(ns),
        m.wf(),
        valid_path(ns, m.path),
        shows(s, m),
        current(ns, m) is Some,
        !(current(ns, m)->0.op is Loop),
        !(current(ns, m)->0.op is Input),
        apply(current(ns, m)->0, s, input).end is Done,
    ensures
        arrives(ns, m, s, input, 1, m.advanced().path, apply(current(ns, m)->0, s, input).store),
{
    let node = current(ns, m)->0;
    lemma_innermost_wf(ns, m.path);
    assert(node.wf());
    assert(node.sized());
    lemma_shows_with_cell(s, m, 0);
    lemma_run_one(ns, m, input, s.used, s.out);
    let (after, action) = step_spec(ns, m, Event::Resume);
    let s1 = apply(node, s, input).store;
    match node.op {
        Op::MoveRight(n) => {
            if m.ptr + n < usize::MAX {
                assert(s1.cells =~= cells_of(after.tape));
            }
        },
        Op::Add(n) => {
            lemma_shows_with_cell(s, m, (m.cell() + n) as u32);
        },
        Op::Sub(n) => {
            lemma_shows_with_cell(s, m, (m.cell() - n) as u32);
        },
        Op::Assign(n) => {
            lemma_shows_with_cell(s, m, n as u32);
        },
        _ => {},
    }
}

/// The machine reads the lines that a run of inputs still has to read, and
/// goes on to the next expression.
proof fn lemma_follow_reads(
    ns: Seq<Node>,
    m: Machine,
    s: Store,
    input: Seq<Option<char>>,
    left: nat,
) -> (n: nat)
    requires
        wf_nodes(ns),
        sized_nodes(ns),
        m.wf(),
        valid_path(ns, m.path),
        shows(s, m),
        current(ns, m) is Some,
        current(ns, m)->0.op is Input,
        m.reads + left == current(ns, m)->0.op->Input_0,
        read_lines(left, current(ns, m)->0.tokens[0], s, input).end is Done,
    ensures
        arrives(
            ns,
            m,
            s,
            input,
            n,
            m.advanced().path,
            read_lines(left, current(ns, m)->0.tokens[0], s, input).store,
        ),
    decreases left,
{
    let node = current(ns, m)->0;
    lemma_innermost_wf(ns, m.path);
    assert(node.sized());
    lemma_run_one(ns, m, input, s.used, s.out);
    if left == 0 {
        1
    } else {
        let c = line_at(input, s.used)->0;
        let after = turn(ns, m, input, s.used).0;
        let s1 = s.with_line(c);
        lemma_shows_with_cell(s, m, c as u32);
        lemma_step_keeps_path(ns, m, event_at(input, s.used));
        assert(after.path == m.path);
        let k = lemma_follow_reads(ns, after, s1, input, (left - 1) as nat);
        lemma_run_split(ns, m, input, s.used, s.out, 1, k);
        assert(after.advanced().path == m.advanced().path);
        1 + k
    }
}

/// The machine follows a list of expressions to its end, where the
/// semantics says that the list comes to its end.
pub proof fn lemma_follow_nodes(
    ns: Seq<Node>,
    m: Machine,
    s: Store,
    input: Seq<Option<char>>,
    fuel: nat,
) -> (n: nat)
    requires
        wf_nodes(ns),
        sized_nodes(ns),
        m.wf(),
        valid_path(ns, m.path),
        shows(s, m),
        m.reads == 0,
        eval_nodes(innermost(ns, m.path).skip(m.path.last() as int), s, input, fuel).end is Done,
    ensures
        arrives(
            ns,
            m,
            s,
            input,
            n,
            m.path.update(m.path.len() - 1, innermost(ns, m.path).len() as usize),
            eval_nodes(innermost(ns, m.path).skip(m.path.last() as int), s, input, fuel).store,
        ),
    decreases fuel, innermost(ns, m.path).len() - m.path.last() + 1,
{
    let list = innermost(ns, m.path);
    let i = m.path.last();
    let goal = m.path.update(m.path.len() - 1, list.len() as usize);
    lemma_innermost_wf(ns, m.path);
    if i >= list.len() {
        assert(goal =~= m.path);
        assert(list.skip(i as int) =~= Seq::<Node>::empty());
        0
    } else {
        let node = list[i as int];
        let rest = list.skip(i as int);
        assert(rest[0] == node);
        assert(rest.drop_first() =~= list.skip(i + 1));
        let first = eval_node(node, s, input, fuel);
        lemma_reach_grows_nodes(list.skip(i + 1), first.store, input, fuel);
        let n1 = match node.op {
            Op::Loop(body) => lemma_follow_loop(ns, m, s, input, fuel),
            Op::Input(k) => lemma_follow_reads(ns, m, s, input, k),
            _ => {
                lemma_step_simple(ns, m, s, input);
                1
            },
        };
        let t = run_spec(ns, m, input, s.used, s.out, n1);
        if t.action == Action::Continue {
            lemma_run_keeps_shape(ns, m, input, s.used, s.out, n1);
            lemma_path_update_last(ns, m.path, (i + 1) as usize);
            assert(t.machine.path.last() == i + 1);
            let n2 = lemma_follow_nodes(ns, t.machine, first.store, input, fuel);
            assert(t.machine.path.update(t.machine.path.len() - 1, list.len() as usize) =~= goal);
            lemma_arrives_then(
                ns,
                m,
                s,
                input,
                n1,
                m.advanced().path,
                first.store,
                n2,
                goal,
                eval_nodes(rest, s, input, fuel).store,
            );
            n1 + n2
        } else {
            lemma_run_split(ns, m, input, s.used, s.out, n1, 0);
            n1
        }
    }
}

/// The machine follows a loop to its end, where the semantics says that the
/// loop comes to its end.
pub proof fn lemma_follow_loop(
    ns: Seq<Node>,
    m: Machine,
    s: Store,
    input: Seq<Option<char>>,
    fuel: nat,
) -> (n: nat)
    requires
        wf_nodes(ns),
        sized_nodes(ns),
        m.wf(),
        valid_path(ns, m.path),
        shows(s, m),
        m.reads == 0,
        current(ns, m) is Some,
        current(ns, m)->0.op is Loop,
        eval_loop(current(ns, m)->0.op->Loop_0, s, input, fuel).end is Done,
    ensures
        arrives(
            ns,
            m,
            s,
            input,
            n,
            m.advanced().path,
            eval_loop(current(ns, m)->0.op->Loop_0, s, input, fuel).store,
        ),
    decreases fuel, 0nat,
{
    let list = innermost(ns, m.path);
    let i = m.path.last();
    let body = current(ns, m)->0.op->Loop_0;
    lemma_innermost_wf(ns, m.path);
    lemma_shows_with_cell(s, m, 0);
    lemma_run_one(ns, m, input, s.used, s.out);
    if s.cell() == 0 {
        1
    } else {
        let less = (fuel - 1) as nat;
        let inside = turn(ns, m, input, s.used).0;
        lemma_path_push(ns, m.path, 0);
        assert(inside.path == m.path.push(0));
        assert(body.skip(0) =~= body);
        let once = eval_nodes(body, s, input, less);
        lemma_reach_grows_loop(body, once.store, input, less);
        // the body
        let n1 = lemma_follow_nodes(ns, inside, s, input, less);
        let end = inside.path.update(inside.path.len() - 1, body.len() as usize);
        let t1 = run_spec(ns, inside, input, s.used, s.out, n1);
        lemma_run_split(ns, m, input, s.used, s.out, 1, n1);
        if t1.action == Action::Continue {
            // back to the loop
            lemma_run_keeps_shape(ns, inside, input, s.used, s.out, n1);
            lemma_path_update_last(ns, inside.path, body.len() as usize);
            lemma_run_one(ns, t1.machine, input, t1.used, t1.out);
            let back = turn(ns, t1.machine, input, t1.used).0;
            assert(back.path =~= m.path);
            lemma_step_keeps_path(ns, t1.machine, Event::Resume);
            lemma_run_split(ns, m, input, s.used, s.out, 1 + n1, 1);
            // the loop again
            let n2 = lemma_follow_loop(ns, back, once.store, input, less);
            lemma_run_split(ns, m, input, s.used, s.out, 1 + n1 + 1, n2);
            1 + n1 + 1 + n2
        } else {
            1 + n1
        }
    }
}

/// Where the semantics says that a program comes to its end from the store
/// that a machine at the start of the program stands for, the machine halts
/// after a number of steps, with the tape, the pointer, the output and the
/// number of lines taken that the semantics says; unless the semantics has
/// moved the pointer out of the range of addresses, where the machine may
/// have stopped.
pub proof fn lemma_run_complete(
    ns: Seq<Node>,
    m: Machine,
    s: Store,
    input: Seq<Option<char>>,
    fuel: nat,
) -> (n: nat)
    requires
        wf_nodes(ns),
        sized_nodes(ns),
        m.wf(),
        m.path == seq![0usize],
        m.reads == 0,
        shows(s, m),
        eval_nodes(ns, s, input, fuel).end is Done,
    ensures
        ({
            let t = run_spec(ns, m, input, s.used, s.out, n);
            let o = eval_nodes(ns, s, input, fuel);
            (t.action == Action::Overflow && o.store.reach >= usize::MAX) || {
                &&& t.action == Action::Halt
                &&& shows(o.store, t.machine)
                &&& t.out == o.store.out
                &&& t.used == o.store.used
            }
        }),
{
    assert(ns.skip(0) =~= ns);
    assert(innermost(ns, m.path) == ns);
    let k = lemma_follow_nodes(ns, m, s, input, fuel);
    let t = run_spec(ns, m, input, s.used, s.out, k);
    lemma_run_split(ns, m, input, s.used, s.out, k, 1);
    if t.action == Action::Continue {
        lemma_run_one(ns, t.machine, input, t.used, t.out);
        assert(t.machine.path.last() == ns.len());
        assert(innermost(ns, t.machine.path) == ns);
    }
    k + 1
}

/// A run that has ended stays as it is when more steps are allowed.
pub proof fn lemma_run_settled(
    ns: Seq<Node>,
    m: Machine,
    input: Seq<Option<char>>,
    used: nat,
    out: Seq<char>,
    n: nat,
    limit: nat,
)
    requires
        run_spec(ns, m, input, used, out, n).action != Action::Continue,
        n <= limit,
    ensures
        run_spec(ns, m, input, used, out, limit) == run_spec(ns, m, input, used, out, n),
{
    lemma_run_split(ns, m, input, used, out, n, (limit - n) as nat);
}

} // verus!
