//! What a program means: the state that a sequence of instructions leads
//! to, defined along the nesting of its loops, with fuel for the loops that
//! never end.

use vstd::prelude::*;

use crate::eval::{apply, head, EvalError};
use crate::mem::Tape;
use crate::nesting::{lemma_find_close_within, lemma_loop_parts, lemma_tail_balanced};
use crate::syntax::{balanced, matching_close, Ir};

verus! {

/// What a program works on: the tape, the input that is left and the output
/// so far.
pub struct State {
    pub tape: Tape,
    pub input: Seq<u8>,
    pub output: Seq<u8>,
}

/// How the execution of a sequence of instructions ends, and in which
/// state.
pub enum Outcome {
    /// It ran to its end.
    Done(State),
    /// It was given up before an instruction that cannot be run.
    Fault(EvalError, State),
    /// It stopped at a loop that would have gone round more often than the
    /// fuel allowed.
    Timeout(State),
}

impl Outcome {
    /// The state in which the execution ended.
    pub open spec fn state(self) -> State {
        match self {
            Outcome::Done(st) => st,
            Outcome::Fault(_, st) => st,
            Outcome::Timeout(st) => st,
        }
    }

    /// The output at the end of the execution.
    pub open spec fn written(self) -> Seq<u8> {
        self.state().output
    }
}

/// What an instruction other than a bracket makes of a state; `None` where
/// the pointer would leave the tape.
pub open spec fn perform(ir: Ir, st: State) -> Option<State> {
    match ir {
        Ir::Read => Some(
            match head(st.input) {
                Some(byte) => State {
                    tape: st.tape.set(byte),
                    input: st.input.skip(1),
                    output: st.output,
                },
                None => st,
            },
        ),
        Ir::Write => Some(
            State { tape: st.tape, input: st.input, output: st.output.push(st.tape.cur()) },
        ),
        _ => match apply(ir, st.tape) {
            Some(tape) => Some(State { tape, input: st.input, output: st.output }),
            None => None,
        },
    }
}

/// The outcome of running the sequence `p` from state `st`, where no loop
/// goes round more than `fuel` times, and the body of a loop has one unit of
/// fuel less each time round.
pub open spec fn exec(p: Seq<Ir>, st: State, fuel: nat) -> Outcome
    decreases fuel, p.len(), 0int,
{
    if p.len() == 0 {
        Outcome::Done(st)
    } else {
        match p[0] {
            Ir::Open => {
                let close = matching_close(p, 0);
                if !(1 <= close < p.len()) {
                    Outcome::Fault(EvalError::MalformedLoop, st)
                } else {
                    match exec_loop(p.subrange(1, close), st, fuel) {
                        Outcome::Done(next) => exec(p.skip(close + 1), next, fuel),
                        other => other,
                    }
                }
            },
            Ir::Close => Outcome::Fault(EvalError::MalformedLoop, st),
            ir => match perform(ir, st) {
                Some(next) => exec(p.skip(1), next, fuel),
                None => Outcome::Fault(EvalError::OutOfBounds, st),
            },
        }
    }
}

/// The outcome of running the loop with body `body` from state `st`: the
/// body, again and again, until the current cell is zero.
pub open spec fn exec_loop(body: Seq<Ir>, st: State, fuel: nat) -> Outcome
    decreases fuel, body.len(), 1int,
{
    if st.tape.cur() == 0 {
        Outcome::Done(st)
    } else if fuel == 0 {
        Outcome::Timeout(st)
    } else {
        match exec(body, st, (fuel - 1) as nat) {
            Outcome::Done(next) => exec_loop(body, next, (fuel - 1) as nat),
            other => other,
        }
    }
}

/// Running a well-nested sequence and then another is running the two as
/// one.
pub proof fn lemma_exec_concat(a: Seq<Ir>, b: Seq<Ir>, st: State, fuel: nat)
    requires
        balanced(a),
    ensures
        exec(a + b, st, fuel) == match exec(a, st, fuel) {
            Outcome::Done(next) => exec(b, next, fuel),
            other => other,
        },
    decreases a.len(),
{
    let p = a + b;
    if a.len() == 0 {
        assert(p =~= b);
    } else {
        assert(p[0] == a[0]);
        match a[0] {
            Ir::Open => {
                lemma_loop_parts(a);
                let close = matching_close(a, 0);
                lemma_find_close_within(a, b, 1, 1);
                assert(p.subrange(1, close) =~= a.subrange(1, close));
                assert(p.skip(close + 1) =~= a.skip(close + 1) + b);
                match exec_loop(a.subrange(1, close), st, fuel) {
                    Outcome::Done(next) => lemma_exec_concat(a.skip(close + 1), b, next, fuel),
                    _ => {},
                }
            },
            Ir::Close => {},
            ir => {
                lemma_tail_balanced(a);
                assert(p.skip(1) =~= a.skip(1) + b);
                match perform(ir, st) {
                    Some(next) => lemma_exec_concat(a.skip(1), b, next, fuel),
                    None => {},
                }
            },
        }
    }
}

/// A sequence is a prefix of itself.
pub proof fn lemma_prefix_same(a: Seq<u8>)
    ensures
        a.is_prefix_of(a),
{
    assert(a =~= a.subrange(0, a.len() as int));
}

/// The prefix of a prefix is a prefix.
pub proof fn lemma_prefix_chain(a: Seq<u8>, b: Seq<u8>, c: Seq<u8>)
    requires
        a.is_prefix_of(b),
        b.is_prefix_of(c),
    ensures
        a.is_prefix_of(c),
{
    assert(a =~= c.subrange(0, a.len() as int)) by {
        assert forall|i: int| 0 <= i < a.len() implies a[i] == c[i] by {
            assert(a[i] == b.subrange(0, a.len() as int)[i]);
            assert(b[i] == c.subrange(0, b.len() as int)[i]);
        }
    }
}

/// An instruction takes nothing back that was written.
pub proof fn lemma_perform_grows(ir: Ir, st: State)
    requires
        perform(ir, st) is Some,
    ensures
        st.output.is_prefix_of(perform(ir, st)->0.output),
{
    let next = perform(ir, st)->0;
    assert(st.output =~= next.output.subrange(0, st.output.len() as int));
}

/// An execution takes nothing back that was written.
pub proof fn lemma_exec_grows(p: Seq<Ir>, st: State, fuel: nat)
    ensures
        st.output.is_prefix_of(exec(p, st, fuel).written()),
    decreases fuel, p.len(), 0int,
{
    lemma_prefix_same(st.output);
    if p.len() > 0 {
        match p[0] {
            Ir::Open => {
                let close = matching_close(p, 0);
                if 1 <= close < p.len() {
                    let body = p.subrange(1, close);
                    lemma_exec_loop_grows(body, st, fuel);
                    match exec_loop(body, st, fuel) {
                        Outcome::Done(next) => {
                            lemma_exec_grows(p.skip(close + 1), next, fuel);
                            lemma_prefix_chain(
                                st.output,
                                next.output,
                                exec(p, st, fuel).written(),
                            );
                        },
                        _ => {},
                    }
                }
            },
            Ir::Close => {},
            ir => match perform(ir, st) {
                Some(next) => {
                    lemma_perform_grows(ir, st);
                    lemma_exec_grows(p.skip(1), next, fuel);
                    lemma_prefix_chain(st.output, next.output, exec(p, st, fuel).written());
                },
                None => {},
            },
        }
    }
}

/// The execution of a loop takes nothing back that was written.
pub proof fn lemma_exec_loop_grows(body: Seq<Ir>, st: State, fuel: nat)
    ensures
        st.output.is_prefix_of(exec_loop(body, st, fuel).written()),
    decreases fuel, body.len(), 1int,
{
    lemma_prefix_same(st.output);
    if st.tape.cur() != 0 && fuel > 0 {
        let less = (fuel - 1) as nat;
        lemma_exec_grows(body, st, less);
        match exec(body, st, less) {
            Outcome::Done(next) => {
                lemma_exec_loop_grows(body, next, less);
                lemma_prefix_chain(st.output, next.output, exec_loop(body, st, fuel).written());
            },
            _ => {},
        }
    }
}

/// Whether outcome `y` is what outcome `x` becomes with more fuel: `x`
/// itself, unless the fuel of `x` ran out, and in any case an outcome that
/// has written what `x` has written, and maybe more.
pub open spec fn extends(x: Outcome, y: Outcome) -> bool {
    &&& !(x is Timeout) ==> y == x
    &&& x.written().is_prefix_of(y.written())
}

/// With more fuel an execution ends as it did, unless its fuel had run out,
/// and writes what it did, and maybe more.
pub proof fn lemma_more_fuel(p: Seq<Ir>, st: State, fuel: nat, more: nat)
    requires
        fuel <= more,
    ensures
        extends(exec(p, st, fuel), exec(p, st, more)),
    decreases fuel, p.len(), 0int,
{
    lemma_prefix_same(exec(p, st, fuel).written());
    if p.len() > 0 {
        match p[0] {
            Ir::Open => {
                let close = matching_close(p, 0);
                if 1 <= close < p.len() {
                    let body = p.subrange(1, close);
                    let rest = p.skip(close + 1);
                    lemma_loop_more_fuel(body, st, fuel, more);
                    match exec_loop(body, st, fuel) {
                        Outcome::Done(next) => lemma_more_fuel(rest, next, fuel, more),
                        x => {
                            match exec_loop(body, st, more) {
                                Outcome::Done(ahead) => {
                                    lemma_exec_grows(rest, ahead, more);
                                    lemma_prefix_chain(
                                        x.written(),
                                        ahead.output,
                                        exec(p, st, more).written(),
                                    );
                                },
                                _ => {},
                            }
                        },
                    }
                }
            },
            Ir::Close => {},
            ir => match perform(ir, st) {
                Some(next) => lemma_more_fuel(p.skip(1), next, fuel, more),
                None => {},
            },
        }
    }
}

/// With more fuel the execution of a loop ends as it did, unless its fuel
/// had run out, and writes what it did, and maybe more.
pub proof fn lemma_loop_more_fuel(body: Seq<Ir>, st: State, fuel: nat, more: nat)
    requires
        fuel <= more,
    ensures
        extends(exec_loop(body, st, fuel), exec_loop(body, st, more)),
    decreases fuel, body.len(), 1int,
{
    lemma_prefix_same(exec_loop(body, st, fuel).written());
    if st.tape.cur() != 0 {
        if fuel == 0 {
            lemma_exec_loop_grows(body, st, more);
        } else {
            let less = (fuel - 1) as nat;
            let fewer = (more - 1) as nat;
            lemma_more_fuel(body, st, less, fewer);
            match exec(body, st, less) {
                Outcome::Done(next) => lemma_loop_more_fuel(body, next, less, fewer),
                x => {
                    match exec(body, st, fewer) {
                        Outcome::Done(ahead) => {
                            lemma_exec_loop_grows(body, ahead, fewer);
                            lemma_prefix_chain(
                                x.written(),
                                ahead.output,
                                exec_loop(body, st, more).written(),
                            );
                        },
                        _ => {},
                    }
                },
            }
        }
    }
}

} // verus!
