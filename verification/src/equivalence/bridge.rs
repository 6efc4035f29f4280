//! The evaluator and the meaning of programs agree: on a well-nested
//! program, the steps of the machine lead where the meaning of the program
//! says.

use vstd::prelude::*;

use crate::equivalence::{lemma_exec_loop_wf, lemma_exec_wf, lemma_perform_wf};
use crate::eval::{head, silent, EvalError, Machine, Run, Status};
use crate::nesting::{lemma_find_close_within, lemma_loop_parts, lemma_tail_balanced};
use crate::semantics::{
    exec, exec_loop, lemma_prefix_chain, lemma_prefix_same, perform, Outcome, State,
};
use crate::syntax::{
    balanced, lemma_find_close_bounds, lemma_find_close_skip, matching_close, Ir,
};

verus! {

/// The run after `n` more steps of program `p`, or the error of the first
/// step that fails.
pub open spec fn steps(r: Run, p: Seq<Ir>, n: nat) -> Result<Run, EvalError>
    decreases n,
{
    if n == 0 {
        Ok(r)
    } else {
        match r.machine.step(p, head(r.input)) {
            Ok((machine, effect)) => steps(r.after(machine, effect), p, (n - 1) as nat),
            Err(e) => Err(e),
        }
    }
}

/// What a run works on.
pub open spec fn state_of(r: Run) -> State {
    State { tape: r.machine.tape, input: r.input, output: r.output }
}

/// The run that works on `st`, with the machine at instruction `ip` and the
/// loops of `stack` open.
pub open spec fn run_at(st: State, ip: int, stack: Seq<int>) -> Run {
    Run {
        machine: Machine { tape: st.tape, ip, stack },
        input: st.input,
        output: st.output,
    }
}

/// The number of steps that the machine takes for the sequence `p`, up to
/// its end or to where the execution of `p` stops short of it.
pub open spec fn cost(p: Seq<Ir>, st: State, fuel: nat) -> nat
    decreases fuel, p.len(), 0int,
{
    if p.len() == 0 {
        0
    } else {
        match p[0] {
            Ir::Open => {
                let close = matching_close(p, 0);
                if !(1 <= close < p.len()) {
                    0
                } else {
                    cost_loop(p.subrange(1, close), st, fuel) + match exec_loop(
                        p.subrange(1, close),
                        st,
                        fuel,
                    ) {
                        Outcome::Done(next) => cost(p.skip(close + 1), next, fuel),
                        _ => 0,
                    }
                }
            },
            Ir::Close => 0,
            ir => match perform(ir, st) {
                Some(next) => 1 + cost(p.skip(1), next, fuel),
                None => 0,
            },
        }
    }
}

/// The number of steps that the machine takes for the loop with body `body`,
/// from its `Open` to behind its `Close` or to where the execution of the
/// loop stops short of it.
pub open spec fn cost_loop(body: Seq<Ir>, st: State, fuel: nat) -> nat
    decreases fuel, body.len(), 1int,
{
    if st.tape.cur() == 0 {
        1
    } else if fuel == 0 {
        0
    } else {
        1 + cost(body, st, (fuel - 1) as nat) + match exec(body, st, (fuel - 1) as nat) {
            Outcome::Done(next) => 1 + if next.tape.cur() == 0 {
                0
            } else {
                cost_loop(body, next, (fuel - 1) as nat)
            },
            _ => 0,
        }
    }
}

/// Steps add up.
pub proof fn lemma_steps_add(r: Run, p: Seq<Ir>, a: nat, b: nat)
    ensures
        steps(r, p, a + b) == match steps(r, p, a) {
            Ok(mid) => steps(mid, p, b),
            Err(e) => Err(e),
        },
    decreases a,
{
    if a > 0 {
        match r.machine.step(p, head(r.input)) {
            Ok((machine, effect)) => {
                lemma_steps_add(r.after(machine, effect), p, (a - 1) as nat, b);
            },
            Err(e) => {},
        }
    }
}

/// Whether the machine, after `n` steps, stands where the execution of a
/// sequence ended, in the state in which it ended: behind the sequence, at
/// index `end`, if it ran to its end; before a step that fails, if it was
/// given up; at an instruction, with no fewer steps taken than there was
/// fuel, if the fuel ran out.
pub open spec fn agrees(r: Run, p: Seq<Ir>, end: int, outcome: Outcome, n: nat, fuel: nat) -> bool {
    match outcome {
        Outcome::Done(next) => steps(r, p, n) == Ok::<Run, EvalError>(
            run_at(next, end, r.machine.stack),
        ),
        Outcome::Fault(e, last) => steps(r, p, n) is Ok && state_of(steps(r, p, n)->Ok_0) == last
            && steps(r, p, n + 1) == Err::<Run, EvalError>(e),
        Outcome::Timeout(last) => steps(r, p, n) is Ok && state_of(steps(r, p, n)->Ok_0) == last
            && !steps(r, p, n)->Ok_0.machine.halted(p) && n >= fuel,
    }
}

/// One step of the machine at an instruction that is no bracket.
pub proof fn lemma_step_plain(r: Run, p: Seq<Ir>)
    requires
        !r.machine.halted(p),
        p[r.machine.ip] != Ir::Open,
        p[r.machine.ip] != Ir::Close,
    ensures
        match perform(p[r.machine.ip], state_of(r)) {
            Some(next) => steps(r, p, 1) == Ok::<Run, EvalError>(
                run_at(next, r.machine.ip + 1, r.machine.stack),
            ),
            None => steps(r, p, 1) == Err::<Run, EvalError>(EvalError::OutOfBounds),
        },
{
    reveal_with_fuel(steps, 2);
    match r.machine.step(p, head(r.input)) {
        Ok((machine, effect)) => {
            assert(steps(r.after(machine, effect), p, 0) == Ok::<Run, EvalError>(
                r.after(machine, effect),
            ));
        },
        Err(e) => {},
    }
}

/// One step of the machine at an `Open`.
pub proof fn lemma_step_open(r: Run, p: Seq<Ir>)
    requires
        !r.machine.halted(p),
        p[r.machine.ip] == Ir::Open,
        matching_close(p, r.machine.ip) < p.len(),
    ensures
        steps(r, p, 1) == Ok::<Run, EvalError>(
            if r.machine.tape.cur() != 0 {
                run_at(state_of(r), r.machine.ip + 1, r.machine.stack.push(r.machine.ip))
            } else {
                run_at(state_of(r), matching_close(p, r.machine.ip) + 1, r.machine.stack)
            },
        ),
{
    reveal_with_fuel(steps, 2);
    match r.machine.step(p, head(r.input)) {
        Ok((machine, effect)) => {
            assert(steps(r.after(machine, effect), p, 0) == Ok::<Run, EvalError>(
                r.after(machine, effect),
            ));
        },
        Err(e) => {},
    }
}

/// One step of the machine at a `Close`, with the loop open that `open`
/// opens.
pub proof fn lemma_step_close(r: Run, p: Seq<Ir>, open: int, stack: Seq<int>)
    requires
        !r.machine.halted(p),
        p[r.machine.ip] == Ir::Close,
        r.machine.stack == stack.push(open),
    ensures
        steps(r, p, 1) == Ok::<Run, EvalError>(
            if r.machine.tape.cur() != 0 {
                run_at(state_of(r), open, stack)
            } else {
                run_at(state_of(r), r.machine.ip + 1, stack)
            },
        ),
{
    reveal_with_fuel(steps, 2);
    assert(stack.push(open).drop_last() =~= stack);
    match r.machine.step(p, head(r.input)) {
        Ok((machine, effect)) => {
            assert(steps(r.after(machine, effect), p, 0) == Ok::<Run, EvalError>(
                r.after(machine, effect),
            ));
        },
        Err(e) => {},
    }
}

/// Where a loop stands in a program, read off a part of the program that
/// holds the loop.
pub proof fn lemma_close_in_block(p: Seq<Ir>, lo: int, hi: int)
    requires
        0 <= lo < hi <= p.len(),
        p[lo] == Ir::Open,
        balanced(p.subrange(lo, hi)),
    ensures
        matching_close(p, lo) == matching_close(p.subrange(lo, hi), 0) + lo,
        lo < matching_close(p, lo) < hi,
        p[matching_close(p, lo)] == Ir::Close,
        balanced(p.subrange(lo + 1, matching_close(p, lo))),
        balanced(p.subrange(matching_close(p, lo) + 1, hi)),
        p.subrange(lo, hi).subrange(1, matching_close(p.subrange(lo, hi), 0)) == p.subrange(
            lo + 1,
            matching_close(p, lo),
        ),
        p.subrange(lo, hi).skip(matching_close(p.subrange(lo, hi), 0) + 1) == p.subrange(
            matching_close(p, lo) + 1,
            hi,
        ),
{
    let block = p.subrange(lo, hi);
    assert(block[0] == p[lo]);
    lemma_loop_parts(block);
    let c = matching_close(block, 0);
    assert(p.skip(lo) =~= block + p.skip(hi));
    lemma_find_close_within(block, p.skip(hi), 1, 1);
    lemma_find_close_skip(p, lo, 1, 1);
    lemma_find_close_bounds(p, lo + 1, 1);
    assert(block.subrange(1, c) =~= p.subrange(lo + 1, lo + c));
    assert(block.skip(c + 1) =~= p.subrange(lo + c + 1, hi));
}

/// The machine does what a well-nested part of a program means: from the
/// first instruction of the part it comes, in `cost` steps, to where the
/// execution of the part ends.
pub proof fn lemma_bridge(p: Seq<Ir>, lo: int, hi: int, r: Run, fuel: nat)
    requires
        0 <= lo <= hi <= p.len(),
        balanced(p.subrange(lo, hi)),
        r.machine.ip == lo,
        r.machine.tape.wf(),
    ensures
        agrees(
            r,
            p,
            hi,
            exec(p.subrange(lo, hi), state_of(r), fuel),
            cost(p.subrange(lo, hi), state_of(r), fuel),
            fuel,
        ),
        exec(p.subrange(lo, hi), state_of(r), fuel) matches Outcome::Fault(e, _) ==> e
            == EvalError::OutOfBounds,
    decreases fuel, hi - lo, 0int,
{
    let block = p.subrange(lo, hi);
    let st = state_of(r);
    if block.len() == 0 {
        assert(r == run_at(st, hi, r.machine.stack));
    } else {
        assert(block[0] == p[lo]);
        match block[0] {
            Ir::Open => {
                lemma_close_in_block(p, lo, hi);
                let close = matching_close(p, lo);
                let body = p.subrange(lo + 1, close);
                lemma_bridge_loop(p, lo, close, r, fuel);
                let n = cost_loop(body, st, fuel);
                match exec_loop(body, st, fuel) {
                    Outcome::Done(next) => {
                        lemma_exec_loop_wf(body, st, fuel);
                        let mid = run_at(next, close + 1, r.machine.stack);
                        lemma_bridge(p, close + 1, hi, mid, fuel);
                        let m = cost(p.subrange(close + 1, hi), next, fuel);
                        lemma_steps_add(r, p, n, m);
                        lemma_steps_add(r, p, n, m + 1);
                    },
                    _ => {},
                }
            },
            Ir::Close => {
                lemma_tail_balanced(block);
            },
            ir => {
                lemma_tail_balanced(block);
                assert(block.skip(1) =~= p.subrange(lo + 1, hi));
                lemma_step_plain(r, p);
                match perform(ir, st) {
                    Some(next) => {
                        lemma_perform_wf(ir, st);
                        let mid = run_at(next, lo + 1, r.machine.stack);
                        lemma_bridge(p, lo + 1, hi, mid, fuel);
                        let m = cost(p.subrange(lo + 1, hi), next, fuel);
                        lemma_steps_add(r, p, 1, m);
                        lemma_steps_add(r, p, 1, m + 1);
                    },
                    None => {
                        assert(steps(r, p, 0) == Ok::<Run, EvalError>(r));
                    },
                }
            },
        }
    }
}

/// The machine does what a loop of a program means: from the `Open` of the
/// loop it comes, in `cost_loop` steps, to where the execution of the loop
/// ends.
pub proof fn lemma_bridge_loop(p: Seq<Ir>, lo: int, close: int, r: Run, fuel: nat)
    requires
        0 <= lo < close < p.len(),
        p[lo] == Ir::Open,
        p[close] == Ir::Close,
        matching_close(p, lo) == close,
        balanced(p.subrange(lo + 1, close)),
        r.machine.ip == lo,
        r.machine.tape.wf(),
    ensures
        agrees(
            r,
            p,
            close + 1,
            exec_loop(p.subrange(lo + 1, close), state_of(r), fuel),
            cost_loop(p.subrange(lo + 1, close), state_of(r), fuel),
            fuel,
        ),
        exec_loop(p.subrange(lo + 1, close), state_of(r), fuel) matches Outcome::Fault(e, _)
            ==> e == EvalError::OutOfBounds,
    decreases fuel, close - lo, 1int,
{
    let body = p.subrange(lo + 1, close);
    let st = state_of(r);
    let stack = r.machine.stack;
    lemma_step_open(r, p);
    if st.tape.cur() == 0 {
    } else if fuel == 0 {
        assert(steps(r, p, 0) == Ok::<Run, EvalError>(r));
    } else {
        let less = (fuel - 1) as nat;
        let inside = run_at(st, lo + 1, stack.push(lo));
        lemma_bridge(p, lo + 1, close, inside, less);
        let cb = cost(body, st, less);
        lemma_steps_add(r, p, 1, cb);
        lemma_steps_add(r, p, 1, cb + 1);
        match exec(body, st, less) {
            Outcome::Done(next) => {
                lemma_exec_wf(body, st, less);
                let at_close = run_at(next, close, stack.push(lo));
                lemma_step_close(at_close, p, lo, stack);
                lemma_steps_add(r, p, 1 + cb, 1);
                if next.tape.cur() != 0 {
                    let again = run_at(next, lo, stack);
                    lemma_bridge_loop(p, lo, close, again, less);
                    let m = cost_loop(body, next, less);
                    lemma_steps_add(r, p, 1 + cb + 1, m);
                    lemma_steps_add(r, p, 1 + cb + 1, m + 1);
                }
            },
            _ => {},
        }
    }
}

/// A machine that has halted stays as it is.
pub proof fn lemma_halted_stays(r: Run, p: Seq<Ir>, n: nat)
    requires
        r.machine.halted(p),
    ensures
        steps(r, p, n) == Ok::<Run, EvalError>(r),
    decreases n,
{
    if n > 0 {
        assert(r.after(r.machine, silent()) == r);
        lemma_halted_stays(r, p, (n - 1) as nat);
    }
}

/// A run whose steps lead to a machine that has halted ends there, whatever
/// fuel it has beyond those steps.
pub proof fn lemma_run_halts(r: Run, p: Seq<Ir>, n: nat, fuel: nat)
    requires
        steps(r, p, n) is Ok,
        steps(r, p, n)->Ok_0.machine.halted(p),
        fuel >= n,
    ensures
        r.run(p, fuel) == (Status::Halted, steps(r, p, n)->Ok_0),
    decreases n,
{
    if r.machine.halted(p) {
        lemma_halted_stays(r, p, n);
    } else {
        match r.machine.step(p, head(r.input)) {
            Ok((machine, effect)) => {
                lemma_run_halts(r.after(machine, effect), p, (n - 1) as nat, (fuel - 1) as nat);
            },
            Err(e) => {},
        }
    }
}

/// A run one of whose steps fails is given up at that step, whatever fuel it
/// has beyond it.
pub proof fn lemma_run_faults(r: Run, p: Seq<Ir>, n: nat, fuel: nat)
    requires
        steps(r, p, n) is Err,
        fuel >= n,
    ensures
        r.run(p, fuel).0 == Status::Fault(steps(r, p, n)->Err_0),
    decreases n,
{
    if r.machine.halted(p) {
        lemma_halted_stays(r, p, n);
    } else {
        match r.machine.step(p, head(r.input)) {
            Ok((machine, effect)) => {
                lemma_run_faults(r.after(machine, effect), p, (n - 1) as nat, (fuel - 1) as nat);
            },
            Err(e) => {},
        }
    }
}

/// A run whose steps lead to a machine that has not halted has not ended
/// within the fuel that those steps take.
pub proof fn lemma_run_goes_on(r: Run, p: Seq<Ir>, n: nat, fuel: nat)
    requires
        steps(r, p, n) is Ok,
        !steps(r, p, n)->Ok_0.machine.halted(p),
        fuel <= n,
    ensures
        r.run(p, fuel).0 == Status::OutOfFuel,
    decreases n,
{
    if r.machine.halted(p) {
        lemma_halted_stays(r, p, n);
    } else if fuel > 0 {
        match r.machine.step(p, head(r.input)) {
            Ok((machine, effect)) => {
                lemma_run_goes_on(r.after(machine, effect), p, (n - 1) as nat, (fuel - 1) as nat);
            },
            Err(e) => {},
        }
    }
}

/// A run that has halted is the same with more fuel.
pub proof fn lemma_run_more_fuel(r: Run, p: Seq<Ir>, fuel: nat, more: nat)
    requires
        r.run(p, fuel).0 == Status::Halted,
        more >= fuel,
    ensures
        r.run(p, more) == r.run(p, fuel),
    decreases fuel,
{
    if !r.machine.halted(p) {
        match r.machine.step(p, head(r.input)) {
            Ok((machine, effect)) => {
                lemma_run_more_fuel(
                    r.after(machine, effect),
                    p,
                    (fuel - 1) as nat,
                    (more - 1) as nat,
                );
            },
            Err(e) => {},
        }
    }
}

/// The state in which a program is run on `input`.
pub open spec fn start_state(input: Seq<u8>) -> State {
    state_of(Run::start(input))
}

/// A run of a well-nested program that halts is an execution of the program
/// that runs to its end, and leaves the state that the execution leaves.
pub proof fn lemma_halting_run_is_done(p: Seq<Ir>, input: Seq<u8>, fuel: nat)
    requires
        balanced(p),
        Run::start(input).run(p, fuel).0 == Status::Halted,
    ensures
        exec(p, start_state(input), fuel) is Done,
        state_of(Run::start(input).run(p, fuel).1) == exec(p, start_state(input), fuel)->Done_0,
{
    let r = Run::start(input);
    let st = start_state(input);
    let n = cost(p, st, fuel);
    assert(p.subrange(0, p.len() as int) =~= p);
    lemma_bridge(p, 0, p.len() as int, r, fuel);
    match exec(p, st, fuel) {
        Outcome::Done(next) => {
            let most = if fuel >= n {
                fuel
            } else {
                n
            };
            lemma_run_halts(r, p, n, most);
            lemma_run_more_fuel(r, p, fuel, most);
        },
        Outcome::Fault(e, _) => {
            let most = if fuel >= n + 1 {
                fuel
            } else {
                n + 1
            };
            lemma_run_faults(r, p, n + 1, most);
            lemma_run_more_fuel(r, p, fuel, most);
        },
        Outcome::Timeout(_) => {
            lemma_run_goes_on(r, p, n, fuel);
        },
    }
}

/// The steps of a run take nothing back that was written.
pub proof fn lemma_steps_grow(r: Run, p: Seq<Ir>, n: nat)
    requires
        steps(r, p, n) is Ok,
    ensures
        r.output.is_prefix_of(steps(r, p, n)->Ok_0.output),
    decreases n,
{
    lemma_prefix_same(r.output);
    if n > 0 {
        match r.machine.step(p, head(r.input)) {
            Ok((machine, effect)) => {
                let next = r.after(machine, effect);
                assert(r.output =~= next.output.subrange(0, r.output.len() as int));
                lemma_steps_grow(next, p, (n - 1) as nat);
                lemma_prefix_chain(r.output, next.output, steps(r, p, n)->Ok_0.output);
            },
            Err(e) => {},
        }
    }
}

/// A run with fuel for `n` steps ends where `n` steps lead.
pub proof fn lemma_run_reaches(r: Run, p: Seq<Ir>, n: nat)
    requires
        steps(r, p, n) is Ok,
    ensures
        r.run(p, n).1 == steps(r, p, n)->Ok_0,
    decreases n,
{
    if r.machine.halted(p) {
        lemma_halted_stays(r, p, n);
    } else if n > 0 {
        match r.machine.step(p, head(r.input)) {
            Ok((machine, effect)) => lemma_run_reaches(r.after(machine, effect), p, (n - 1) as nat),
            Err(e) => {},
        }
    }
}

/// Where `n` steps of a run lead has been written what the run writes
/// within its fuel, if the fuel is not for more steps, or the machine has
/// halted by then, or the next step fails.
pub proof fn lemma_run_within(r: Run, p: Seq<Ir>, fuel: nat, n: nat)
    requires
        steps(r, p, n) is Ok,
        fuel <= n || steps(r, p, n)->Ok_0.machine.halted(p) || steps(r, p, n + 1) is Err,
    ensures
        r.run(p, fuel).1.output.is_prefix_of(steps(r, p, n)->Ok_0.output),
    decreases fuel,
{
    lemma_steps_grow(r, p, n);
    if !r.machine.halted(p) && fuel > 0 {
        match r.machine.step(p, head(r.input)) {
            Ok((machine, effect)) => {
                if n == 0 {
                    assert(steps(r, p, 1) is Err);
                    assert(steps(r.after(machine, effect), p, 0) is Ok);
                } else {
                    lemma_run_within(
                        r.after(machine, effect),
                        p,
                        (fuel - 1) as nat,
                        (n - 1) as nat,
                    );
                }
            },
            Err(e) => {},
        }
    }
}

/// What the run of a well-nested program has written within its fuel, the
/// execution of the program with that fuel has written too. A run with fuel
/// for `cost` steps ends in the state in which the execution ends; it halts
/// if the execution ran to its end, and one step more fails if the execution
/// was given up.
pub proof fn lemma_run_and_exec(p: Seq<Ir>, input: Seq<u8>, fuel: nat)
    requires
        balanced(p),
    ensures
        ({
            let from = Run::start(input);
            let outcome = exec(p, start_state(input), fuel);
            let n = cost(p, start_state(input), fuel);
            &&& from.run(p, fuel).1.output.is_prefix_of(outcome.written())
            &&& state_of(from.run(p, n).1) == outcome.state()
            &&& outcome is Done ==> from.run(p, n).0 == Status::Halted
            &&& outcome matches Outcome::Fault(e, _) ==> e == EvalError::OutOfBounds && from.run(
                p,
                n + 1,
            ).0 == Status::Fault(e)
        }),
{
    let r = Run::start(input);
    let st = start_state(input);
    let n = cost(p, st, fuel);
    assert(p.subrange(0, p.len() as int) =~= p);
    lemma_bridge(p, 0, p.len() as int, r, fuel);
    lemma_run_within(r, p, fuel, n);
    lemma_run_reaches(r, p, n);
    match exec(p, st, fuel) {
        Outcome::Done(next) => {
            lemma_run_halts(r, p, n, n);
        },
        Outcome::Fault(e, _) => {
            lemma_run_faults(r, p, n + 1, n + 1);
        },
        Outcome::Timeout(_) => {},
    }
}

} // verus!
