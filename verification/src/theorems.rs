//! What holds of the optimizer and the evaluator together: an optimized
//! program is well nested, and writes what the program wrote that it was
//! made of.

use vstd::prelude::*;

use crate::equivalence::bridge::{
    cost, lemma_halting_run_is_done, lemma_run_and_exec, start_state, state_of,
};
use crate::equivalence::collapse::{lemma_collapse_loops_back, lemma_collapse_loops_runs};
use crate::equivalence::contract::{lemma_contract_back, lemma_contract_refines};
use crate::equivalence::copy_loop::{follows_on_tape, off_tape, stems_on_tape};
use crate::equivalence::dead_loop::{lemma_elide_same, lemma_strip_leading};
use crate::equivalence::patterns::{
    lemma_clear_loops_back, lemma_clear_loops_refines, lemma_scan_loops_back,
    lemma_scan_loops_refines,
};
use crate::equivalence::{
    follows, lemma_follows_chain, lemma_follows_same, lemma_stems_chain, slack, stems_from,
};
use crate::eval::{EvalError, Run, Status};
use crate::optimizer::contract::lemma_contract_balanced;
use crate::optimizer::copy_loop::lemma_collapse_loops_balanced;
use crate::optimizer::dead_loop::{
    behind_loop, lemma_elide_balanced, lemma_strip_leading_balanced, starts_with_loop,
    strip_leading,
};
use crate::optimizer::patterns::{lemma_clear_loops_balanced, lemma_scan_loops_balanced};
use crate::optimizer::{
    clear_loops_if, contract_if, optimized, scan_loops_if, without_dead_loops, OptConfig,
};
use crate::semantics::{exec, lemma_more_fuel, lemma_prefix_chain, State};
use crate::syntax::{balanced, Ir};

verus! {

/// What the optimizer makes of `s` before the last of its passes.
pub open spec fn before_collapse(config: OptConfig, s: Seq<Ir>) -> Seq<Ir> {
    scan_loops_if(
        config.scan_loop,
        clear_loops_if(config.clear_loop, contract_if(config.contraction, without_dead_loops(s))),
    )
}

/// Whatever passes are switched on, the optimizer makes a well-nested
/// program of a well-nested program.
pub proof fn lemma_optimized_balanced(config: OptConfig, s: Seq<Ir>)
    requires
        balanced(s),
    ensures
        balanced(optimized(config, s)),
{
    lemma_before_collapse_balanced(config, s);
    if config.copy_mul_loop {
        lemma_collapse_loops_balanced(before_collapse(config, s));
    }
}

/// The passes before the last make a well-nested program of a well-nested
/// program.
pub proof fn lemma_before_collapse_balanced(config: OptConfig, s: Seq<Ir>)
    requires
        balanced(s),
    ensures
        balanced(before_collapse(config, s)),
{
    lemma_strip_leading_balanced(s);
    let s1 = without_dead_loops(s);
    lemma_elide_balanced(strip_leading(s));
    let s2 = contract_if(config.contraction, s1);
    if config.contraction {
        lemma_contract_balanced(s1);
    }
    let s3 = clear_loops_if(config.clear_loop, s2);
    if config.clear_loop {
        lemma_clear_loops_balanced(s2);
    }
    if config.scan_loop {
        lemma_scan_loops_balanced(s3);
    }
}

/// A program that starts with a loop is optimized to what the program
/// without that loop is optimized to, whatever the body of the loop.
pub proof fn lemma_leading_loop_removed(config: OptConfig, s: Seq<Ir>)
    requires
        starts_with_loop(s),
    ensures
        optimized(config, s) == optimized(config, behind_loop(s)),
{
}

/// From a state with the current cell at zero, as at the start of a run,
/// the passes before the last keep what a program does: what they make of it
/// goes as far as the program, with the same fuel.
pub proof fn lemma_before_collapse_runs(config: OptConfig, s: Seq<Ir>, st: State, fuel: nat)
    requires
        st.tape.wf(),
        st.tape.cur() == 0,
    ensures
        follows(exec(s, st, fuel), exec(before_collapse(config, s), st, fuel)),
{
    let s0 = strip_leading(s);
    lemma_strip_leading(s, st, fuel);
    let s1 = without_dead_loops(s);
    lemma_elide_same(s0, st, fuel);
    let x1 = exec(s1, st, fuel);
    lemma_follows_same(x1);
    let s2 = contract_if(config.contraction, s1);
    let x2 = exec(s2, st, fuel);
    if config.contraction {
        lemma_contract_refines(s1);
    }
    assert(follows(x1, x2));
    let s3 = clear_loops_if(config.clear_loop, s2);
    let x3 = exec(s3, st, fuel);
    lemma_follows_same(x2);
    if config.clear_loop {
        lemma_clear_loops_refines(s2);
    }
    assert(follows(x2, x3));
    let s4 = scan_loops_if(config.scan_loop, s3);
    let x4 = exec(s4, st, fuel);
    lemma_follows_same(x3);
    if config.scan_loop {
        lemma_scan_loops_refines(s3);
    }
    assert(follows(x3, x4));
    lemma_follows_chain(x1, x2, x3);
    lemma_follows_chain(x1, x3, x4);
}

/// From a state with the current cell at zero, as at the start of a run,
/// the optimizer keeps what a well-nested program does: the optimized
/// program goes as far as the program, with the same fuel, unless a `Copy`
/// or a `Mul` comes to a cell that lies off the tape.
pub proof fn lemma_optimized_runs(config: OptConfig, s: Seq<Ir>, st: State, fuel: nat)
    requires
        balanced(s),
        st.tape.wf(),
        st.tape.cur() == 0,
    ensures
        follows_on_tape(exec(s, st, fuel), exec(optimized(config, s), st, fuel)),
        !config.copy_mul_loop ==> follows(exec(s, st, fuel), exec(optimized(config, s), st, fuel)),
{
    lemma_before_collapse_runs(config, s, st, fuel);
    if config.copy_mul_loop {
        let mid = before_collapse(config, s);
        lemma_before_collapse_balanced(config, s);
        lemma_collapse_loops_runs(mid, st, fuel);
        if !off_tape(exec(optimized(config, s), st, fuel)) {
            lemma_follows_chain(
                exec(s, st, fuel),
                exec(mid, st, fuel),
                exec(optimized(config, s), st, fuel),
            );
        }
    }
}

/// The fuel that a program may need beyond the fuel of the program that
/// the optimizer makes of it: the slack for each instruction that a pass
/// comes to.
pub open spec fn room(config: OptConfig, s: Seq<Ir>) -> nat {
    let s1 = without_dead_loops(s);
    let s2 = contract_if(config.contraction, s1);
    let s3 = clear_loops_if(config.clear_loop, s2);
    slack() + s3.len() * slack() + s2.len() * slack() + s1.len() * slack()
}

/// From a state with the current cell at zero, as at the start of a run, a
/// well-nested program does all that the optimized program does, given
/// room: the outcome of the optimized program stems from that of the
/// program, unless a `Copy` or a `Mul` comes to a cell that lies off the
/// tape.
pub proof fn lemma_optimized_back(config: OptConfig, s: Seq<Ir>, st: State, fuel: nat)
    requires
        balanced(s),
        st.tape.wf(),
        st.tape.cur() == 0,
    ensures
        stems_on_tape(
            exec(optimized(config, s), st, fuel),
            exec(s, st, fuel + room(config, s)),
        ),
        !config.copy_mul_loop ==> stems_from(
            exec(optimized(config, s), st, fuel),
            exec(s, st, fuel + room(config, s)),
        ),
{
    let s0 = strip_leading(s);
    let s1 = without_dead_loops(s);
    let s2 = contract_if(config.contraction, s1);
    let s3 = clear_loops_if(config.clear_loop, s2);
    let s4 = scan_loops_if(config.scan_loop, s3);
    let s5 = optimized(config, s);
    let f4 = fuel + slack();
    let f3 = f4 + s3.len() * slack();
    let f2 = f3 + s2.len() * slack();
    let f1 = f2 + s1.len() * slack();
    lemma_before_collapse_balanced(config, s);
    if config.copy_mul_loop {
        lemma_collapse_loops_back(s4, st, fuel);
    } else {
        lemma_more_fuel(s4, st, fuel, f4);
    }
    assert(stems_on_tape(exec(s5, st, fuel), exec(s4, st, f4)));
    if config.scan_loop {
        lemma_scan_loops_back(s3, st, f4);
    } else {
        lemma_more_fuel(s3, st, f4, f3);
    }
    assert(stems_from(exec(s4, st, f4), exec(s3, st, f3)));
    if config.clear_loop {
        lemma_clear_loops_back(s2, st, f3);
    } else {
        lemma_more_fuel(s2, st, f3, f2);
    }
    assert(stems_from(exec(s3, st, f3), exec(s2, st, f2)));
    if config.contraction {
        lemma_contract_back(s1, st, f2);
    } else {
        lemma_more_fuel(s1, st, f2, f1);
    }
    assert(stems_from(exec(s2, st, f2), exec(s1, st, f1)));
    lemma_elide_same(s0, st, f1);
    lemma_strip_leading(s, st, f1);
    lemma_stems_chain(exec(s4, st, f4), exec(s3, st, f3), exec(s2, st, f2));
    lemma_stems_chain(exec(s4, st, f4), exec(s2, st, f2), exec(s, st, f1));
    if !off_tape(exec(s5, st, fuel)) || !config.copy_mul_loop {
        lemma_stems_chain(exec(s5, st, fuel), exec(s4, st, f4), exec(s, st, f1));
    }
}

/// Whether some run of program `p` on `input` is given up at a cell that
/// lies off the tape.
pub open spec fn leaves_tape(p: Seq<Ir>, input: Seq<u8>) -> bool {
    exists|fuel: nat|
        (#[trigger] Run::start(input).run(p, fuel)).0 == Status::Fault(EvalError::OutOfBounds)
}

/// Whether some run of program `p` on `input` is given up.
pub open spec fn given_up(p: Seq<Ir>, input: Seq<u8>) -> bool {
    exists|fuel: nat| (#[trigger] Run::start(input).run(p, fuel)).0 is Fault
}

/// Whether the run of program `q` on `input` with fuel `enough` has caught
/// up with the run of program `p` on `input` with fuel `fuel`: it has
/// written what that run has written, and maybe more; and where that run has
/// halted, it has halted too, with the same output, the same input left and
/// the same tape.
pub open spec fn catches_up(
    p: Seq<Ir>,
    q: Seq<Ir>,
    input: Seq<u8>,
    fuel: nat,
    enough: nat,
) -> bool {
    let one = Run::start(input).run(p, fuel);
    let other = Run::start(input).run(q, enough);
    &&& one.1.output.is_prefix_of(other.1.output)
    &&& one.0 == Status::Halted ==> other.0 == Status::Halted && state_of(other.1) == state_of(
        one.1,
    )
}

/// For every choice of passes, every well-nested program and every input:
/// whatever the program writes, the optimized program writes too, byte for
/// byte. Given enough fuel, its run catches up with the run of the program
/// at every point of it. Left out are the inputs on which a run of the
/// optimized program is given up because a `Copy` or a `Mul` comes to a
/// cell that lies off the tape.
pub proof fn lemma_optimized_catches_up(
    config: OptConfig,
    s: Seq<Ir>,
    input: Seq<u8>,
    fuel: nat,
)
    requires
        balanced(s),
        config.copy_mul_loop ==> !leaves_tape(optimized(config, s), input),
    ensures
        exists|enough: nat| catches_up(s, optimized(config, s), input, fuel, enough),
{
    let st = start_state(input);
    let opt = optimized(config, s);
    let x = exec(s, st, fuel);
    let y = exec(opt, st, fuel);
    let enough = cost(opt, st, fuel);
    assert(st.tape.cells[0] == 0);
    lemma_optimized_runs(config, s, st, fuel);
    lemma_optimized_balanced(config, s);
    lemma_run_and_exec(s, input, fuel);
    lemma_run_and_exec(opt, input, fuel);
    if off_tape(y) && config.copy_mul_loop {
        assert(Run::start(input).run(opt, enough + 1).0 == Status::Fault(EvalError::OutOfBounds));
    }
    assert(follows(x, y));
    lemma_prefix_chain(Run::start(input).run(s, fuel).1.output, x.written(), y.written());
    if Run::start(input).run(s, fuel).0 == Status::Halted {
        lemma_halting_run_is_done(s, input, fuel);
    }
    assert(catches_up(s, opt, input, fuel, enough));
}

/// For every choice of passes, every well-nested program and every input:
/// whatever the optimized program writes, the program writes too, byte for
/// byte. Given enough fuel, its run catches up with the run of the
/// optimized program at every point of it. Left out are the inputs on which
/// a run of the program is given up, and those on which a run of the
/// optimized program is given up because a `Copy` or a `Mul` comes to a
/// cell that lies off the tape.
pub proof fn lemma_program_catches_up(config: OptConfig, s: Seq<Ir>, input: Seq<u8>, fuel: nat)
    requires
        balanced(s),
        !given_up(s, input),
        config.copy_mul_loop ==> !leaves_tape(optimized(config, s), input),
    ensures
        exists|enough: nat| catches_up(optimized(config, s), s, input, fuel, enough),
{
    let st = start_state(input);
    let opt = optimized(config, s);
    let more = fuel + room(config, s);
    let x = exec(s, st, more);
    let y = exec(opt, st, fuel);
    let enough = cost(s, st, more);
    assert(st.tape.cells[0] == 0);
    lemma_optimized_back(config, s, st, fuel);
    lemma_optimized_balanced(config, s);
    lemma_run_and_exec(s, input, more);
    lemma_run_and_exec(opt, input, fuel);
    if off_tape(y) && config.copy_mul_loop {
        let n = cost(opt, st, fuel);
        assert(Run::start(input).run(opt, n + 1).0 == Status::Fault(EvalError::OutOfBounds));
    }
    if x is Fault {
        assert(Run::start(input).run(s, enough + 1).0 is Fault);
    }
    assert(stems_from(y, x));
    lemma_prefix_chain(Run::start(input).run(opt, fuel).1.output, y.written(), x.written());
    if Run::start(input).run(opt, fuel).0 == Status::Halted {
        lemma_halting_run_is_done(opt, input, fuel);
    }
    assert(catches_up(opt, s, input, fuel, enough));
}

} // verus!
