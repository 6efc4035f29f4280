//! The closed forms of the loops that move the value of a cell keep what a
//! program does, where they stay on the tape.

use vstd::prelude::*;

use crate::equivalence::contract::lemma_exec_one;
use crate::equivalence::{follows, lemma_exec_wf, lemma_perform_wf, slack, stems_from};
use crate::eval::EvalError;
use crate::mem::{wrap, Tape};
use crate::nesting::{is_plain, lemma_plain_balanced};
use crate::optimizer::contract::cell_delta;
use crate::optimizer::copy_loop::{
    arith_only, collapse, eligible, factors_fit, is_arith, lemma_touched_distinct,
    lemma_transfers_plain, lemma_untouched, net_change, net_move, touched, transfer, transfers,
    within_reach,
};
use crate::semantics::{
    exec, exec_loop, lemma_exec_concat, lemma_exec_grows, lemma_exec_loop_grows,
    lemma_more_fuel, perform, Outcome, State,
};
use crate::syntax::Ir;

verus! {

/// Running a sequence without brackets and then one more instruction that
/// is no bracket is running the sequence, then performing the instruction.
pub proof fn lemma_exec_snoc(s: Seq<Ir>, x: Ir, st: State, fuel: nat)
    requires
        forall|i: int| 0 <= i < s.len() ==> is_plain(#[trigger] s[i]),
        is_plain(x),
    ensures
        exec(s.push(x), st, fuel) == match exec(s, st, fuel) {
            Outcome::Done(mid) => match perform(x, mid) {
                Some(next) => Outcome::Done(next),
                None => Outcome::Fault(EvalError::OutOfBounds, mid),
            },
            other => other,
        },
{
    lemma_plain_balanced(s);
    assert(s.push(x) =~= s + seq![x]);
    lemma_exec_concat(s, seq![x], st, fuel);
    match exec(s, st, fuel) {
        Outcome::Done(mid) => lemma_exec_one(x, mid, fuel),
        _ => {},
    }
}

/// Whether tape `after` is tape `before` with, for each cell, `times` the
/// net change that `body` makes to it added.
pub open spec fn changed(before: Tape, after: Tape, body: Seq<Ir>, times: int) -> bool {
    &&& after.cells.len() == before.cells.len()
    &&& forall|i: int|
        0 <= i < before.cells.len() ==> (#[trigger] after.cells[i]) == wrap(
            before.cells[i] + times * net_change(body, i - before.ptr),
        )
}

/// Whether every cell that `body` adds to or subtracts from lies on the
/// tape.
pub open spec fn reachable(tape: Tape, body: Seq<Ir>) -> bool {
    forall|j: int|
        0 <= j < touched(body).len() ==> tape.in_bounds(tape.ptr + #[trigger] touched(body)[j])
}

/// A body of `Add`, `Sub` and `Shift` that runs to its end has made its net
/// change to each cell and its net move, and has come only to cells on the
/// tape.
pub proof fn lemma_body_effect(body: Seq<Ir>, st: State, fuel: nat)
    requires
        arith_only(body),
        st.tape.wf(),
        exec(body, st, fuel) is Done,
    ensures
        ({
            let end = exec(body, st, fuel)->Done_0;
            &&& end.input == st.input
            &&& end.output == st.output
            &&& end.tape.wf()
            &&& end.tape.ptr == st.tape.ptr + net_move(body)
            &&& changed(st.tape, end.tape, body, 1)
            &&& reachable(st.tape, body)
        }),
    decreases body.len(),
{
    if body.len() > 0 {
        let init = body.drop_last();
        let x = body.last();
        assert(is_arith(body[body.len() - 1]));
        assert forall|i: int| 0 <= i < init.len() implies is_plain(#[trigger] init[i]) by {
            assert(is_arith(body[i]));
        }
        assert(arith_only(init)) by {
            assert forall|i: int| 0 <= i < init.len() implies is_arith(#[trigger] init[i]) by {
                assert(is_arith(body[i]));
            }
        }
        assert(init.push(x) =~= body);
        lemma_exec_snoc(init, x, st, fuel);
        lemma_body_effect(init, st, fuel);
        let mid = exec(init, st, fuel)->Done_0;
        let end = exec(body, st, fuel)->Done_0;
        lemma_perform_wf(x, mid);
        let here = net_move(init);
        if cell_delta(x) is Some {
            let d = cell_delta(x)->0;
            assert(end.tape == mid.tape.bump(d));
            assert forall|i: int| 0 <= i < st.tape.cells.len() implies (
            #[trigger] end.tape.cells[i]) == wrap(
                st.tape.cells[i] + 1 * net_change(body, i - st.tape.ptr),
            ) by {
                assert(mid.tape.cells[i] == wrap(
                    st.tape.cells[i] + 1 * net_change(init, i - st.tape.ptr),
                ));
            }
            assert forall|j: int| 0 <= j < touched(body).len() implies st.tape.in_bounds(
                st.tape.ptr + #[trigger] touched(body)[j],
            ) by {
                if j < touched(init).len() {
                    assert(touched(body)[j] == touched(init)[j]);
                    assert(st.tape.in_bounds(st.tape.ptr + touched(init)[j]));
                } else {
                    assert(touched(body)[j] == here);
                    assert(mid.tape.in_bounds(mid.tape.ptr));
                }
            }
        } else {
            assert(end.tape.cells == mid.tape.cells);
            assert forall|j: int| 0 <= j < touched(body).len() implies st.tape.in_bounds(
                st.tape.ptr + #[trigger] touched(body)[j],
            ) by {
                assert(touched(body)[j] == touched(init)[j]);
                assert(st.tape.in_bounds(st.tape.ptr + touched(init)[j]));
            }
            assert forall|i: int| 0 <= i < st.tape.cells.len() implies (
            #[trigger] end.tape.cells[i]) == wrap(
                st.tape.cells[i] + 1 * net_change(body, i - st.tape.ptr),
            ) by {
                assert(mid.tape.cells[i] == wrap(
                    st.tape.cells[i] + 1 * net_change(init, i - st.tape.ptr),
                ));
            }
        }
    } else {
        assert forall|i: int| 0 <= i < st.tape.cells.len() implies (
        #[trigger] st.tape.cells[i]) == wrap(
            st.tape.cells[i] + 1 * net_change(body, i - st.tape.ptr),
        ) by {}
    }
}

/// Adding a change to a cell once and then some times more is adding it one
/// time more often.
pub proof fn lemma_wrap_accumulate(cell: int, change: int, times: int)
    ensures
        wrap(wrap(cell + 1 * change) + (times - 1) * change) == wrap(cell + times * change),
{
    assert((times - 1) * change + change == times * change) by (nonlinear_arith);
    let rest = (times - 1) * change;
    assert(wrap(wrap(cell + change) + rest) == wrap(cell + change + rest));
}

/// A loop whose body brings the pointer back and takes one off the control
/// cell each time round ends, if it ends, with the control cell at zero and
/// with each other cell changed by as many times its net change as the
/// control cell held.
pub proof fn lemma_copy_loop_runs(body: Seq<Ir>, st: State, fuel: nat)
    requires
        arith_only(body),
        net_move(body) == 0,
        net_change(body, 0) == -1,
        st.tape.wf(),
        exec_loop(body, st, fuel) is Done,
    ensures
        ({
            let end = exec_loop(body, st, fuel)->Done_0;
            &&& end.input == st.input
            &&& end.output == st.output
            &&& end.tape.ptr == st.tape.ptr
            &&& changed(st.tape, end.tape, body, st.tape.cur() as int)
            &&& st.tape.cur() != 0 ==> reachable(st.tape, body)
        }),
    decreases fuel,
{
    let times = st.tape.cur() as int;
    if st.tape.cur() == 0 {
        assert forall|i: int| 0 <= i < st.tape.cells.len() implies (
        #[trigger] st.tape.cells[i]) == wrap(
            st.tape.cells[i] + times * net_change(body, i - st.tape.ptr),
        ) by {
            assert(0 * net_change(body, i - st.tape.ptr) == 0);
        }
    } else {
        let less = (fuel - 1) as nat;
        lemma_body_effect(body, st, less);
        let mid = exec(body, st, less)->Done_0;
        assert(mid.tape.cells[st.tape.ptr] == wrap(
            st.tape.cells[st.tape.ptr] + 1 * net_change(body, st.tape.ptr - st.tape.ptr),
        ));
        assert(mid.tape.cur() == times - 1);
        lemma_copy_loop_runs(body, mid, less);
        let end = exec_loop(body, mid, less)->Done_0;
        assert forall|i: int| 0 <= i < st.tape.cells.len() implies (
        #[trigger] end.tape.cells[i]) == wrap(
            st.tape.cells[i] + times * net_change(body, i - st.tape.ptr),
        ) by {
            let change = net_change(body, i - st.tape.ptr);
            assert(mid.tape.cells[i] == wrap(st.tape.cells[i] + 1 * change));
            assert(end.tape.cells[i] == wrap(mid.tape.cells[i] + (times - 1) * change));
            lemma_wrap_accumulate(st.tape.cells[i] as int, change, times);
        }
    }
}

/// Every cell that a body within reach adds to or subtracts from lies
/// within the distance that one instruction can express.
pub proof fn lemma_touched_within(body: Seq<Ir>)
    requires
        within_reach(body),
    ensures
        forall|j: int|
            0 <= j < touched(body).len() ==> -(usize::MAX as int) <= #[trigger] touched(body)[j]
                <= usize::MAX,
    decreases body.len(),
{
    if body.len() > 0 {
        let init = body.drop_last();
        assert forall|i: int| 0 <= i <= init.len() implies -(usize::MAX as int)
            <= #[trigger] net_move(init.take(i)) <= usize::MAX by {
            assert(init.take(i) =~= body.take(i));
            assert(-(usize::MAX as int) <= net_move(body.take(i)) <= usize::MAX);
        }
        lemma_touched_within(init);
        assert(init.take(init.len() as int) =~= init);
        assert forall|j: int| 0 <= j < touched(body).len() implies -(usize::MAX as int)
            <= #[trigger] touched(body)[j] <= usize::MAX by {
            if j < touched(init).len() {
                assert(touched(body)[j] == touched(init)[j]);
            } else {
                assert(touched(body)[j] == net_move(init.take(init.len() as int)));
            }
        }
    }
}

/// Whether tape `after` is tape `before` with, for each cell at one of
/// `offsets` but the control cell, the control cell times the net change
/// that `body` makes to it added.
pub open spec fn spread(before: Tape, after: Tape, body: Seq<Ir>, offsets: Seq<int>) -> bool {
    &&& after.ptr == before.ptr
    &&& after.cells.len() == before.cells.len()
    &&& forall|i: int|
        0 <= i < before.cells.len() ==> (#[trigger] after.cells[i]) == if i != before.ptr
            && offsets.contains(i - before.ptr) {
            wrap(before.cells[i] + before.cur() * net_change(body, i - before.ptr))
        } else {
            before.cells[i]
        }
}

/// The instruction that stands for a transfer adds the control cell times
/// the change to the cell at the offset, if that cell lies on the tape.
pub proof fn lemma_transfer_performed(at: int, change: int, st: State)
    requires
        transfer(at, change) is Some,
        -(usize::MAX as int) <= at <= usize::MAX,
        -128 <= change <= 127,
    ensures
        at != 0,
        is_plain(transfer(at, change)->0),
        perform(transfer(at, change)->0, st) == if st.tape.in_bounds(st.tape.ptr + at) {
            Some(
                State {
                    tape: st.tape.store(
                        st.tape.ptr + at,
                        wrap(st.tape.cells[st.tape.ptr + at] + st.tape.cur() * change),
                    ),
                    input: st.input,
                    output: st.output,
                },
            )
        } else {
            None
        },
{
}

/// The transfers of a body add, to each cell that they are for, the control
/// cell times the net change of that cell, or are given up at a cell that
/// lies off the tape.
pub proof fn lemma_transfers_effect(body: Seq<Ir>, offsets: Seq<int>, st: State, fuel: nat)
    requires
        st.tape.wf(),
        offsets.no_duplicates(),
        factors_fit(body),
        forall|j: int|
            0 <= j < offsets.len() ==> -(usize::MAX as int) <= #[trigger] offsets[j] <= usize::MAX,
    ensures
        match exec(transfers(body, offsets), st, fuel) {
            Outcome::Done(end) => end.input == st.input && end.output == st.output && spread(
                st.tape,
                end.tape,
                body,
                offsets,
            ),
            Outcome::Fault(e, _) => e == EvalError::OutOfBounds,
            Outcome::Timeout(_) => false,
        },
    decreases offsets.len(),
{
    if offsets.len() == 0 {
        assert(transfers(body, offsets) =~= Seq::<Ir>::empty());
    } else {
        let init = offsets.drop_last();
        let at = offsets.last();
        let change = net_change(body, at);
        let before = transfers(body, init);
        lemma_transfers_effect(body, init, st, fuel);
        lemma_transfers_plain(body, init);
        assert(!init.contains(at)) by {
            if init.contains(at) {
                let j = choose|j: int| 0 <= j < init.len() && init[j] == at;
                assert(offsets[j] == offsets[offsets.len() - 1]);
            }
        }
        assert forall|x: int| offsets.contains(x) <==> init.contains(x) || x == at by {
            if offsets.contains(x) {
                let j = choose|j: int| 0 <= j < offsets.len() && offsets[j] == x;
                if j < init.len() {
                    assert(init[j] == x);
                }
            }
            if init.contains(x) {
                let j = choose|j: int| 0 <= j < init.len() && init[j] == x;
                assert(offsets[j] == x);
            }
            assert(offsets[offsets.len() - 1] == at);
        }
        match exec(before, st, fuel) {
            Outcome::Done(mid) => {
                lemma_exec_wf(before, st, fuel);
                match transfer(at, change) {
                    Some(ir) => {
                        assert(at != 0);
                        lemma_transfer_performed(at, change, mid);
                        lemma_exec_snoc(before, ir, st, fuel);
                        if mid.tape.in_bounds(mid.tape.ptr + at) {
                            let end = perform(ir, mid)->0;
                            assert(mid.tape.cells[mid.tape.ptr] == st.tape.cells[st.tape.ptr]);
                            assert(mid.tape.cells[st.tape.ptr + at] == st.tape.cells[st.tape.ptr
                                + at]);
                            assert forall|i: int| 0 <= i < st.tape.cells.len() implies (
                            #[trigger] end.tape.cells[i]) == if i != st.tape.ptr
                                && offsets.contains(i - st.tape.ptr) {
                                wrap(
                                    st.tape.cells[i] + st.tape.cur() * net_change(
                                        body,
                                        i - st.tape.ptr,
                                    ),
                                )
                            } else {
                                st.tape.cells[i]
                            } by {
                                assert(mid.tape.cells[i] == if i != st.tape.ptr && init.contains(
                                    i - st.tape.ptr,
                                ) {
                                    wrap(
                                        st.tape.cells[i] + st.tape.cur() * net_change(
                                            body,
                                            i - st.tape.ptr,
                                        ),
                                    )
                                } else {
                                    st.tape.cells[i]
                                });
                            }
                        }
                    },
                    None => {
                        assert forall|i: int| 0 <= i < st.tape.cells.len() implies (
                        #[trigger] mid.tape.cells[i]) == if i != st.tape.ptr
                            && offsets.contains(i - st.tape.ptr) {
                            wrap(
                                st.tape.cells[i] + st.tape.cur() * net_change(
                                    body,
                                    i - st.tape.ptr,
                                ),
                            )
                        } else {
                            st.tape.cells[i]
                        } by {
                            if i - st.tape.ptr == at && at != 0 {
                                assert(st.tape.cur() * change == 0) by (nonlinear_arith)
                                    requires
                                        change == 0,
                                ;
                            }
                        }
                    },
                }
            },
            _ => {
                match transfer(at, change) {
                    Some(ir) => {
                        lemma_transfer_performed(at, change, st);
                        lemma_exec_snoc(before, ir, st, fuel);
                    },
                    None => {},
                }
            },
        }
    }
}

/// A body of `Add`, `Sub` and `Shift` writes nothing, and its execution
/// needs no fuel.
pub proof fn lemma_arith_silent(body: Seq<Ir>, st: State, fuel: nat)
    requires
        arith_only(body),
    ensures
        exec(body, st, fuel).written() == st.output,
        !(exec(body, st, fuel) is Timeout),
    decreases body.len(),
{
    if body.len() > 0 {
        assert(is_arith(body[0]));
        let rest = body.skip(1);
        assert forall|i: int| 0 <= i < rest.len() implies is_arith(#[trigger] rest[i]) by {
            assert(is_arith(body[i + 1]));
        }
        match perform(body[0], st) {
            Some(next) => lemma_arith_silent(rest, next, fuel),
            None => {},
        }
    }
}

/// A loop with a body of `Add`, `Sub` and `Shift` writes nothing.
pub proof fn lemma_arith_loop_silent(body: Seq<Ir>, st: State, fuel: nat)
    requires
        arith_only(body),
    ensures
        exec_loop(body, st, fuel).written() == st.output,
    decreases fuel,
{
    if st.tape.cur() != 0 && fuel > 0 {
        let less = (fuel - 1) as nat;
        lemma_arith_silent(body, st, less);
        match exec(body, st, less) {
            Outcome::Done(next) => lemma_arith_loop_silent(body, next, less),
            _ => {},
        }
    }
}

/// Whether an execution was given up at a cell that lies off the tape.
pub open spec fn off_tape(y: Outcome) -> bool {
    y matches Outcome::Fault(e, _) && e == EvalError::OutOfBounds
}

/// Whether outcome `y` goes as far as outcome `x`, unless it was given up at
/// a cell that lies off the tape.
pub open spec fn follows_on_tape(x: Outcome, y: Outcome) -> bool {
    off_tape(y) || follows(x, y)
}

/// The closed form of a loop does what the loop does, unless it is given up
/// at a cell that lies off the tape.
pub proof fn lemma_collapse_runs(body: Seq<Ir>, st: State, fuel: nat)
    requires
        eligible(body),
        st.tape.wf(),
    ensures
        follows_on_tape(exec_loop(body, st, fuel), exec(collapse(body)->0, st, fuel)),
{
    let offsets = touched(body);
    let moves = transfers(body, offsets);
    let x = exec_loop(body, st, fuel);
    lemma_touched_distinct(body);
    lemma_touched_within(body);
    lemma_transfers_effect(body, offsets, st, fuel);
    lemma_transfers_plain(body, offsets);
    lemma_exec_snoc(moves, Ir::Clear, st, fuel);
    lemma_arith_loop_silent(body, st, fuel);
    lemma_exec_grows(collapse(body)->0, st, fuel);
    if x is Done {
        let want = x->Done_0;
        lemma_copy_loop_runs(body, st, fuel);
        match exec(moves, st, fuel) {
            Outcome::Done(mid) => {
                let end = perform(Ir::Clear, mid)->0;
                assert(end.tape.cells =~= want.tape.cells) by {
                    assert forall|i: int| 0 <= i < st.tape.cells.len() implies end.tape.cells[i]
                        == want.tape.cells[i] by {
                        let at = i - st.tape.ptr;
                        assert(want.tape.cells[i] == wrap(
                            st.tape.cells[i] + st.tape.cur() * net_change(body, at),
                        ));
                        if i == st.tape.ptr {
                            assert(st.tape.cur() * (-1) == -st.tape.cur()) by (nonlinear_arith);
                        } else {
                            assert(end.tape.cells[i] == mid.tape.cells[i]);
                            if !offsets.contains(at) {
                                lemma_untouched(body, at);
                                assert(st.tape.cur() * net_change(body, at) == 0)
                                    by (nonlinear_arith)
                                    requires
                                        net_change(body, at) == 0,
                                ;
                            }
                        }
                    }
                }
            },
            _ => {},
        }
    }
}

/// A loop whose body brings the pointer back and takes one off the control
/// cell each time round ends or is given up, given fuel for each time
/// round.
pub proof fn lemma_copy_loop_ends(body: Seq<Ir>, st: State, fuel: nat)
    requires
        arith_only(body),
        net_move(body) == 0,
        net_change(body, 0) == -1,
        st.tape.wf(),
        fuel >= st.tape.cur(),
    ensures
        !(exec_loop(body, st, fuel) is Timeout),
    decreases st.tape.cur(),
{
    if st.tape.cur() != 0 {
        let less = (fuel - 1) as nat;
        lemma_arith_silent(body, st, less);
        match exec(body, st, less) {
            Outcome::Done(mid) => {
                lemma_body_effect(body, st, less);
                assert(mid.tape.cells[st.tape.ptr] == wrap(
                    st.tape.cells[st.tape.ptr] + 1 * net_change(body, st.tape.ptr - st.tape.ptr),
                ));
                lemma_copy_loop_ends(body, mid, less);
            },
            _ => {},
        }
    }
}

/// The closed form of a loop writes nothing, and its execution needs no
/// fuel.
pub proof fn lemma_form_silent(body: Seq<Ir>, st: State, fuel: nat, other: nat)
    requires
        eligible(body),
        st.tape.wf(),
    ensures
        exec(collapse(body)->0, st, fuel).written() == st.output,
        exec(collapse(body)->0, st, fuel) == exec(collapse(body)->0, st, other),
        !(exec(collapse(body)->0, st, fuel) is Timeout),
{
    let offsets = touched(body);
    let moves = transfers(body, offsets);
    lemma_touched_distinct(body);
    lemma_touched_within(body);
    lemma_transfers_plain(body, offsets);
    lemma_transfers_effect(body, offsets, st, fuel);
    lemma_transfers_effect(body, offsets, st, other);
    lemma_transfers_silent(body, offsets, st, fuel);
    lemma_transfers_silent(body, offsets, st, other);
    lemma_exec_snoc(moves, Ir::Clear, st, fuel);
    lemma_exec_snoc(moves, Ir::Clear, st, other);
    if fuel <= other {
        lemma_more_fuel(moves, st, fuel, other);
    } else {
        lemma_more_fuel(moves, st, other, fuel);
    }
}

/// The transfers of a loop body write nothing.
pub proof fn lemma_transfers_silent(body: Seq<Ir>, offsets: Seq<int>, st: State, fuel: nat)
    ensures
        exec(transfers(body, offsets), st, fuel).written() == st.output,
    decreases offsets.len(),
{
    if offsets.len() == 0 {
        assert(transfers(body, offsets) =~= Seq::<Ir>::empty());
    } else {
        let before = transfers(body, offsets.drop_last());
        lemma_transfers_silent(body, offsets.drop_last(), st, fuel);
        lemma_transfers_plain(body, offsets.drop_last());
        match transfer(offsets.last(), net_change(body, offsets.last())) {
            Some(ir) => lemma_exec_snoc(before, ir, st, fuel),
            None => {},
        }
    }
}

/// Whether outcome `y` stems from outcome `x`, unless it was given up at a
/// cell that lies off the tape.
pub open spec fn stems_on_tape(y: Outcome, x: Outcome) -> bool {
    off_tape(y) || stems_from(y, x)
}

/// A loop does all that its closed form does, unless that is given up at a
/// cell that lies off the tape.
pub proof fn lemma_collapse_back(body: Seq<Ir>, st: State, fuel: nat)
    requires
        eligible(body),
        st.tape.wf(),
    ensures
        stems_on_tape(
            exec(collapse(body)->0, st, fuel),
            exec_loop(body, st, fuel + slack()),
        ),
{
    let more = fuel + slack();
    lemma_form_silent(body, st, fuel, more);
    lemma_copy_loop_ends(body, st, more);
    lemma_collapse_runs(body, st, more);
    lemma_exec_loop_grows(body, st, more);
}

} // verus!
