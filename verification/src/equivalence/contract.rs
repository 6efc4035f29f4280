//! Contraction keeps what a program does.

use vstd::prelude::*;

use crate::equivalence::{
    backed, follows, lemma_follows_chain, lemma_follows_same, lemma_replace, lemma_replace_back,
    lemma_stems_chain, lemma_stems_more_fuel, refines, slack, stems_from,
};
use crate::eval::EvalError;
use crate::optimizer::contract::{
    cell_delta, cell_op, contract, fuse, fused, move_delta, push_fused,
};
use crate::mem::{wrap, Tape};
use crate::semantics::{exec, lemma_exec_grows, lemma_more_fuel, perform, Outcome, State};
use crate::nesting::{is_plain, lemma_plain_balanced};
use crate::syntax::{balanced, Ir};

verus! {

/// Running one instruction that is no bracket is performing it.
pub proof fn lemma_exec_one(ir: Ir, st: State, fuel: nat)
    requires
        is_plain(ir),
    ensures
        exec(seq![ir], st, fuel) == match perform(ir, st) {
            Some(next) => Outcome::Done(next),
            None => Outcome::Fault(EvalError::OutOfBounds, st),
        },
{
    let p = seq![ir];
    assert(p[0] == ir);
    assert(p.skip(1) =~= Seq::<Ir>::empty());
    match perform(ir, st) {
        Some(next) => {
            assert(exec(p.skip(1), next, fuel) == Outcome::Done(next));
        },
        None => {},
    }
}

/// Running two instructions that are no brackets is performing one, then
/// the other.
pub proof fn lemma_exec_two(x: Ir, y: Ir, st: State, fuel: nat)
    requires
        is_plain(x),
        is_plain(y),
    ensures
        exec(seq![x, y], st, fuel) == match perform(x, st) {
            Some(next) => match perform(y, next) {
                Some(last) => Outcome::Done(last),
                None => Outcome::Fault(EvalError::OutOfBounds, next),
            },
            None => Outcome::Fault(EvalError::OutOfBounds, st),
        },
{
    let p = seq![x, y];
    assert(p[0] == x);
    assert(p.skip(1) =~= seq![y]);
    match perform(x, st) {
        Some(next) => {
            lemma_exec_one(y, next, fuel);
        },
        None => {},
    }
}

/// Adding to a cell twice is adding the sum once.
pub proof fn lemma_bump_twice(tape: Tape, first: int, second: int)
    requires
        tape.wf(),
    ensures
        tape.bump(first).bump(second) == tape.bump(first + second),
{
    let once = tape.bump(first);
    assert(once.cur() == wrap(tape.cur() + first));
    assert(wrap(once.cur() + second) == wrap(tape.cur() + (first + second)));
    assert(once.bump(second).cells =~= tape.bump(first + second).cells);
}

/// What is added to a cell counts modulo 256 only.
pub proof fn lemma_bump_modulo(tape: Tape, delta: int, other: int)
    requires
        tape.wf(),
        delta % 256 == other % 256,
    ensures
        tape.bump(delta) == tape.bump(other),
{
    assert(wrap(tape.cur() + delta) == wrap(tape.cur() + other));
}

/// Adding a multiple of 256 to a cell changes nothing.
pub proof fn lemma_bump_nothing(tape: Tape, delta: int)
    requires
        tape.wf(),
        delta % 256 == 0,
    ensures
        tape.bump(delta) == tape,
{
    assert(wrap(tape.cur() + delta) == tape.cur());
    assert(tape.bump(delta).cells =~= tape.cells);
}

/// An `Add` or a `Sub` adds its delta to the current cell.
pub proof fn lemma_perform_cell(x: Ir, st: State)
    requires
        cell_delta(x) is Some,
    ensures
        perform(x, st) == Some(
            State { tape: st.tape.bump(cell_delta(x)->0), input: st.input, output: st.output },
        ),
{
}

/// The instruction that stands for a sum of deltas has that sum as its
/// delta, modulo 256.
pub proof fn lemma_cell_op_delta(sum: int)
    requires
        -510 <= sum <= 510,
    ensures
        match cell_op(sum) {
            Some(joint) => cell_delta(joint) is Some && cell_delta(joint)->0 % 256 == sum % 256,
            None => sum % 256 == 0,
        },
{
    if sum % 256 != 0 {
        if sum > 0 {
            assert(0 < sum % 256 < 256);
        } else {
            let m = (-sum) % 256;
            assert(0 < m < 256);
            assert((-m) % 256 == sum % 256);
        }
    }
}

/// What two adjacent cell updates contract to does what the two do.
proof fn lemma_fuse_cells(x: Ir, y: Ir, st: State)
    requires
        st.tape.wf(),
        cell_delta(x) is Some,
        cell_delta(y) is Some,
    ensures
        perform(x, st) is Some,
        perform(y, perform(x, st)->0) is Some,
        match fuse(x, y)->0 {
            Some(joint) => perform(joint, st) == perform(y, perform(x, st)->0),
            None => Some(st) == perform(y, perform(x, st)->0),
        },
{
    let dx = cell_delta(x)->0;
    let dy = cell_delta(y)->0;
    let sum = dx + dy;
    lemma_perform_cell(x, st);
    let mid = perform(x, st)->0;
    lemma_perform_cell(y, mid);
    lemma_bump_twice(st.tape, dx, dy);
    lemma_cell_op_delta(sum);
    assert(fuse(x, y) == Some(cell_op(sum)));
    match cell_op(sum) {
        Some(joint) => {
            lemma_perform_cell(joint, st);
            lemma_bump_modulo(st.tape, cell_delta(joint)->0, sum);
        },
        None => {
            lemma_bump_nothing(st.tape, sum);
        },
    }
}

/// What two adjacent moves contract to does what the two do, where the two
/// stay on the tape.
proof fn lemma_fuse_moves(x: Ir, y: Ir, st: State)
    requires
        st.tape.wf(),
        move_delta(x) is Some,
        move_delta(y) is Some,
        perform(x, st) is Some,
        perform(y, perform(x, st)->0) is Some,
    ensures
        match fuse(x, y)->0 {
            Some(joint) => perform(joint, st) == perform(y, perform(x, st)->0),
            None => Some(st) == perform(y, perform(x, st)->0),
        },
{
    let dx = move_delta(x)->0;
    let dy = move_delta(y)->0;
    let mid = perform(x, st)->0;
    let end = perform(y, mid)->0;
    assert(mid.tape == st.tape.at(st.tape.ptr + dx));
    assert(end.tape == st.tape.at(st.tape.ptr + dx + dy));
    match fuse(x, y)->0 {
        Some(joint) => {
            assert(move_delta(joint)->0 == dx + dy);
        },
        None => {},
    }
}

/// What two adjacent instructions contract to does what the two do.
pub proof fn lemma_fuse_refines(x: Ir, y: Ir)
    requires
        fuse(x, y) is Some,
    ensures
        refines(seq![x, y], fused(x, y)),
        balanced(seq![x, y]),
        balanced(fused(x, y)),
{
    let a = seq![x, y];
    let b = fused(x, y);
    lemma_plain_balanced(a);
    lemma_plain_balanced(b);
    assert forall|st: State, fuel: nat| st.tape.wf() implies follows(
        #[trigger] exec(a, st, fuel),
        exec(b, st, fuel),
    ) by {
        lemma_exec_two(x, y, st, fuel);
        lemma_exec_grows(b, st, fuel);
        assert(exec(a, st, fuel).written() == st.output);
        if cell_delta(x) is Some {
            lemma_fuse_cells(x, y, st);
        } else if exec(a, st, fuel) is Done {
            lemma_fuse_moves(x, y, st);
        }
        match fuse(x, y)->0 {
            Some(joint) => {
                lemma_exec_one(joint, st, fuel);
            },
            None => {
                assert(b =~= Seq::<Ir>::empty());
            },
        }
    }
}

/// Contraction of what stands before any sequence keeps what the whole does.
pub proof fn lemma_contract_before(s: Seq<Ir>, post: Seq<Ir>, st: State, fuel: nat)
    requires
        st.tape.wf(),
    ensures
        follows(exec(s + post, st, fuel), exec(contract(s) + post, st, fuel)),
    decreases s.len(),
{
    lemma_follows_same(exec(s + post, st, fuel));
    if s.len() > 0 {
        let x = s.last();
        let rest = seq![x] + post;
        assert(s + post =~= s.drop_last() + rest);
        lemma_contract_before(s.drop_last(), rest, st, fuel);
        let c = contract(s.drop_last());
        if c.len() > 0 && fuse(c.last(), x) is Some {
            lemma_fuse_refines(c.last(), x);
            assert(c + rest =~= c.drop_last() + seq![c.last(), x] + post);
            lemma_replace(c.drop_last(), seq![c.last(), x], fused(c.last(), x), post, st, fuel);
            assert(push_fused(c, x) =~= c.drop_last() + fused(c.last(), x));
            lemma_follows_chain(
                exec(s + post, st, fuel),
                exec(c + rest, st, fuel),
                exec(contract(s) + post, st, fuel),
            );
        } else {
            assert(push_fused(c, x) + post =~= c + rest);
        }
    } else {
        assert(contract(s) =~= s);
    }
}

/// Contraction keeps what a program does.
pub proof fn lemma_contract_refines(s: Seq<Ir>)
    ensures
        refines(s, contract(s)),
{
    assert forall|st: State, fuel: nat| st.tape.wf() implies follows(
        #[trigger] exec(s, st, fuel),
        exec(contract(s), st, fuel),
    ) by {
        assert(s + Seq::<Ir>::empty() =~= s);
        assert(contract(s) + Seq::<Ir>::empty() =~= contract(s));
        lemma_contract_before(s, Seq::empty(), st, fuel);
    }
}

/// Two adjacent instructions do all that what they contract to does.
pub proof fn lemma_fuse_backed(x: Ir, y: Ir)
    requires
        fuse(x, y) is Some,
    ensures
        backed(seq![x, y], fused(x, y)),
{
    let a = seq![x, y];
    let b = fused(x, y);
    assert forall|st: State, fuel: nat| st.tape.wf() implies stems_from(
        #[trigger] exec(b, st, fuel),
        exec(a, st, fuel + slack()),
    ) by {
        lemma_exec_two(x, y, st, fuel + slack());
        lemma_exec_grows(a, st, fuel + slack());
        if cell_delta(x) is Some {
            lemma_fuse_cells(x, y, st);
        } else if exec(a, st, fuel + slack()) is Done {
            lemma_fuse_moves(x, y, st);
        }
        match fuse(x, y)->0 {
            Some(joint) => {
                lemma_exec_one(joint, st, fuel);
            },
            None => {
                assert(b =~= Seq::<Ir>::empty());
            },
        }
        assert(exec(b, st, fuel).written() == st.output);
    }
}

/// What stands before any sequence does all that its contraction does
/// there, given the slack for each of its instructions.
pub proof fn lemma_contract_before_back(s: Seq<Ir>, post: Seq<Ir>, st: State, fuel: nat)
    requires
        st.tape.wf(),
    ensures
        stems_from(
            exec(contract(s) + post, st, fuel),
            exec(s + post, st, fuel + s.len() * slack()),
        ),
    decreases s.len(),
{
    let most = fuel + s.len() * slack();
    if s.len() > 0 {
        let x = s.last();
        let rest = seq![x] + post;
        let c = contract(s.drop_last());
        let fewer = s.drop_last().len() * slack();
        assert(s + post =~= s.drop_last() + rest);
        assert(fewer + slack() == s.len() * slack()) by (nonlinear_arith)
            requires
                fewer == (s.len() - 1) * slack(),
        ;
        if c.len() > 0 && fuse(c.last(), x) is Some {
            lemma_fuse_refines(c.last(), x);
            lemma_fuse_backed(c.last(), x);
            assert(c + rest =~= c.drop_last() + seq![c.last(), x] + post);
            lemma_replace_back(
                c.drop_last(),
                seq![c.last(), x],
                fused(c.last(), x),
                post,
                st,
                fuel,
            );
            assert(push_fused(c, x) =~= c.drop_last() + fused(c.last(), x));
            lemma_contract_before_back(s.drop_last(), rest, st, fuel + slack());
            lemma_stems_chain(
                exec(contract(s) + post, st, fuel),
                exec(c + rest, st, fuel + slack()),
                exec(s + post, st, most),
            );
        } else {
            assert(push_fused(c, x) + post =~= c + rest);
            lemma_contract_before_back(s.drop_last(), rest, st, fuel);
            lemma_more_fuel(s + post, st, fuel + fewer, most);
            lemma_stems_more_fuel(
                exec(contract(s) + post, st, fuel),
                exec(s + post, st, fuel + fewer),
                exec(s + post, st, most),
            );
        }
    } else {
        assert(contract(s) =~= s);
        lemma_more_fuel(s + post, st, fuel, most);
    }
}

/// A program does all that its contraction does, given the slack for each
/// of its instructions.
pub proof fn lemma_contract_back(s: Seq<Ir>, st: State, fuel: nat)
    requires
        st.tape.wf(),
    ensures
        stems_from(exec(contract(s), st, fuel), exec(s, st, fuel + s.len() * slack())),
{
    assert(s + Seq::<Ir>::empty() =~= s);
    assert(contract(s) + Seq::<Ir>::empty() =~= contract(s));
    lemma_contract_before_back(s, Seq::empty(), st, fuel);
}

} // verus!
