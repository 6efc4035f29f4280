//! The closed forms of the loops of one instruction keep what a program
//! does.

use vstd::prelude::*;

use crate::equivalence::contract::lemma_exec_one;
use crate::nesting::{lemma_plain_balanced, lemma_unit_loop_balanced};
use crate::equivalence::{
    backed, follows, lemma_follows_chain, lemma_follows_same, lemma_replace, lemma_replace_back,
    lemma_stems_chain, lemma_stems_more_fuel, refines, slack, stems_from,
};
use crate::mem::offset;
use crate::optimizer::patterns::{
    clear_loops, leading_scan_loop, scan_loops, starts_with_clear_loop,
};
use crate::semantics::{exec, exec_loop, lemma_more_fuel, lemma_prefix_same, Outcome, State};
use crate::syntax::{balanced, balanced_from, find_close, matching_close, Dir, Ir};

verus! {

/// The loop whose body is the one instruction `x`.
pub open spec fn unit_loop(x: Ir) -> Seq<Ir> {
    seq![Ir::Open, x, Ir::Close]
}

/// Running a loop of one instruction is running its body until the current
/// cell is zero.
pub proof fn lemma_unit_loop(x: Ir, st: State, fuel: nat)
    requires
        x != Ir::Open,
        x != Ir::Close,
    ensures
        exec(unit_loop(x), st, fuel) == exec_loop(seq![x], st, fuel),
        balanced(unit_loop(x)),
{
    let p = unit_loop(x);
    assert(p[0] == Ir::Open);
    assert(p[1] == x);
    assert(p[2] == Ir::Close);
    assert(matching_close(p, 0) == 2) by {
        reveal_with_fuel(find_close, 3);
    }
    assert(p.subrange(1, 2) =~= seq![x]);
    assert(p.skip(3) =~= Seq::<Ir>::empty());
    assert(balanced(p)) by {
        reveal_with_fuel(balanced_from, 4);
    }
    match exec_loop(seq![x], st, fuel) {
        Outcome::Done(next) => {
            assert(exec(p.skip(3), next, fuel) == Outcome::Done(next));
        },
        _ => {},
    }
}

/// A loop that takes one off the current cell, or adds one to it, each time
/// round writes nothing, and ends, if it ends, with the cell at zero and all
/// else as it was.
pub proof fn lemma_clear_loop_runs(x: Ir, st: State, fuel: nat)
    requires
        x == Ir::Add(1) || x == Ir::Sub(1),
        st.tape.wf(),
    ensures
        exec_loop(seq![x], st, fuel).written() == st.output,
        exec_loop(seq![x], st, fuel) is Done ==> exec_loop(seq![x], st, fuel) == Outcome::Done(
            State { tape: st.tape.set(0), input: st.input, output: st.output },
        ),
    decreases fuel,
{
    if st.tape.cur() == 0 {
        assert(st.tape.set(0).cells =~= st.tape.cells);
    } else if fuel > 0 {
        let less = (fuel - 1) as nat;
        lemma_exec_one(x, st, less);
        let next = exec(seq![x], st, less)->Done_0;
        lemma_clear_loop_runs(x, next, less);
        assert(next.tape.set(0).cells =~= st.tape.set(0).cells);
    }
}

/// `Clear` does what the loop does that empties a cell.
pub proof fn lemma_clear_loop_refines(x: Ir)
    requires
        x == Ir::Add(1) || x == Ir::Sub(1),
    ensures
        refines(unit_loop(x), seq![Ir::Clear]),
        balanced(unit_loop(x)),
        balanced(seq![Ir::Clear]),
{
    lemma_plain_balanced(seq![Ir::Clear]);
    assert forall|st: State, fuel: nat| st.tape.wf() implies follows(
        #[trigger] exec(unit_loop(x), st, fuel),
        exec(seq![Ir::Clear], st, fuel),
    ) by {
        lemma_unit_loop(x, st, fuel);
        lemma_clear_loop_runs(x, st, fuel);
        lemma_exec_one(Ir::Clear, st, fuel);
        lemma_prefix_same(st.output);
    }
    lemma_unit_loop_balanced(x);
}

/// A loop that moves the pointer by one cell each time round writes
/// nothing, and ends, if it ends, where a scan ends, with all else as it
/// was.
pub proof fn lemma_scan_loop_runs(dir: Dir, st: State, fuel: nat)
    requires
        st.tape.wf(),
    ensures
        exec_loop(seq![Ir::Shift(dir, 1)], st, fuel).written() == st.output,
        exec_loop(seq![Ir::Shift(dir, 1)], st, fuel) is Done ==> st.tape.scan(dir) is Some
            && exec_loop(seq![Ir::Shift(dir, 1)], st, fuel) == Outcome::Done(
            State { tape: st.tape.scan(dir)->0, input: st.input, output: st.output },
        ),
    decreases fuel,
{
    if st.tape.cur() != 0 && fuel > 0 {
        let less = (fuel - 1) as nat;
        lemma_exec_one(Ir::Shift(dir, 1), st, less);
        match exec(seq![Ir::Shift(dir, 1)], st, less) {
            Outcome::Done(next) => {
                assert(next.tape == st.tape.at(offset(st.tape.ptr, dir, 1)));
                lemma_scan_loop_runs(dir, next, less);
            },
            _ => {},
        }
    }
}

/// `Scan` does what the loop does that looks for an empty cell.
pub proof fn lemma_scan_loop_refines(dir: Dir)
    ensures
        refines(unit_loop(Ir::Shift(dir, 1)), seq![Ir::Scan(dir)]),
        balanced(unit_loop(Ir::Shift(dir, 1))),
        balanced(seq![Ir::Scan(dir)]),
{
    let x = Ir::Shift(dir, 1);
    lemma_plain_balanced(seq![Ir::Scan(dir)]);
    assert forall|st: State, fuel: nat| st.tape.wf() implies follows(
        #[trigger] exec(unit_loop(x), st, fuel),
        exec(seq![Ir::Scan(dir)], st, fuel),
    ) by {
        lemma_unit_loop(x, st, fuel);
        lemma_scan_loop_runs(dir, st, fuel);
        lemma_exec_one(Ir::Scan(dir), st, fuel);
        lemma_prefix_same(st.output);
    }
    lemma_unit_loop_balanced(x);
}

/// The pass that puts `Clear`, run on what stands behind any sequence, keeps
/// what the whole does.
pub proof fn lemma_clear_loops_behind(pre: Seq<Ir>, s: Seq<Ir>, st: State, fuel: nat)
    requires
        st.tape.wf(),
    ensures
        follows(exec(pre + s, st, fuel), exec(pre + clear_loops(s), st, fuel)),
    decreases s.len(),
{
    lemma_follows_same(exec(pre + s, st, fuel));
    if starts_with_clear_loop(s) {
        let rest = s.skip(3);
        assert(s =~= unit_loop(s[1]) + rest);
        assert(pre + s =~= pre + unit_loop(s[1]) + rest);
        lemma_clear_loop_refines(s[1]);
        lemma_replace(pre, unit_loop(s[1]), seq![Ir::Clear], rest, st, fuel);
        assert(pre + seq![Ir::Clear] + rest =~= pre.push(Ir::Clear) + rest);
        lemma_clear_loops_behind(pre.push(Ir::Clear), rest, st, fuel);
        assert(pre.push(Ir::Clear) + clear_loops(rest) =~= pre + clear_loops(s));
        lemma_follows_chain(
            exec(pre + s, st, fuel),
            exec(pre.push(Ir::Clear) + rest, st, fuel),
            exec(pre + clear_loops(s), st, fuel),
        );
    } else if s.len() > 0 {
        let rest = s.skip(1);
        assert(pre + s =~= pre.push(s[0]) + rest);
        lemma_clear_loops_behind(pre.push(s[0]), rest, st, fuel);
        assert(pre.push(s[0]) + clear_loops(rest) =~= pre + clear_loops(s));
    }
}

/// The pass that puts `Clear` keeps what a program does.
pub proof fn lemma_clear_loops_refines(s: Seq<Ir>)
    ensures
        refines(s, clear_loops(s)),
{
    assert forall|st: State, fuel: nat| st.tape.wf() implies follows(
        #[trigger] exec(s, st, fuel),
        exec(clear_loops(s), st, fuel),
    ) by {
        assert(Seq::<Ir>::empty() + s =~= s);
        assert(Seq::<Ir>::empty() + clear_loops(s) =~= clear_loops(s));
        lemma_clear_loops_behind(Seq::empty(), s, st, fuel);
    }
}

/// The pass that puts `Scan`, run on what stands behind any sequence, keeps
/// what the whole does.
pub proof fn lemma_scan_loops_behind(pre: Seq<Ir>, s: Seq<Ir>, st: State, fuel: nat)
    requires
        st.tape.wf(),
    ensures
        follows(exec(pre + s, st, fuel), exec(pre + scan_loops(s), st, fuel)),
    decreases s.len(),
{
    lemma_follows_same(exec(pre + s, st, fuel));
    if leading_scan_loop(s) is Some {
        let dir = leading_scan_loop(s)->0;
        let rest = s.skip(3);
        assert(s =~= unit_loop(Ir::Shift(dir, 1)) + rest);
        assert(pre + s =~= pre + unit_loop(Ir::Shift(dir, 1)) + rest);
        lemma_scan_loop_refines(dir);
        lemma_replace(pre, unit_loop(Ir::Shift(dir, 1)), seq![Ir::Scan(dir)], rest, st, fuel);
        assert(pre + seq![Ir::Scan(dir)] + rest =~= pre.push(Ir::Scan(dir)) + rest);
        lemma_scan_loops_behind(pre.push(Ir::Scan(dir)), rest, st, fuel);
        assert(pre.push(Ir::Scan(dir)) + scan_loops(rest) =~= pre + scan_loops(s));
        lemma_follows_chain(
            exec(pre + s, st, fuel),
            exec(pre.push(Ir::Scan(dir)) + rest, st, fuel),
            exec(pre + scan_loops(s), st, fuel),
        );
    } else if s.len() > 0 {
        let rest = s.skip(1);
        assert(pre + s =~= pre.push(s[0]) + rest);
        lemma_scan_loops_behind(pre.push(s[0]), rest, st, fuel);
        assert(pre.push(s[0]) + scan_loops(rest) =~= pre + scan_loops(s));
    }
}

/// The pass that puts `Scan` keeps what a program does.
pub proof fn lemma_scan_loops_refines(s: Seq<Ir>)
    ensures
        refines(s, scan_loops(s)),
{
    assert forall|st: State, fuel: nat| st.tape.wf() implies follows(
        #[trigger] exec(s, st, fuel),
        exec(scan_loops(s), st, fuel),
    ) by {
        assert(Seq::<Ir>::empty() + s =~= s);
        assert(Seq::<Ir>::empty() + scan_loops(s) =~= scan_loops(s));
        lemma_scan_loops_behind(Seq::empty(), s, st, fuel);
    }
}

/// How often the loop that empties a cell goes round.
pub open spec fn rounds_to_clear(x: Ir, cell: u8) -> nat {
    if x == Ir::Sub(1) || cell == 0 {
        cell as nat
    } else {
        (256 - cell) as nat
    }
}

/// The loop that empties a cell ends, given fuel for each time round.
pub proof fn lemma_clear_loop_ends(x: Ir, st: State, fuel: nat)
    requires
        x == Ir::Add(1) || x == Ir::Sub(1),
        st.tape.wf(),
        fuel >= rounds_to_clear(x, st.tape.cur()),
    ensures
        exec_loop(seq![x], st, fuel) is Done,
    decreases rounds_to_clear(x, st.tape.cur()),
{
    if st.tape.cur() != 0 {
        let less = (fuel - 1) as nat;
        lemma_exec_one(x, st, less);
        let next = exec(seq![x], st, less)->Done_0;
        lemma_clear_loop_ends(x, next, less);
    }
}

/// The loop that empties a cell does all that `Clear` does.
pub proof fn lemma_clear_loop_backed(x: Ir)
    requires
        x == Ir::Add(1) || x == Ir::Sub(1),
    ensures
        backed(unit_loop(x), seq![Ir::Clear]),
{
    assert forall|st: State, fuel: nat| st.tape.wf() implies stems_from(
        #[trigger] exec(seq![Ir::Clear], st, fuel),
        exec(unit_loop(x), st, fuel + slack()),
    ) by {
        lemma_unit_loop(x, st, fuel + slack());
        lemma_clear_loop_ends(x, st, fuel + slack());
        lemma_clear_loop_runs(x, st, fuel + slack());
        lemma_exec_one(Ir::Clear, st, fuel);
        lemma_prefix_same(st.output);
    }
}

/// How often the loop that looks for an empty cell goes round at most.
pub open spec fn rounds_to_scan(dir: Dir, st: State) -> nat {
    match dir {
        Dir::Left => (st.tape.ptr + 1) as nat,
        Dir::Right => (st.tape.cells.len() - st.tape.ptr) as nat,
    }
}

/// The loop that looks for an empty cell ends where a scan ends, or is given
/// up where a scan leaves the tape, given fuel for each time round.
pub proof fn lemma_scan_loop_ends(dir: Dir, st: State, fuel: nat)
    requires
        st.tape.wf(),
        fuel >= rounds_to_scan(dir, st),
    ensures
        st.tape.scan(dir) is Some ==> exec_loop(seq![Ir::Shift(dir, 1)], st, fuel) is Done,
        st.tape.scan(dir) is None ==> exec_loop(seq![Ir::Shift(dir, 1)], st, fuel) is Fault,
    decreases rounds_to_scan(dir, st),
{
    if st.tape.cur() != 0 {
        let less = (fuel - 1) as nat;
        lemma_exec_one(Ir::Shift(dir, 1), st, less);
        match exec(seq![Ir::Shift(dir, 1)], st, less) {
            Outcome::Done(next) => {
                assert(next.tape == st.tape.at(offset(st.tape.ptr, dir, 1)));
                lemma_scan_loop_ends(dir, next, less);
            },
            _ => {
                let next = st.tape.at(offset(st.tape.ptr, dir, 1));
                assert(next.scan(dir) is None);
            },
        }
    }
}

/// The loop that looks for an empty cell does all that `Scan` does.
pub proof fn lemma_scan_loop_backed(dir: Dir)
    ensures
        backed(unit_loop(Ir::Shift(dir, 1)), seq![Ir::Scan(dir)]),
{
    let x = Ir::Shift(dir, 1);
    assert forall|st: State, fuel: nat| st.tape.wf() implies stems_from(
        #[trigger] exec(seq![Ir::Scan(dir)], st, fuel),
        exec(unit_loop(x), st, fuel + slack()),
    ) by {
        lemma_unit_loop(x, st, fuel + slack());
        lemma_scan_loop_ends(dir, st, fuel + slack());
        lemma_scan_loop_runs(dir, st, fuel + slack());
        lemma_exec_one(Ir::Scan(dir), st, fuel);
        lemma_prefix_same(st.output);
    }
}

/// What stands behind any sequence does all that the pass that puts `Clear`
/// makes it do, given the slack for each of its instructions.
pub proof fn lemma_clear_loops_behind_back(pre: Seq<Ir>, s: Seq<Ir>, st: State, fuel: nat)
    requires
        st.tape.wf(),
    ensures
        stems_from(
            exec(pre + clear_loops(s), st, fuel),
            exec(pre + s, st, fuel + s.len() * slack()),
        ),
    decreases s.len(),
{
    let most = fuel + s.len() * slack();
    if starts_with_clear_loop(s) {
        let rest = s.skip(3);
        let some = fuel + rest.len() * slack();
        assert(some + slack() <= most) by (nonlinear_arith)
            requires
                some == fuel + (s.len() - 3) * slack(),
                most == fuel + s.len() * slack(),
        ;
        assert(s =~= unit_loop(s[1]) + rest);
        assert(pre + s =~= pre + unit_loop(s[1]) + rest);
        lemma_clear_loop_refines(s[1]);
        lemma_clear_loop_backed(s[1]);
        assert(pre + seq![Ir::Clear] + rest =~= pre.push(Ir::Clear) + rest);
        lemma_clear_loops_behind_back(pre.push(Ir::Clear), rest, st, fuel);
        assert(pre.push(Ir::Clear) + clear_loops(rest) =~= pre + clear_loops(s));
        lemma_replace_back(pre, unit_loop(s[1]), seq![Ir::Clear], rest, st, some);
        lemma_stems_chain(
            exec(pre + clear_loops(s), st, fuel),
            exec(pre.push(Ir::Clear) + rest, st, some),
            exec(pre + s, st, some + slack()),
        );
        lemma_more_fuel(pre + s, st, some + slack(), most);
        lemma_stems_more_fuel(
            exec(pre + clear_loops(s), st, fuel),
            exec(pre + s, st, some + slack()),
            exec(pre + s, st, most),
        );
    } else if s.len() > 0 {
        let rest = s.skip(1);
        let some = fuel + rest.len() * slack();
        assert(some <= most) by (nonlinear_arith)
            requires
                some == fuel + (s.len() - 1) * slack(),
                most == fuel + s.len() * slack(),
        ;
        assert(pre + s =~= pre.push(s[0]) + rest);
        lemma_clear_loops_behind_back(pre.push(s[0]), rest, st, fuel);
        assert(pre.push(s[0]) + clear_loops(rest) =~= pre + clear_loops(s));
        lemma_more_fuel(pre + s, st, some, most);
        lemma_stems_more_fuel(
            exec(pre + clear_loops(s), st, fuel),
            exec(pre + s, st, some),
            exec(pre + s, st, most),
        );
    } else {
        lemma_more_fuel(pre + s, st, fuel, most);
    }
}

/// A program does all that the pass that puts `Clear` makes it do, given
/// the slack for each of its instructions.
pub proof fn lemma_clear_loops_back(s: Seq<Ir>, st: State, fuel: nat)
    requires
        st.tape.wf(),
    ensures
        stems_from(exec(clear_loops(s), st, fuel), exec(s, st, fuel + s.len() * slack())),
{
    assert(Seq::<Ir>::empty() + s =~= s);
    assert(Seq::<Ir>::empty() + clear_loops(s) =~= clear_loops(s));
    lemma_clear_loops_behind_back(Seq::empty(), s, st, fuel);
}

/// What stands behind any sequence does all that the pass that puts `Scan`
/// makes it do, given the slack for each of its instructions.
pub proof fn lemma_scan_loops_behind_back(pre: Seq<Ir>, s: Seq<Ir>, st: State, fuel: nat)
    requires
        st.tape.wf(),
    ensures
        stems_from(
            exec(pre + scan_loops(s), st, fuel),
            exec(pre + s, st, fuel + s.len() * slack()),
        ),
    decreases s.len(),
{
    let most = fuel + s.len() * slack();
    if leading_scan_loop(s) is Some {
        let dir = leading_scan_loop(s)->0;
        let found = unit_loop(Ir::Shift(dir, 1));
        let rest = s.skip(3);
        let some = fuel + rest.len() * slack();
        assert(some + slack() <= most) by (nonlinear_arith)
            requires
                some == fuel + (s.len() - 3) * slack(),
                most == fuel + s.len() * slack(),
        ;
        assert(s =~= found + rest);
        assert(pre + s =~= pre + found + rest);
        lemma_scan_loop_refines(dir);
        lemma_scan_loop_backed(dir);
        assert(pre + seq![Ir::Scan(dir)] + rest =~= pre.push(Ir::Scan(dir)) + rest);
        lemma_scan_loops_behind_back(pre.push(Ir::Scan(dir)), rest, st, fuel);
        assert(pre.push(Ir::Scan(dir)) + scan_loops(rest) =~= pre + scan_loops(s));
        lemma_replace_back(pre, found, seq![Ir::Scan(dir)], rest, st, some);
        lemma_stems_chain(
            exec(pre + scan_loops(s), st, fuel),
            exec(pre.push(Ir::Scan(dir)) + rest, st, some),
            exec(pre + s, st, some + slack()),
        );
        lemma_more_fuel(pre + s, st, some + slack(), most);
        lemma_stems_more_fuel(
            exec(pre + scan_loops(s), st, fuel),
            exec(pre + s, st, some + slack()),
            exec(pre + s, st, most),
        );
    } else if s.len() > 0 {
        let rest = s.skip(1);
        let some = fuel + rest.len() * slack();
        assert(some <= most) by (nonlinear_arith)
            requires
                some == fuel + (s.len() - 1) * slack(),
                most == fuel + s.len() * slack(),
        ;
        assert(pre + s =~= pre.push(s[0]) + rest);
        lemma_scan_loops_behind_back(pre.push(s[0]), rest, st, fuel);
        assert(pre.push(s[0]) + scan_loops(rest) =~= pre + scan_loops(s));
        lemma_more_fuel(pre + s, st, some, most);
        lemma_stems_more_fuel(
            exec(pre + scan_loops(s), st, fuel),
            exec(pre + s, st, some),
            exec(pre + s, st, most),
        );
    } else {
        lemma_more_fuel(pre + s, st, fuel, most);
    }
}

/// A program does all that the pass that puts `Scan` makes it do, given the
/// slack for each of its instructions.
pub proof fn lemma_scan_loops_back(s: Seq<Ir>, st: State, fuel: nat)
    requires
        st.tape.wf(),
    ensures
        stems_from(exec(scan_loops(s), st, fuel), exec(s, st, fuel + s.len() * slack())),
{
    assert(Seq::<Ir>::empty() + s =~= s);
    assert(Seq::<Ir>::empty() + scan_loops(s) =~= scan_loops(s));
    lemma_scan_loops_behind_back(Seq::empty(), s, st, fuel);
}

} // verus!
