//! The pass that puts the closed forms of loops keeps what a program does,
//! where the closed forms stay on the tape.

use vstd::prelude::*;

use crate::equivalence::copy_loop::{
    follows_on_tape, lemma_collapse_back, lemma_collapse_runs, off_tape, stems_on_tape,
};
use crate::equivalence::{
    lemma_exec_loop_wf, lemma_exec_wf, lemma_follows_beyond, lemma_follows_same, lemma_perform_wf,
    lemma_stems_on, slack,
};
use crate::nesting::{
    lemma_balanced_before_close, lemma_balanced_skip, lemma_find_close_beyond,
    lemma_find_close_over, lemma_loop_parts, lemma_tail_balanced, lemma_whole_loop,
};
use crate::optimizer::copy_loop::{
    collapse, collapse_loops, leading_form, lemma_collapse_balanced,
    lemma_collapse_loops_balanced, lemma_next_bracket_bounds, lemma_next_bracket_concat,
    lemma_next_bracket_skip, lemma_plain_loop, next_bracket, plain_loop_at,
};
use crate::semantics::{
    exec, exec_loop, lemma_exec_concat, lemma_exec_grows, lemma_exec_loop_grows,
    lemma_loop_more_fuel, lemma_more_fuel, lemma_prefix_same, perform, Outcome, State,
};
use crate::syntax::{
    balanced, balanced_from, find_close, lemma_find_close_bounds, lemma_find_close_skip,
    matching_close, Ir,
};

verus! {

/// Whether every `Open` of `a` has a bracket behind it in `a`.
pub open spec fn tail_closed(a: Seq<Ir>) -> bool {
    forall|k: int|
        0 <= k < a.len() && #[trigger] a[k] == Ir::Open ==> next_bracket(a, k + 1) < a.len()
}

/// What is left of a sequence whose every `Open` has a bracket behind it is
/// such a sequence.
pub proof fn lemma_tail_closed_skip(a: Seq<Ir>, n: int)
    requires
        0 <= n <= a.len(),
        tail_closed(a),
    ensures
        tail_closed(a.skip(n)),
{
    let t = a.skip(n);
    assert forall|k: int| 0 <= k < t.len() && #[trigger] t[k] == Ir::Open implies next_bracket(
        t,
        k + 1,
    ) < t.len() by {
        assert(a[k + n] == Ir::Open);
        lemma_next_bracket_skip(a, n, k + 1);
    }
}

/// The pass works on a sequence whose every `Open` has a bracket behind it
/// and on what follows it apart.
pub proof fn lemma_collapse_concat(a: Seq<Ir>, b: Seq<Ir>)
    requires
        tail_closed(a),
    ensures
        collapse_loops(a + b) == collapse_loops(a) + collapse_loops(b),
    decreases a.len(),
{
    let s = a + b;
    if a.len() == 0 {
        assert(s =~= b);
        assert(collapse_loops(a) + collapse_loops(b) =~= collapse_loops(b));
    } else {
        assert(s[0] == a[0]);
        if a[0] == Ir::Open {
            lemma_next_bracket_concat(a, b, 1);
            lemma_next_bracket_bounds(a, 1);
        }
        if plain_loop_at(a, 0) {
            let close = next_bracket(a, 1);
            assert(s[close] == a[close]);
            assert(plain_loop_at(s, 0));
            assert(s.subrange(1, close) =~= a.subrange(1, close));
            assert(s.take(close + 1) =~= a.take(close + 1));
            assert(s.skip(close + 1) =~= a.skip(close + 1) + b);
            lemma_tail_closed_skip(a, close + 1);
            lemma_collapse_concat(a.skip(close + 1), b);
            assert(leading_form(s) == leading_form(a));
            assert(leading_form(a) + (collapse_loops(a.skip(close + 1)) + collapse_loops(b))
                =~= (leading_form(a) + collapse_loops(a.skip(close + 1))) + collapse_loops(b));
        } else {
            assert(!plain_loop_at(s, 0)) by {
                if a[0] == Ir::Open {
                    let close = next_bracket(a, 1);
                    assert(s[close] == a[close]);
                }
            }
            assert(s.skip(1) =~= a.skip(1) + b);
            lemma_tail_closed_skip(a, 1);
            lemma_collapse_concat(a.skip(1), b);
            assert(seq![a[0]] + (collapse_loops(a.skip(1)) + collapse_loops(b)) =~= (seq![a[0]]
                + collapse_loops(a.skip(1))) + collapse_loops(b));
        }
    }
}

/// The depth at index `k` of a scan that starts at index `j` with `depth`
/// loops open.
pub open spec fn depth_between(a: Seq<Ir>, j: int, depth: nat, k: int) -> nat
    decreases k - j,
{
    if j >= k || j < 0 || j >= a.len() {
        depth
    } else {
        match a[j] {
            Ir::Open => depth_between(a, j + 1, depth + 1, k),
            Ir::Close => depth_between(a, j + 1, (depth - 1) as nat, k),
            _ => depth_between(a, j + 1, depth, k),
        }
    }
}

/// From every index of a well-nested sequence on, the sequence closes the
/// loops that are open there.
pub proof fn lemma_balanced_reaches(a: Seq<Ir>, j: int, depth: nat, k: int)
    requires
        0 <= j <= k <= a.len(),
        balanced_from(a, j, depth),
    ensures
        balanced_from(a, k, depth_between(a, j, depth, k)),
    decreases k - j,
{
    if j < k {
        match a[j] {
            Ir::Open => lemma_balanced_reaches(a, j + 1, depth + 1, k),
            Ir::Close => lemma_balanced_reaches(a, j + 1, (depth - 1) as nat, k),
            _ => lemma_balanced_reaches(a, j + 1, depth, k),
        }
    }
}

/// Where no bracket follows, no loop can be open.
pub proof fn lemma_no_bracket(a: Seq<Ir>, k: int, depth: nat)
    requires
        0 <= k,
        next_bracket(a, k) >= a.len(),
    ensures
        balanced_from(a, k, depth) == (depth == 0),
    decreases a.len() - k,
{
    if k < a.len() {
        lemma_no_bracket(a, k + 1, depth);
    }
}

/// Every `Open` of a well-nested sequence has a bracket behind it.
pub proof fn lemma_balanced_tail_closed(a: Seq<Ir>)
    requires
        balanced(a),
    ensures
        tail_closed(a),
{
    assert forall|k: int| 0 <= k < a.len() && #[trigger] a[k] == Ir::Open implies next_bracket(
        a,
        k + 1,
    ) < a.len() by {
        lemma_balanced_reaches(a, 0, 0, k);
        lemma_next_bracket_bounds(a, k + 1);
        if next_bracket(a, k + 1) >= a.len() {
            lemma_no_bracket(a, k + 1, depth_between(a, 0, 0, k) + 1);
        }
    }
}

/// The loop with body `body`.
pub open spec fn looped(body: Seq<Ir>) -> Seq<Ir> {
    seq![Ir::Open] + body + seq![Ir::Close]
}

/// Running the loop with a well-nested body is running the body until the
/// current cell is zero.
pub proof fn lemma_looped(body: Seq<Ir>, st: State, fuel: nat)
    requires
        balanced(body),
    ensures
        matching_close(looped(body), 0) == body.len() + 1,
        balanced(looped(body)),
        exec(looped(body), st, fuel) == exec_loop(body, st, fuel),
{
    let whole = looped(body);
    let close: int = body.len() as int + 1;
    assert(whole.skip(1) =~= body + seq![Ir::Close]);
    lemma_find_close_skip(whole, 1, 0, 1);
    lemma_find_close_over(body, 0, 0, 1);
    lemma_find_close_beyond(body, seq![Ir::Close], 0, 1);
    assert(find_close(seq![Ir::Close], 0, 1) == 0);
    assert(matching_close(whole, 0) == close);
    assert(whole.take(close + 1) =~= whole);
    lemma_whole_loop(whole);
    assert(whole.subrange(1, close) =~= body);
    assert(whole.skip(close + 1) =~= Seq::<Ir>::empty());
    match exec_loop(body, st, fuel) {
        Outcome::Done(next) => {
            assert(exec(whole.skip(close + 1), next, fuel) == Outcome::Done(next));
        },
        _ => {},
    }
}

/// What the pass makes of a sequence that starts with a loop which holds
/// another loop: the loop around what the pass makes of its body, then what
/// the pass makes of the rest.
pub proof fn lemma_collapse_nested(s: Seq<Ir>)
    requires
        s.len() > 0,
        s[0] == Ir::Open,
        1 <= matching_close(s, 0) < s.len(),
        !plain_loop_at(s, 0),
    ensures
        collapse_loops(s) == looped(collapse_loops(s.subrange(1, matching_close(s, 0))))
            + collapse_loops(s.skip(matching_close(s, 0) + 1)),
{
    let close = matching_close(s, 0);
    let body = s.subrange(1, close);
    let rest = s.skip(close + 1);
    let end = seq![Ir::Close] + rest;
    lemma_balanced_before_close(s, 1, 1);
    lemma_balanced_skip(s.take(close), 1, 0, 0);
    assert(s.take(close).skip(1) =~= body);
    lemma_balanced_tail_closed(body);
    lemma_find_close_bounds(s, 1, 1);
    assert(s.skip(1) =~= body + end);
    lemma_collapse_concat(body, end);
    assert(end[0] == Ir::Close);
    assert(!plain_loop_at(end, 0));
    assert(end.skip(1) =~= rest);
    assert(collapse_loops(end) == seq![Ir::Close] + collapse_loops(rest));
    assert(seq![Ir::Open] + (collapse_loops(body) + (seq![Ir::Close] + collapse_loops(rest)))
        =~= looped(collapse_loops(body)) + collapse_loops(rest));
}

/// Where the first part of an execution goes as far as the first part of
/// another, unless it leaves the tape, and the two go on alike from the
/// state that the first parts leave, the whole of the one goes as far as
/// the whole of the other, unless it leaves the tape.
pub proof fn lemma_goes_on(x: Outcome, y: Outcome, then_x: Outcome, then_y: Outcome)
    requires
        follows_on_tape(x, y),
        x is Done && y == x ==> follows_on_tape(then_x, then_y),
        !(x is Done) ==> then_x == x,
        !(y is Done) ==> then_y == y,
        y is Done ==> y.written().is_prefix_of(then_y.written()),
    ensures
        follows_on_tape(then_x, then_y),
{
    if !(x is Done) && !off_tape(then_y) {
        lemma_follows_beyond(x, y.written(), then_y);
    }
}

/// What the pass makes of a well-nested sequence does what the sequence
/// does, unless it is given up at a cell that lies off the tape.
pub proof fn lemma_collapse_loops_runs(s: Seq<Ir>, st: State, fuel: nat)
    requires
        balanced(s),
        st.tape.wf(),
    ensures
        follows_on_tape(exec(s, st, fuel), exec(collapse_loops(s), st, fuel)),
    decreases fuel, s.len(), 0int,
{
    lemma_follows_same(exec(s, st, fuel));
    if s.len() > 0 {
        match s[0] {
            Ir::Open => {
                lemma_loop_parts(s);
                let close = matching_close(s, 0);
                let body = s.subrange(1, close);
                let rest = s.skip(close + 1);
                let put = if plain_loop_at(s, 0) {
                    leading_form(s)
                } else {
                    looped(collapse_loops(body))
                };
                let x = exec_loop(body, st, fuel);
                let y = exec(put, st, fuel);
                if plain_loop_at(s, 0) {
                    lemma_plain_loop(s);
                    if collapse(body) is Some {
                        lemma_collapse_balanced(body);
                        lemma_collapse_runs(body, st, fuel);
                    } else {
                        let whole = s.take(close + 1);
                        assert(whole[0] == Ir::Open);
                        assert(whole.subrange(1, close) =~= body);
                        assert(whole.skip(close + 1) =~= Seq::<Ir>::empty());
                        match x {
                            Outcome::Done(next) => {
                                assert(exec(whole.skip(close + 1), next, fuel) == Outcome::Done(
                                    next,
                                ));
                            },
                            _ => {},
                        }
                        lemma_follows_same(x);
                    }
                } else {
                    lemma_collapse_nested(s);
                    lemma_collapse_loops_balanced(body);
                    lemma_looped(collapse_loops(body), st, fuel);
                    lemma_collapse_loop_runs(body, st, fuel);
                }
                assert(collapse_loops(s) == put + collapse_loops(rest));
                lemma_exec_concat(put, collapse_loops(rest), st, fuel);
                match x {
                    Outcome::Done(next) => {
                        lemma_exec_loop_wf(body, st, fuel);
                        lemma_collapse_loops_runs(rest, next, fuel);
                    },
                    _ => {},
                }
                match y {
                    Outcome::Done(ahead) => {
                        lemma_exec_grows(collapse_loops(rest), ahead, fuel);
                    },
                    _ => {},
                }
                lemma_goes_on(x, y, exec(s, st, fuel), exec(collapse_loops(s), st, fuel));
            },
            Ir::Close => {},
            ir => {
                lemma_tail_balanced(s);
                let rest = s.skip(1);
                let put = seq![ir] + collapse_loops(rest);
                assert(put[0] == ir);
                assert(put.skip(1) =~= collapse_loops(rest));
                match perform(ir, st) {
                    Some(next) => {
                        lemma_perform_wf(ir, st);
                        lemma_collapse_loops_runs(rest, next, fuel);
                    },
                    None => {},
                }
            },
        }
    }
}

/// The loop around what the pass makes of a well-nested body does what the
/// loop around the body does, unless it is given up at a cell that lies off
/// the tape.
pub proof fn lemma_collapse_loop_runs(body: Seq<Ir>, st: State, fuel: nat)
    requires
        balanced(body),
        st.tape.wf(),
    ensures
        follows_on_tape(
            exec_loop(body, st, fuel),
            exec_loop(collapse_loops(body), st, fuel),
        ),
    decreases fuel, body.len(), 1int,
{
    lemma_follows_same(exec_loop(body, st, fuel));
    if st.tape.cur() != 0 && fuel > 0 {
        let less = (fuel - 1) as nat;
        let put = collapse_loops(body);
        let x = exec(body, st, less);
        let y = exec(put, st, less);
        lemma_collapse_loops_runs(body, st, less);
        match x {
            Outcome::Done(next) => {
                lemma_exec_wf(body, st, less);
                lemma_collapse_loop_runs(body, next, less);
            },
            _ => {},
        }
        match y {
            Outcome::Done(ahead) => {
                lemma_exec_loop_grows(put, ahead, less);
            },
            _ => {},
        }
        lemma_goes_on(x, y, exec_loop(body, st, fuel), exec_loop(put, st, fuel));
    }
}

/// Where the first part of an execution stems from the first part of
/// another, unless it leaves the tape, and the two go on alike from the
/// state that the first parts leave, the whole of the one stems from the
/// whole of the other, unless it leaves the tape.
pub proof fn lemma_stems_on_tape_on(y: Outcome, x: Outcome, then_y: Outcome, then_x: Outcome)
    requires
        stems_on_tape(y, x),
        y is Done && x == y ==> stems_on_tape(then_y, then_x),
        !(y is Done) ==> then_y == y,
        !(x is Done) ==> then_x == x,
        x is Done ==> x.written().is_prefix_of(then_x.written()),
    ensures
        stems_on_tape(then_y, then_x),
{
    if !off_tape(y) {
        if !(y is Done && x == y) {
            lemma_stems_on(y, x, then_y, then_x);
        }
    }
}

/// A well-nested sequence does all that the pass makes it do, given the
/// slack, unless what the pass makes of it is given up at a cell that lies
/// off the tape.
pub proof fn lemma_collapse_loops_back(s: Seq<Ir>, st: State, fuel: nat)
    requires
        balanced(s),
        st.tape.wf(),
    ensures
        stems_on_tape(exec(collapse_loops(s), st, fuel), exec(s, st, fuel + slack())),
    decreases fuel, s.len(), 0int,
{
    let more = fuel + slack();
    lemma_more_fuel(s, st, fuel, more);
    if s.len() > 0 {
        match s[0] {
            Ir::Open => {
                lemma_loop_parts(s);
                let close = matching_close(s, 0);
                let body = s.subrange(1, close);
                let rest = s.skip(close + 1);
                let put = if plain_loop_at(s, 0) {
                    leading_form(s)
                } else {
                    looped(collapse_loops(body))
                };
                let x = exec_loop(body, st, more);
                let y = exec(put, st, fuel);
                if plain_loop_at(s, 0) {
                    lemma_plain_loop(s);
                    if collapse(body) is Some {
                        lemma_collapse_balanced(body);
                        lemma_collapse_back(body, st, fuel);
                    } else {
                        let whole = s.take(close + 1);
                        assert(whole[0] == Ir::Open);
                        assert(whole.subrange(1, close) =~= body);
                        assert(whole.skip(close + 1) =~= Seq::<Ir>::empty());
                        match exec_loop(body, st, fuel) {
                            Outcome::Done(next) => {
                                assert(exec(whole.skip(close + 1), next, fuel) == Outcome::Done(
                                    next,
                                ));
                            },
                            _ => {},
                        }
                        lemma_loop_more_fuel(body, st, fuel, more);
                    }
                } else {
                    lemma_collapse_nested(s);
                    lemma_collapse_loops_balanced(body);
                    lemma_looped(collapse_loops(body), st, fuel);
                    lemma_collapse_loop_back(body, st, fuel);
                }
                assert(collapse_loops(s) == put + collapse_loops(rest));
                lemma_exec_concat(put, collapse_loops(rest), st, fuel);
                match y {
                    Outcome::Done(next) => {
                        if x == y {
                            lemma_exec_loop_wf(body, st, more);
                            lemma_collapse_loops_back(rest, next, fuel);
                        }
                    },
                    _ => {},
                }
                match x {
                    Outcome::Done(ahead) => {
                        lemma_exec_grows(rest, ahead, more);
                    },
                    _ => {},
                }
                lemma_stems_on_tape_on(
                    y,
                    x,
                    exec(collapse_loops(s), st, fuel),
                    exec(s, st, more),
                );
            },
            Ir::Close => {},
            ir => {
                lemma_tail_balanced(s);
                let rest = s.skip(1);
                let put = seq![ir] + collapse_loops(rest);
                assert(put[0] == ir);
                assert(put.skip(1) =~= collapse_loops(rest));
                match perform(ir, st) {
                    Some(next) => {
                        lemma_perform_wf(ir, st);
                        lemma_collapse_loops_back(rest, next, fuel);
                    },
                    None => {},
                }
            },
        }
    }
}

/// The loop around a well-nested body does all that the loop around what
/// the pass makes of the body does, given the slack, unless that is given up
/// at a cell that lies off the tape.
pub proof fn lemma_collapse_loop_back(body: Seq<Ir>, st: State, fuel: nat)
    requires
        balanced(body),
        st.tape.wf(),
    ensures
        stems_on_tape(
            exec_loop(collapse_loops(body), st, fuel),
            exec_loop(body, st, fuel + slack()),
        ),
    decreases fuel, body.len(), 1int,
{
    let more = fuel + slack();
    let put = collapse_loops(body);
    lemma_prefix_same(st.output);
    if st.tape.cur() != 0 {
        lemma_exec_loop_grows(body, st, more);
        if fuel > 0 {
            let less = (fuel - 1) as nat;
            let fewer = (more - 1) as nat;
            let x = exec(body, st, fewer);
            let y = exec(put, st, less);
            lemma_collapse_loops_back(body, st, less);
            match y {
                Outcome::Done(next) => {
                    if x == y {
                        lemma_exec_wf(body, st, fewer);
                        lemma_collapse_loop_back(body, next, less);
                    }
                },
                _ => {},
            }
            match x {
                Outcome::Done(ahead) => {
                    lemma_exec_loop_grows(body, ahead, fewer);
                },
                _ => {},
            }
            lemma_stems_on_tape_on(y, x, exec_loop(put, st, fuel), exec_loop(body, st, more));
        }
    }
}

} // verus!
