//! The removal of loops that can never run keeps what a program does.

use vstd::prelude::*;

use crate::equivalence::{lemma_exec_loop_wf, lemma_exec_wf, lemma_perform_wf};
use crate::optimizer::dead_loop::{behind_loop, elide, starts_with_loop, strip_leading};
use crate::nesting::{
    depth_at_end, lemma_find_close_beyond, lemma_find_close_over, lemma_find_close_within,
    lemma_whole_loop,
};
use crate::semantics::{exec, exec_loop, perform, Outcome, State};
use crate::syntax::{find_close, lemma_find_close_bounds, matching_close, Ir};

verus! {

/// A loop that is met with the current cell at zero does nothing.
pub proof fn lemma_skip_loop(s: Seq<Ir>, st: State, fuel: nat)
    requires
        starts_with_loop(s),
        st.tape.cur() == 0,
    ensures
        exec(s, st, fuel) == exec(behind_loop(s), st, fuel),
{
    let body = s.subrange(1, matching_close(s, 0));
    assert(exec_loop(body, st, fuel) == Outcome::Done(st));
}

/// From a state with the current cell at zero, as at the start of a run, a
/// program does what is left of it without the loops that it starts with.
pub proof fn lemma_strip_leading(s: Seq<Ir>, st: State, fuel: nat)
    requires
        st.tape.cur() == 0,
    ensures
        exec(strip_leading(s), st, fuel) == exec(s, st, fuel),
    decreases s.len(),
{
    if starts_with_loop(s) {
        lemma_skip_loop(s, st, fuel);
        lemma_strip_leading(behind_loop(s), st, fuel);
    }
}

/// A loop right behind a `Close` may go: the whole does what it did.
pub proof fn lemma_skip_dead(pre: Seq<Ir>, s: Seq<Ir>, st: State, fuel: nat)
    requires
        pre.len() > 0,
        pre.last() == Ir::Close,
        starts_with_loop(s),
        st.tape.wf(),
    ensures
        exec(pre + behind_loop(s), st, fuel) == exec(pre + s, st, fuel),
    decreases fuel, pre.len() + s.len(), 0int,
{
    let t = behind_loop(s);
    let p = pre + s;
    let q = pre + t;
    assert(p[0] == pre[0]);
    assert(q[0] == pre[0]);
    match pre[0] {
        Ir::Open => {
            lemma_find_close_bounds(pre, 1, 1);
            if find_close(pre, 1, 1) < pre.len() {
                let close = find_close(pre, 1, 1);
                lemma_find_close_within(pre, s, 1, 1);
                lemma_find_close_within(pre, t, 1, 1);
                let body = pre.subrange(1, close);
                assert(p.subrange(1, close) =~= body);
                assert(q.subrange(1, close) =~= body);
                assert(p.skip(close + 1) =~= pre.skip(close + 1) + s);
                assert(q.skip(close + 1) =~= pre.skip(close + 1) + t);
                match exec_loop(body, st, fuel) {
                    Outcome::Done(next) => {
                        lemma_exec_loop_wf(body, st, fuel);
                        if close == pre.len() - 1 {
                            assert(pre.skip(close + 1) + s =~= s);
                            assert(pre.skip(close + 1) + t =~= t);
                            lemma_skip_loop(s, next, fuel);
                        } else {
                            lemma_skip_dead(pre.skip(close + 1), s, next, fuel);
                        }
                    },
                    _ => {},
                }
            } else {
                let depth = depth_at_end(pre, 1, 1);
                let inner = matching_close(s, 0);
                let whole = s.take(inner + 1);
                lemma_whole_loop(s);
                assert(s =~= whole + t);
                lemma_find_close_beyond(pre, s, 1, 1);
                lemma_find_close_beyond(pre, t, 1, 1);
                lemma_find_close_over(whole, 0, 0, depth);
                lemma_find_close_beyond(whole, t, 0, depth);
                let m = find_close(t, 0, depth);
                lemma_find_close_bounds(t, 0, depth);
                let close = matching_close(p, 0);
                assert(close == pre.len() + whole.len() + m);
                assert(matching_close(q, 0) == pre.len() + m);
                if m < t.len() {
                    let part = whole + t.take(m);
                    lemma_find_close_within(whole, t.take(m), 1, 1);
                    assert(part[0] == Ir::Open);
                    assert(starts_with_loop(part));
                    assert(behind_loop(part) =~= t.take(m));
                    assert(p.subrange(1, close) =~= pre.skip(1) + part);
                    assert(q.subrange(1, matching_close(q, 0)) =~= pre.skip(1) + t.take(m));
                    assert(p.skip(close + 1) =~= t.skip(m + 1));
                    assert(q.skip(matching_close(q, 0) + 1) =~= t.skip(m + 1));
                    assert(pre.skip(1).last() == pre.last());
                    lemma_skip_dead_in_loop(pre.skip(1), part, st, fuel);
                }
            }
        },
        Ir::Close => {},
        ir => {
            assert(p.skip(1) =~= pre.skip(1) + s);
            assert(q.skip(1) =~= pre.skip(1) + t);
            assert(pre.skip(1).last() == pre.last());
            match perform(ir, st) {
                Some(next) => {
                    lemma_perform_wf(ir, st);
                    lemma_skip_dead(pre.skip(1), s, next, fuel);
                },
                None => {},
            }
        },
    }
}

/// A loop right behind a `Close` in the body of a loop may go: the loop does
/// what it did.
pub proof fn lemma_skip_dead_in_loop(pre: Seq<Ir>, s: Seq<Ir>, st: State, fuel: nat)
    requires
        pre.len() > 0,
        pre.last() == Ir::Close,
        starts_with_loop(s),
        st.tape.wf(),
    ensures
        exec_loop(pre + behind_loop(s), st, fuel) == exec_loop(pre + s, st, fuel),
    decreases fuel, pre.len() + s.len(), 1int,
{
    if st.tape.cur() != 0 && fuel > 0 {
        let less = (fuel - 1) as nat;
        lemma_skip_dead(pre, s, st, less);
        match exec(pre + s, st, less) {
            Outcome::Done(next) => {
                lemma_exec_wf(pre + s, st, less);
                lemma_skip_dead_in_loop(pre, s, next, less);
            },
            _ => {},
        }
    }
}

/// The removal of the loops that start right behind a `Close`, run on what
/// stands behind any sequence, keeps what the whole does.
pub proof fn lemma_elide_behind(
    pre: Seq<Ir>,
    s: Seq<Ir>,
    after_close: bool,
    st: State,
    fuel: nat,
)
    requires
        after_close ==> pre.len() > 0 && pre.last() == Ir::Close,
        st.tape.wf(),
    ensures
        exec(pre + elide(s, after_close), st, fuel) == exec(pre + s, st, fuel),
    decreases s.len(),
{
    if s.len() == 0 {
    } else if after_close && starts_with_loop(s) {
        lemma_skip_dead(pre, s, st, fuel);
        lemma_elide_behind(pre, behind_loop(s), true, st, fuel);
    } else {
        let rest = s.skip(1);
        assert(pre + s =~= pre.push(s[0]) + rest);
        lemma_elide_behind(pre.push(s[0]), rest, s[0] == Ir::Close, st, fuel);
        assert(pre.push(s[0]) + elide(rest, s[0] == Ir::Close) =~= pre + elide(s, after_close));
    }
}

/// The removal of the loops that start right behind a `Close` keeps what a
/// program does, and how far it comes.
pub proof fn lemma_elide_same(s: Seq<Ir>, st: State, fuel: nat)
    requires
        st.tape.wf(),
    ensures
        exec(elide(s, false), st, fuel) == exec(s, st, fuel),
{
    assert(Seq::<Ir>::empty() + s =~= s);
    assert(Seq::<Ir>::empty() + elide(s, false) =~= elide(s, false));
    lemma_elide_behind(Seq::empty(), s, false, st, fuel);
}

} // verus!
