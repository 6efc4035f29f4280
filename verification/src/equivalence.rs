//! The optimizer keeps what a program does. For each pass, what the pass
//! makes of a program goes as far as the program, with the same fuel; and the
//! program does all that the pass makes it do, given slack for the loops
//! that the pass has put closed forms for.

use vstd::prelude::*;

use crate::mem::{offset, Tape, MEM_SIZE};
use crate::nesting::{
    depth_at_end, lemma_find_close_beyond, lemma_find_close_over, lemma_find_close_within,
};
use crate::semantics::{
    exec, exec_loop, extends, lemma_exec_concat, lemma_exec_grows, lemma_exec_loop_grows,
    lemma_loop_more_fuel, lemma_more_fuel, lemma_prefix_chain, lemma_prefix_same, perform,
    Outcome, State,
};
use crate::syntax::{balanced, find_close, lemma_find_close_bounds, matching_close, Dir, Ir};

pub mod bridge;
pub mod collapse;
pub mod contract;
pub mod copy_loop;
pub mod dead_loop;
pub mod patterns;

verus! {

/// A scan that ends leaves the tape well formed.
pub proof fn lemma_scan_wf(tape: Tape, dir: Dir)
    requires
        tape.wf(),
        tape.scan(dir) is Some,
    ensures
        tape.scan(dir)->0.wf(),
        tape.scan(dir)->0.cells == tape.cells,
        tape.scan(dir)->0.cur() == 0,
    decreases
        match dir {
            Dir::Left => tape.ptr + 1,
            Dir::Right => tape.cells.len() - tape.ptr,
        },
{
    if tape.cur() != 0 {
        let next = tape.at(offset(tape.ptr, dir, 1));
        if next.in_bounds(next.ptr) {
            lemma_scan_wf(next, dir);
        }
    }
}

/// An instruction leaves the tape well formed.
pub proof fn lemma_perform_wf(ir: Ir, st: State)
    requires
        st.tape.wf(),
        perform(ir, st) is Some,
    ensures
        perform(ir, st)->0.tape.wf(),
{
    match ir {
        Ir::Scan(dir) => lemma_scan_wf(st.tape, dir),
        _ => {},
    }
}

/// An execution that runs to its end leaves the tape well formed.
pub proof fn lemma_exec_wf(p: Seq<Ir>, st: State, fuel: nat)
    requires
        st.tape.wf(),
        exec(p, st, fuel) is Done,
    ensures
        exec(p, st, fuel)->Done_0.tape.wf(),
    decreases fuel, p.len(), 0int,
{
    if p.len() > 0 {
        match p[0] {
            Ir::Open => {
                let close = matching_close(p, 0);
                let body = p.subrange(1, close);
                lemma_exec_loop_wf(body, st, fuel);
                lemma_exec_wf(p.skip(close + 1), exec_loop(body, st, fuel)->Done_0, fuel);
            },
            Ir::Close => {},
            ir => {
                lemma_perform_wf(ir, st);
                lemma_exec_wf(p.skip(1), perform(ir, st)->0, fuel);
            },
        }
    }
}

/// The execution of a loop that runs to its end leaves the tape well
/// formed, with the current cell at zero.
pub proof fn lemma_exec_loop_wf(body: Seq<Ir>, st: State, fuel: nat)
    requires
        st.tape.wf(),
        exec_loop(body, st, fuel) is Done,
    ensures
        exec_loop(body, st, fuel)->Done_0.tape.wf(),
        exec_loop(body, st, fuel)->Done_0.tape.cur() == 0,
    decreases fuel, body.len(), 1int,
{
    if st.tape.cur() != 0 {
        lemma_exec_wf(body, st, (fuel - 1) as nat);
        lemma_exec_loop_wf(body, exec(body, st, (fuel - 1) as nat)->Done_0, (fuel - 1) as nat);
    }
}

/// Whether outcome `y` goes as far as outcome `x`: it is `x`, if `x` ran to
/// its end, and has in any case written what `x` has written, and maybe
/// more.
pub open spec fn follows(x: Outcome, y: Outcome) -> bool {
    &&& x is Done ==> y == x
    &&& x.written().is_prefix_of(y.written())
}

/// Every outcome goes as far as itself.
pub proof fn lemma_follows_same(x: Outcome)
    ensures
        follows(x, x),
{
    lemma_prefix_same(x.written());
}

/// What goes as far as an outcome that goes as far as a third goes as far
/// as the third.
pub proof fn lemma_follows_chain(x: Outcome, y: Outcome, z: Outcome)
    requires
        follows(x, y),
        follows(y, z),
    ensures
        follows(x, z),
{
    lemma_prefix_chain(x.written(), y.written(), z.written());
}

/// An outcome that has written what an execution had written when it
/// stopped short of its end goes as far as that execution.
pub proof fn lemma_follows_beyond(x: Outcome, mid: Seq<u8>, z: Outcome)
    requires
        !(x is Done),
        x.written().is_prefix_of(mid),
        mid.is_prefix_of(z.written()),
    ensures
        follows(x, z),
{
    lemma_prefix_chain(x.written(), mid, z.written());
}

/// Whether sequence `b` does what sequence `a` does: from every state and
/// with every fuel, its execution goes as far as that of `a`.
pub open spec fn refines(a: Seq<Ir>, b: Seq<Ir>) -> bool {
    forall|st: State, fuel: nat|
        st.tape.wf() ==> follows(#[trigger] exec(a, st, fuel), exec(b, st, fuel))
}

/// A well-nested part of a sequence may give way to one that does what it
/// does: the whole then does what it did.
pub proof fn lemma_replace(
    pre: Seq<Ir>,
    a: Seq<Ir>,
    b: Seq<Ir>,
    post: Seq<Ir>,
    st: State,
    fuel: nat,
)
    requires
        balanced(a),
        balanced(b),
        refines(a, b),
        st.tape.wf(),
    ensures
        follows(exec(pre + a + post, st, fuel), exec(pre + b + post, st, fuel)),
    decreases fuel, pre.len() + post.len(), 0int,
{
    let p = pre + a + post;
    let q = pre + b + post;
    lemma_follows_same(exec(p, st, fuel));
    if pre.len() == 0 {
        assert(p =~= a + post);
        assert(q =~= b + post);
        lemma_exec_concat(a, post, st, fuel);
        lemma_exec_concat(b, post, st, fuel);
        let x = exec(a, st, fuel);
        let y = exec(b, st, fuel);
        assert(follows(x, y));
        if !(x is Done) {
            match y {
                Outcome::Done(ahead) => {
                    lemma_exec_grows(post, ahead, fuel);
                    lemma_follows_beyond(x, ahead.output, exec(q, st, fuel));
                },
                _ => {},
            }
        }
    } else {
        assert(p[0] == pre[0]);
        assert(q[0] == pre[0]);
        match pre[0] {
            Ir::Open => {
                lemma_find_close_bounds(pre, 1, 1);
                assert(p =~= pre + (a + post));
                assert(q =~= pre + (b + post));
                if find_close(pre, 1, 1) < pre.len() {
                    let close = find_close(pre, 1, 1);
                    lemma_find_close_within(pre, a + post, 1, 1);
                    lemma_find_close_within(pre, b + post, 1, 1);
                    let body = pre.subrange(1, close);
                    assert(p.subrange(1, close) =~= body);
                    assert(q.subrange(1, close) =~= body);
                    assert(p.skip(close + 1) =~= pre.skip(close + 1) + a + post);
                    assert(q.skip(close + 1) =~= pre.skip(close + 1) + b + post);
                    match exec_loop(body, st, fuel) {
                        Outcome::Done(next) => {
                            lemma_exec_loop_wf(body, st, fuel);
                            lemma_replace(pre.skip(close + 1), a, b, post, next, fuel);
                        },
                        _ => {},
                    }
                } else {
                    let depth = depth_at_end(pre, 1, 1);
                    lemma_find_close_beyond(pre, a + post, 1, 1);
                    lemma_find_close_beyond(pre, b + post, 1, 1);
                    lemma_find_close_over(a, 0, 0, depth);
                    lemma_find_close_over(b, 0, 0, depth);
                    lemma_find_close_beyond(a, post, 0, depth);
                    lemma_find_close_beyond(b, post, 0, depth);
                    let m = find_close(post, 0, depth);
                    lemma_find_close_bounds(post, 0, depth);
                    let close = matching_close(p, 0);
                    assert(close == pre.len() + a.len() + m);
                    assert(matching_close(q, 0) == pre.len() + b.len() + m);
                    if m < post.len() {
                        let body_p = p.subrange(1, close);
                        let body_q = q.subrange(1, matching_close(q, 0));
                        let rest = post.skip(m + 1);
                        assert(body_p =~= pre.skip(1) + a + post.take(m));
                        assert(body_q =~= pre.skip(1) + b + post.take(m));
                        assert(p.skip(close + 1) =~= rest);
                        assert(q.skip(matching_close(q, 0) + 1) =~= rest);
                        lemma_replace_in_loop(pre.skip(1), a, b, post.take(m), st, fuel);
                        let x = exec_loop(body_p, st, fuel);
                        if !(x is Done) {
                            match exec_loop(body_q, st, fuel) {
                                Outcome::Done(ahead) => {
                                    lemma_exec_grows(rest, ahead, fuel);
                                    lemma_follows_beyond(x, ahead.output, exec(q, st, fuel));
                                },
                                _ => {},
                            }
                        }
                    }
                }
            },
            Ir::Close => {},
            ir => {
                assert(p.skip(1) =~= pre.skip(1) + a + post);
                assert(q.skip(1) =~= pre.skip(1) + b + post);
                match perform(ir, st) {
                    Some(next) => {
                        lemma_perform_wf(ir, st);
                        lemma_replace(pre.skip(1), a, b, post, next, fuel);
                    },
                    None => {},
                }
            },
        }
    }
}

/// A well-nested part of the body of a loop may give way to one that does
/// what it does: the loop then does what it did.
pub proof fn lemma_replace_in_loop(
    pre: Seq<Ir>,
    a: Seq<Ir>,
    b: Seq<Ir>,
    post: Seq<Ir>,
    st: State,
    fuel: nat,
)
    requires
        balanced(a),
        balanced(b),
        refines(a, b),
        st.tape.wf(),
    ensures
        follows(exec_loop(pre + a + post, st, fuel), exec_loop(pre + b + post, st, fuel)),
    decreases fuel, pre.len() + post.len(), 1int,
{
    let p = pre + a + post;
    let q = pre + b + post;
    lemma_follows_same(exec_loop(p, st, fuel));
    if st.tape.cur() != 0 && fuel > 0 {
        let less = (fuel - 1) as nat;
        lemma_replace(pre, a, b, post, st, less);
        match exec(p, st, less) {
            Outcome::Done(next) => {
                lemma_exec_wf(p, st, less);
                lemma_replace_in_loop(pre, a, b, post, next, less);
            },
            x => {
                match exec(q, st, less) {
                    Outcome::Done(ahead) => {
                        lemma_exec_loop_grows(q, ahead, less);
                        lemma_follows_beyond(x, ahead.output, exec_loop(q, st, fuel));
                    },
                    _ => {},
                }
            },
        }
    }
}

/// The fuel that a loop may need beyond the fuel of the instruction that
/// stands for it: no loop that has a closed form goes round more often.
pub open spec fn slack() -> nat {
    MEM_SIZE as nat
}

/// Whether outcome `y`, of a sequence that was put for another, stems from
/// outcome `x` of that other sequence: unless `x` was given up, `x` has
/// written what `y` has written, and is `y` if `y` ran to its end; and `x`
/// was given up if `y` was.
pub open spec fn stems_from(y: Outcome, x: Outcome) -> bool {
    &&& y is Done ==> x == y || x is Fault
    &&& y is Fault ==> x is Fault
    &&& !(x is Fault) ==> y.written().is_prefix_of(x.written())
}

/// What stems from an outcome that stems from a third stems from the third.
pub proof fn lemma_stems_chain(z: Outcome, y: Outcome, x: Outcome)
    requires
        stems_from(z, y),
        stems_from(y, x),
    ensures
        stems_from(z, x),
{
    if !(x is Fault) {
        lemma_prefix_chain(z.written(), y.written(), x.written());
    }
}

/// What stems from an outcome stems from what that outcome becomes with
/// more fuel.
pub proof fn lemma_stems_more_fuel(y: Outcome, x: Outcome, later: Outcome)
    requires
        stems_from(y, x),
        extends(x, later),
    ensures
        stems_from(y, later),
{
    if !(later is Fault) {
        lemma_prefix_chain(y.written(), x.written(), later.written());
    }
}

/// Whether all that sequence `b` does, sequence `a` does too, given the
/// slack: from every state and with every fuel, the outcome of `b` stems
/// from the outcome of `a` with that much more fuel.
pub open spec fn backed(a: Seq<Ir>, b: Seq<Ir>) -> bool {
    forall|st: State, fuel: nat|
        st.tape.wf() ==> stems_from(#[trigger] exec(b, st, fuel), exec(a, st, fuel + slack()))
}

/// Where the first part of an execution stems from the first part of
/// another, and the two go on alike from the state that the first parts
/// leave, the whole of the one stems from the whole of the other.
pub proof fn lemma_stems_on(y: Outcome, x: Outcome, then_y: Outcome, then_x: Outcome)
    requires
        stems_from(y, x),
        y is Done && x == y ==> stems_from(then_y, then_x),
        !(y is Done) ==> then_y == y,
        !(x is Done) ==> then_x == x,
        x is Done ==> x.written().is_prefix_of(then_x.written()),
    ensures
        stems_from(then_y, then_x),
{
    if !(x is Fault) && !(y is Done) && !(then_x is Fault) {
        lemma_prefix_chain(y.written(), x.written(), then_x.written());
    }
}

/// Where a well-nested part of a sequence has given way to one that does
/// nothing but what it does, the whole does nothing but what it did.
pub proof fn lemma_replace_back(
    pre: Seq<Ir>,
    a: Seq<Ir>,
    b: Seq<Ir>,
    post: Seq<Ir>,
    st: State,
    fuel: nat,
)
    requires
        balanced(a),
        balanced(b),
        backed(a, b),
        st.tape.wf(),
    ensures
        stems_from(exec(pre + b + post, st, fuel), exec(pre + a + post, st, fuel + slack())),
    decreases fuel, pre.len() + post.len(), 0int,
{
    let p = pre + a + post;
    let q = pre + b + post;
    let more = fuel + slack();
    lemma_more_fuel(q, st, fuel, fuel);
    if pre.len() == 0 {
        assert(p =~= a + post);
        assert(q =~= b + post);
        lemma_exec_concat(a, post, st, more);
        lemma_exec_concat(b, post, st, fuel);
        let x = exec(a, st, more);
        let y = exec(b, st, fuel);
        assert(stems_from(y, x));
        match y {
            Outcome::Done(next) => {
                lemma_more_fuel(post, next, fuel, more);
                lemma_exec_wf(b, st, fuel);
            },
            _ => {},
        }
        match x {
            Outcome::Done(ahead) => lemma_exec_grows(post, ahead, more),
            _ => {},
        }
        lemma_stems_on(y, x, exec(q, st, fuel), exec(p, st, more));
    } else {
        assert(p[0] == pre[0]);
        assert(q[0] == pre[0]);
        match pre[0] {
            Ir::Open => {
                lemma_find_close_bounds(pre, 1, 1);
                assert(p =~= pre + (a + post));
                assert(q =~= pre + (b + post));
                if find_close(pre, 1, 1) < pre.len() {
                    let close = find_close(pre, 1, 1);
                    lemma_find_close_within(pre, a + post, 1, 1);
                    lemma_find_close_within(pre, b + post, 1, 1);
                    let body = pre.subrange(1, close);
                    assert(p.subrange(1, close) =~= body);
                    assert(q.subrange(1, close) =~= body);
                    assert(p.skip(close + 1) =~= pre.skip(close + 1) + a + post);
                    assert(q.skip(close + 1) =~= pre.skip(close + 1) + b + post);
                    let x = exec_loop(body, st, more);
                    let y = exec_loop(body, st, fuel);
                    lemma_loop_more_fuel(body, st, fuel, more);
                    match y {
                        Outcome::Done(next) => {
                            lemma_exec_loop_wf(body, st, fuel);
                            lemma_replace_back(pre.skip(close + 1), a, b, post, next, fuel);
                        },
                        _ => {},
                    }
                    match x {
                        Outcome::Done(ahead) => lemma_exec_grows(p.skip(close + 1), ahead, more),
                        _ => {},
                    }
                    lemma_stems_on(y, x, exec(q, st, fuel), exec(p, st, more));
                } else {
                    let depth = depth_at_end(pre, 1, 1);
                    lemma_find_close_beyond(pre, a + post, 1, 1);
                    lemma_find_close_beyond(pre, b + post, 1, 1);
                    lemma_find_close_over(a, 0, 0, depth);
                    lemma_find_close_over(b, 0, 0, depth);
                    lemma_find_close_beyond(a, post, 0, depth);
                    lemma_find_close_beyond(b, post, 0, depth);
                    let m = find_close(post, 0, depth);
                    lemma_find_close_bounds(post, 0, depth);
                    let close = matching_close(p, 0);
                    assert(close == pre.len() + a.len() + m);
                    assert(matching_close(q, 0) == pre.len() + b.len() + m);
                    if m < post.len() {
                        let body_p = p.subrange(1, close);
                        let body_q = q.subrange(1, matching_close(q, 0));
                        let rest = post.skip(m + 1);
                        assert(body_p =~= pre.skip(1) + a + post.take(m));
                        assert(body_q =~= pre.skip(1) + b + post.take(m));
                        assert(p.skip(close + 1) =~= rest);
                        assert(q.skip(matching_close(q, 0) + 1) =~= rest);
                        lemma_replace_back_in_loop(pre.skip(1), a, b, post.take(m), st, fuel);
                        let x = exec_loop(body_p, st, more);
                        let y = exec_loop(body_q, st, fuel);
                        match y {
                            Outcome::Done(next) => lemma_more_fuel(rest, next, fuel, more),
                            _ => {},
                        }
                        match x {
                            Outcome::Done(ahead) => lemma_exec_grows(rest, ahead, more),
                            _ => {},
                        }
                        lemma_stems_on(y, x, exec(q, st, fuel), exec(p, st, more));
                    }
                }
            },
            Ir::Close => {},
            ir => {
                assert(p.skip(1) =~= pre.skip(1) + a + post);
                assert(q.skip(1) =~= pre.skip(1) + b + post);
                match perform(ir, st) {
                    Some(next) => {
                        lemma_perform_wf(ir, st);
                        lemma_replace_back(pre.skip(1), a, b, post, next, fuel);
                    },
                    None => {},
                }
            },
        }
    }
}

/// Where a well-nested part of the body of a loop has given way to one that
/// does nothing but what it does, the loop does nothing but what it did.
pub proof fn lemma_replace_back_in_loop(
    pre: Seq<Ir>,
    a: Seq<Ir>,
    b: Seq<Ir>,
    post: Seq<Ir>,
    st: State,
    fuel: nat,
)
    requires
        balanced(a),
        balanced(b),
        backed(a, b),
        st.tape.wf(),
    ensures
        stems_from(
            exec_loop(pre + b + post, st, fuel),
            exec_loop(pre + a + post, st, fuel + slack()),
        ),
    decreases fuel, pre.len() + post.len(), 1int,
{
    let p = pre + a + post;
    let q = pre + b + post;
    let more = fuel + slack();
    lemma_prefix_same(st.output);
    if st.tape.cur() != 0 {
        lemma_exec_loop_grows(p, st, more);
        if fuel > 0 {
            let less = (fuel - 1) as nat;
            let fewer = (more - 1) as nat;
            lemma_replace_back(pre, a, b, post, st, less);
            let x = exec(p, st, fewer);
            let y = exec(q, st, less);
            match y {
                Outcome::Done(next) => {
                    lemma_exec_wf(q, st, less);
                    lemma_replace_back_in_loop(pre, a, b, post, next, less);
                },
                _ => {},
            }
            match x {
                Outcome::Done(ahead) => lemma_exec_loop_grows(p, ahead, fewer),
                _ => {},
            }
            lemma_stems_on(y, x, exec_loop(q, st, fuel), exec_loop(p, st, more));
        }
    }
}

} // verus!
