//! How loops nest: where the `Close` of a loop stands, and which parts of a
//! well-nested sequence are well nested.

use vstd::prelude::*;

use crate::syntax::{
    balanced, balanced_from, find_close, lemma_find_close_bounds, lemma_find_close_skip,
    matching_close, Ir,
};

verus! {

/// The depth at the end of `s`, for a scan that starts at index `k` with
/// `depth` loops open and finds no `Close` for the outermost of them.
pub open spec fn depth_at_end(s: Seq<Ir>, k: int, depth: nat) -> nat
    decreases s.len() - k,
{
    if k < 0 || k >= s.len() {
        depth
    } else {
        match s[k] {
            Ir::Open => depth_at_end(s, k + 1, depth + 1),
            Ir::Close => depth_at_end(s, k + 1, (depth - 1) as nat),
            _ => depth_at_end(s, k + 1, depth),
        }
    }
}

/// A `Close` that is found within a sequence is found there whatever
/// follows the sequence.
pub proof fn lemma_find_close_within(a: Seq<Ir>, b: Seq<Ir>, k: int, depth: nat)
    requires
        0 <= k,
        find_close(a, k, depth) < a.len(),
    ensures
        find_close(a + b, k, depth) == find_close(a, k, depth),
    decreases a.len() - k,
{
    if k < a.len() && depth > 0 {
        assert((a + b)[k] == a[k]);
        match a[k] {
            Ir::Open => lemma_find_close_within(a, b, k + 1, depth + 1),
            Ir::Close => if depth > 1 {
                lemma_find_close_within(a, b, k + 1, (depth - 1) as nat)
            },
            _ => lemma_find_close_within(a, b, k + 1, depth),
        }
    }
}

/// A scan that finds no `Close` within a sequence goes on behind it, at the
/// depth that it has reached.
pub proof fn lemma_find_close_beyond(a: Seq<Ir>, b: Seq<Ir>, k: int, depth: nat)
    requires
        0 <= k <= a.len(),
        depth >= 1,
        find_close(a, k, depth) == a.len(),
    ensures
        depth_at_end(a, k, depth) >= 1,
        find_close(a + b, k, depth) == a.len() + find_close(b, 0, depth_at_end(a, k, depth)),
    decreases a.len() - k,
{
    if k < a.len() {
        assert((a + b)[k] == a[k]);
        match a[k] {
            Ir::Open => lemma_find_close_beyond(a, b, k + 1, depth + 1),
            Ir::Close => {
                lemma_find_close_beyond(a, b, k + 1, (depth - 1) as nat);
            },
            _ => lemma_find_close_beyond(a, b, k + 1, depth),
        }
    } else {
        assert((a + b).skip(a.len() as int) =~= b);
        lemma_find_close_skip(a + b, a.len() as int, 0, depth);
    }
}

/// A scan passes over a well-nested sequence and leaves it at the depth at
/// which it came.
pub proof fn lemma_find_close_over(s: Seq<Ir>, k: int, inner: nat, outer: nat)
    requires
        0 <= k,
        outer >= 1,
        balanced_from(s, k, inner),
    ensures
        find_close(s, k, inner + outer) == s.len(),
        depth_at_end(s, k, inner + outer) == outer,
    decreases s.len() - k,
{
    if k < s.len() {
        match s[k] {
            Ir::Open => lemma_find_close_over(s, k + 1, inner + 1, outer),
            Ir::Close => lemma_find_close_over(s, k + 1, (inner - 1) as nat, outer),
            _ => lemma_find_close_over(s, k + 1, inner, outer),
        }
    }
}

/// In a well-nested sequence the loops that are open are closed, and what
/// follows the last `Close` of them is well nested.
pub proof fn lemma_find_close_balanced(s: Seq<Ir>, k: int, depth: nat)
    requires
        0 <= k,
        depth >= 1,
        balanced_from(s, k, depth),
    ensures
        k <= find_close(s, k, depth) < s.len(),
        balanced_from(s, find_close(s, k, depth) + 1, 0),
    decreases s.len() - k,
{
    if k < s.len() {
        match s[k] {
            Ir::Open => lemma_find_close_balanced(s, k + 1, depth + 1),
            Ir::Close => if depth > 1 {
                lemma_find_close_balanced(s, k + 1, (depth - 1) as nat)
            },
            _ => lemma_find_close_balanced(s, k + 1, depth),
        }
    }
}

/// Whether a suffix is well nested can be read off the whole sequence.
pub proof fn lemma_balanced_skip(s: Seq<Ir>, n: int, k: int, depth: nat)
    requires
        0 <= n <= s.len(),
        0 <= k,
    ensures
        balanced_from(s.skip(n), k, depth) == balanced_from(s, k + n, depth),
    decreases s.len() - k,
{
    let t = s.skip(n);
    if k < t.len() {
        assert(t[k] == s[k + n]);
        match t[k] {
            Ir::Open => lemma_balanced_skip(s, n, k + 1, depth + 1),
            Ir::Close => if depth > 0 {
                lemma_balanced_skip(s, n, k + 1, (depth - 1) as nat)
            },
            _ => lemma_balanced_skip(s, n, k + 1, depth),
        }
    }
}

/// What stands before the `Close` that a scan finds is well nested.
pub proof fn lemma_balanced_before_close(s: Seq<Ir>, k: int, depth: nat)
    requires
        0 <= k,
        depth >= 1,
        find_close(s, k, depth) < s.len(),
    ensures
        balanced_from(s.take(find_close(s, k, depth)), k, (depth - 1) as nat),
    decreases s.len() - k,
{
    let close = find_close(s, k, depth);
    let t = s.take(close);
    lemma_find_close_bounds(s, k, depth);
    if k < s.len() {
        match s[k] {
            Ir::Open => {
                lemma_find_close_bounds(s, k + 1, depth + 1);
                lemma_balanced_before_close(s, k + 1, depth + 1);
                assert(t[k] == s[k]);
            },
            Ir::Close => if depth > 1 {
                lemma_find_close_bounds(s, k + 1, (depth - 1) as nat);
                lemma_balanced_before_close(s, k + 1, (depth - 1) as nat);
                assert(t[k] == s[k]);
            },
            _ => {
                lemma_find_close_bounds(s, k + 1, depth);
                lemma_balanced_before_close(s, k + 1, depth);
                assert(t[k] == s[k]);
            },
        }
    }
}

/// Behind a sequence that closes the loops it opens, what follows is read
/// at the depth at which the sequence was come to.
pub proof fn lemma_balanced_concat(a: Seq<Ir>, b: Seq<Ir>, k: int, inner: nat, outer: nat)
    requires
        0 <= k <= a.len(),
        balanced_from(a, k, inner),
    ensures
        balanced_from(a + b, k, inner + outer) == balanced_from(b, 0, outer),
    decreases a.len() - k,
{
    if k < a.len() {
        assert((a + b)[k] == a[k]);
        match a[k] {
            Ir::Open => lemma_balanced_concat(a, b, k + 1, inner + 1, outer),
            Ir::Close => lemma_balanced_concat(a, b, k + 1, (inner - 1) as nat, outer),
            _ => lemma_balanced_concat(a, b, k + 1, inner, outer),
        }
    } else {
        assert((a + b).skip(a.len() as int) =~= b);
        lemma_balanced_skip(a + b, a.len() as int, 0, outer);
    }
}

/// A well-nested part of a sequence may give way to another well-nested
/// sequence: the whole stays well nested.
pub proof fn lemma_swap_balanced(pre: Seq<Ir>, a: Seq<Ir>, b: Seq<Ir>, post: Seq<Ir>)
    requires
        balanced(a),
        balanced(b),
        balanced(pre + a + post),
    ensures
        balanced(pre + b + post),
{
    lemma_swap_balanced_from(pre, a, b, post, 0, 0);
}

/// The same from any index of what stands before the part, at any depth.
proof fn lemma_swap_balanced_from(
    pre: Seq<Ir>,
    a: Seq<Ir>,
    b: Seq<Ir>,
    post: Seq<Ir>,
    k: int,
    depth: nat,
)
    requires
        0 <= k <= pre.len(),
        balanced(a),
        balanced(b),
        balanced_from(pre + a + post, k, depth),
    ensures
        balanced_from(pre + b + post, k, depth),
    decreases pre.len() - k,
{
    let p = pre + a + post;
    let q = pre + b + post;
    if k < pre.len() {
        assert(p[k] == pre[k]);
        assert(q[k] == pre[k]);
        match pre[k] {
            Ir::Open => lemma_swap_balanced_from(pre, a, b, post, k + 1, depth + 1),
            Ir::Close => lemma_swap_balanced_from(pre, a, b, post, k + 1, (depth - 1) as nat),
            _ => lemma_swap_balanced_from(pre, a, b, post, k + 1, depth),
        }
    } else {
        assert(p.skip(k) =~= a + post);
        assert(q.skip(k) =~= b + post);
        lemma_balanced_skip(p, k, 0, depth);
        lemma_balanced_skip(q, k, 0, depth);
        lemma_balanced_concat(a, post, 0, 0, depth);
        lemma_balanced_concat(b, post, 0, 0, depth);
    }
}

/// The parts of a well-nested sequence that starts with a loop: the loop has
/// its `Close`, and its body and what follows it are well nested.
pub proof fn lemma_loop_parts(p: Seq<Ir>)
    requires
        p.len() > 0,
        p[0] == Ir::Open,
        balanced(p),
    ensures
        1 <= matching_close(p, 0) < p.len(),
        balanced(p.subrange(1, matching_close(p, 0))),
        balanced(p.skip(matching_close(p, 0) + 1)),
{
    let close = matching_close(p, 0);
    lemma_find_close_balanced(p, 1, 1);
    lemma_balanced_skip(p, close + 1, 0, 0);
    lemma_balanced_before_close(p, 1, 1);
    lemma_balanced_skip(p.take(close), 1, 0, 0);
    assert(p.take(close).skip(1) =~= p.subrange(1, close));
}

/// What is left of a well-nested sequence behind its first instruction, if
/// that is no bracket, is well nested.
pub proof fn lemma_tail_balanced(p: Seq<Ir>)
    requires
        p.len() > 0,
        p[0] != Ir::Open,
        balanced(p),
    ensures
        p[0] != Ir::Close,
        balanced(p.skip(1)),
{
    lemma_balanced_skip(p, 1, 0, 0);
}

/// A `Close` that is found within the first part of a sequence is found in
/// that part alone.
pub proof fn lemma_find_close_prefix(a: Seq<Ir>, b: Seq<Ir>, k: int, depth: nat)
    requires
        0 <= k <= a.len(),
        depth >= 1,
        find_close(a + b, k, depth) < a.len(),
    ensures
        find_close(a, k, depth) == find_close(a + b, k, depth),
{
    lemma_find_close_bounds(a, k, depth);
    if find_close(a, k, depth) < a.len() {
        lemma_find_close_within(a, b, k, depth);
    } else {
        lemma_find_close_beyond(a, b, k, depth);
        lemma_find_close_bounds(b, 0, depth_at_end(a, k, depth));
    }
}

/// What stands up to the `Close` that a scan finds, that `Close` included,
/// closes the loops that were open.
pub proof fn lemma_balanced_to_close(s: Seq<Ir>, k: int, depth: nat)
    requires
        0 <= k,
        depth >= 1,
        find_close(s, k, depth) < s.len(),
    ensures
        balanced_from(s.take(find_close(s, k, depth) + 1), k, depth),
    decreases s.len() - k,
{
    let close = find_close(s, k, depth);
    let t = s.take(close + 1);
    lemma_find_close_bounds(s, k, depth);
    if k < s.len() {
        assert(t[k] == s[k]);
        match s[k] {
            Ir::Open => {
                lemma_balanced_to_close(s, k + 1, depth + 1);
            },
            Ir::Close => if depth > 1 {
                lemma_balanced_to_close(s, k + 1, (depth - 1) as nat);
            } else {
                assert(balanced_from(t, k + 1, 0));
            },
            _ => {
                lemma_balanced_to_close(s, k + 1, depth);
            },
        }
    }
}

/// The loop that a sequence starts with, taken by itself: it is well nested,
/// and its `Close` is its last instruction.
pub proof fn lemma_whole_loop(s: Seq<Ir>)
    requires
        s.len() > 0,
        s[0] == Ir::Open,
        1 <= matching_close(s, 0) < s.len(),
    ensures
        balanced(s.take(matching_close(s, 0) + 1)),
        matching_close(s.take(matching_close(s, 0) + 1), 0) == matching_close(s, 0),
{
    let close = matching_close(s, 0);
    let whole = s.take(close + 1);
    lemma_balanced_to_close(s, 1, 1);
    assert(whole[0] == s[0]);
    assert(s =~= whole + s.skip(close + 1));
    lemma_find_close_prefix(whole, s.skip(close + 1), 1, 1);
}

/// Whether an instruction is neither `Open` nor `Close`.
pub open spec fn is_plain(ir: Ir) -> bool {
    ir != Ir::Open && ir != Ir::Close
}

/// A sequence without brackets is well nested.
pub proof fn lemma_plain_balanced(s: Seq<Ir>)
    requires
        forall|i: int| 0 <= i < s.len() ==> is_plain(#[trigger] s[i]),
    ensures
        balanced(s),
{
    lemma_plain_balanced_from(s, 0);
}

/// The same from any index of the sequence.
proof fn lemma_plain_balanced_from(s: Seq<Ir>, k: int)
    requires
        0 <= k,
        forall|i: int| 0 <= i < s.len() ==> is_plain(#[trigger] s[i]),
    ensures
        balanced_from(s, k, 0),
    decreases s.len() - k,
{
    if k < s.len() {
        assert(is_plain(s[k]));
        lemma_plain_balanced_from(s, k + 1);
    }
}

/// A loop of one instruction that is no bracket is well nested.
pub proof fn lemma_unit_loop_balanced(x: Ir)
    requires
        is_plain(x),
    ensures
        balanced(seq![Ir::Open, x, Ir::Close]),
{
    reveal_with_fuel(balanced_from, 4);
}

} // verus!
