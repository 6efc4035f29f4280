//! Loops that move the value of their control cell into other cells: the
//! loop-body analyzer, and the pass that replaces such loops by `Copy`, `Mul`
//! and `Clear`.

use vstd::prelude::*;

use crate::optimizer::contract::{cell_delta, move_delta};
use crate::nesting::{is_plain, lemma_plain_balanced, lemma_swap_balanced, lemma_whole_loop};
use crate::syntax::{balanced, find_close, matching_close, push_range, Ast, Dir, Ir};

verus! {

/// Whether an instruction is an `Add`, a `Sub` or a `Shift`.
pub open spec fn is_arith(ir: Ir) -> bool {
    cell_delta(ir) is Some || move_delta(ir) is Some
}

/// Whether a loop body holds nothing but `Add`, `Sub` and `Shift`.
pub open spec fn arith_only(body: Seq<Ir>) -> bool {
    forall|i: int| 0 <= i < body.len() ==> is_arith(#[trigger] body[i])
}

/// How far to the right of where it started the pointer stands after `body`.
pub open spec fn net_move(body: Seq<Ir>) -> int
    decreases body.len(),
{
    if body.len() == 0 {
        0
    } else {
        net_move(body.drop_last()) + match move_delta(body.last()) {
            Some(d) => d,
            None => 0,
        }
    }
}

/// What `body` adds in all, as a signed number that is not reduced modulo
/// 256, to the cell `at` cells to the right of where the pointer started.
pub open spec fn net_change(body: Seq<Ir>, at: int) -> int
    decreases body.len(),
{
    if body.len() == 0 {
        0
    } else {
        net_change(body.drop_last(), at) + match cell_delta(body.last()) {
            Some(d) if net_move(body.drop_last()) == at => d,
            _ => 0,
        }
    }
}

/// The offsets of the cells that `body` adds to or subtracts from, each once,
/// in the order in which `body` first comes to them.
pub open spec fn touched(body: Seq<Ir>) -> Seq<int>
    decreases body.len(),
{
    if body.len() == 0 {
        Seq::empty()
    } else {
        let before = touched(body.drop_last());
        let at = net_move(body.drop_last());
        if cell_delta(body.last()) is Some && !before.contains(at) {
            before.push(at)
        } else {
            before
        }
    }
}

/// Whether the pointer, all through `body`, stays within the distance that
/// one `Shift` can express.
pub open spec fn within_reach(body: Seq<Ir>) -> bool {
    forall|i: int|
        0 <= i <= body.len() ==> -(usize::MAX as int) <= #[trigger] net_move(body.take(i))
            <= usize::MAX
}

/// Whether the net change of every cell but the control cell fits the factor
/// of a `Mul`.
pub open spec fn factors_fit(body: Seq<Ir>) -> bool {
    forall|at: int| at != 0 ==> -128 <= #[trigger] net_change(body, at) <= 127
}

/// Whether a loop with this body has a closed form: the body holds only
/// `Add`, `Sub` and `Shift`, brings the pointer back to where it started and
/// takes exactly one off the control cell; and machine limits hold.
pub open spec fn eligible(body: Seq<Ir>) -> bool {
    &&& arith_only(body)
    &&& net_move(body) == 0
    &&& net_change(body, 0) == -1
    &&& within_reach(body)
    &&& factors_fit(body)
}

/// The instruction that adds the control cell times `change` to the cell at
/// offset `at`; none for the control cell itself and for no change.
pub open spec fn transfer(at: int, change: int) -> Option<Ir> {
    if at == 0 || change == 0 {
        None
    } else {
        let dir = if at < 0 {
            Dir::Left
        } else {
            Dir::Right
        };
        let steps = (if at < 0 {
            -at
        } else {
            at
        }) as usize;
        if change == 1 {
            Some(Ir::Copy(dir, steps))
        } else {
            Some(Ir::Mul(dir, steps, change as i8))
        }
    }
}

/// The transfers of `body` to the cells at `offsets`, in that order.
pub open spec fn transfers(body: Seq<Ir>, offsets: Seq<int>) -> Seq<Ir>
    decreases offsets.len(),
{
    if offsets.len() == 0 {
        Seq::empty()
    } else {
        let before = transfers(body, offsets.drop_last());
        match transfer(offsets.last(), net_change(body, offsets.last())) {
            Some(ir) => before.push(ir),
            None => before,
        }
    }
}

/// What replaces a loop with this body: one transfer for each cell that the
/// body changes, in the order in which the body first comes to them, then
/// `Clear`; `None` where the loop has no closed form.
pub open spec fn collapse(body: Seq<Ir>) -> Option<Seq<Ir>> {
    if eligible(body) {
        Some(transfers(body, touched(body)).push(Ir::Clear))
    } else {
        None
    }
}

/// A cell that `body` never comes to add to or subtract from has no net
/// change.
pub proof fn lemma_untouched(body: Seq<Ir>, at: int)
    requires
        !touched(body).contains(at),
    ensures
        net_change(body, at) == 0,
    decreases body.len(),
{
    if body.len() > 0 {
        let before = touched(body.drop_last());
        let here = net_move(body.drop_last());
        if cell_delta(body.last()) is Some && !before.contains(here) {
            assert(before.push(here)[before.len() as int] == here);
            assert forall|j: int| 0 <= j < before.len() implies before[j] != at by {
                assert(before.push(here)[j] == before[j]);
            }
        }
        lemma_untouched(body.drop_last(), at);
    }
}

/// No offset stands twice among the touched ones.
pub proof fn lemma_touched_distinct(body: Seq<Ir>)
    ensures
        touched(body).no_duplicates(),
    decreases body.len(),
{
    if body.len() > 0 {
        lemma_touched_distinct(body.drop_last());
    }
}

/// The index of the first bracket of `s` at or behind index `k`, or `s.len()`.
pub open spec fn next_bracket(s: Seq<Ir>, k: int) -> int
    decreases s.len() - k,
{
    if k < 0 || k >= s.len() {
        s.len() as int
    } else if s[k] == Ir::Open || s[k] == Ir::Close {
        k
    } else {
        next_bracket(s, k + 1)
    }
}

/// Whether a loop that holds no other loop starts at index `k`.
pub open spec fn plain_loop_at(s: Seq<Ir>, k: int) -> bool {
    &&& 0 <= k < s.len()
    &&& s[k] == Ir::Open
    &&& k < next_bracket(s, k + 1) < s.len()
    &&& s[next_bracket(s, k + 1)] == Ir::Close
}

/// The index of the first loop at or behind index `k` that holds no other
/// loop, or `s.len()`.
pub open spec fn first_plain_loop(s: Seq<Ir>, k: int) -> int
    decreases s.len() - k,
{
    if k < 0 || k >= s.len() {
        s.len() as int
    } else if plain_loop_at(s, k) {
        k
    } else {
        first_plain_loop(s, k + 1)
    }
}

/// `s` with each loop that holds no other loop and has a closed form replaced
/// by that form.
pub open spec fn collapse_loops(s: Seq<Ir>) -> Seq<Ir>
    decreases s.len(),
{
    if plain_loop_at(s, 0) {
        let close = next_bracket(s, 1);
        (match collapse(s.subrange(1, close)) {
            Some(form) => form,
            None => s.take(close + 1),
        }) + collapse_loops(s.skip(close + 1))
    } else if s.len() > 0 {
        seq![s[0]] + collapse_loops(s.skip(1))
    } else {
        s
    }
}

/// The first bracket is found at or behind the index from which it is looked
/// for.
pub proof fn lemma_next_bracket_bounds(s: Seq<Ir>, k: int)
    requires
        0 <= k,
    ensures
        next_bracket(s, k) <= s.len(),
        next_bracket(s, k) < s.len() ==> k <= next_bracket(s, k) && (s[next_bracket(s, k)]
            == Ir::Open || s[next_bracket(s, k)] == Ir::Close),
        forall|j: int| k <= j < next_bracket(s, k) ==> s[j] != Ir::Open && s[j] != Ir::Close,
    decreases s.len() - k,
{
    if k < s.len() && !(s[k] == Ir::Open || s[k] == Ir::Close) {
        lemma_next_bracket_bounds(s, k + 1);
    }
}

/// The first bracket of a suffix is the first bracket of the whole sequence
/// from there.
pub proof fn lemma_next_bracket_skip(s: Seq<Ir>, n: int, k: int)
    requires
        0 <= n <= s.len(),
        0 <= k,
    ensures
        next_bracket(s.skip(n), k) + n == next_bracket(s, k + n),
    decreases s.len() - k,
{
    let t = s.skip(n);
    if k < t.len() {
        assert(t[k] == s[k + n]);
        if !(t[k] == Ir::Open || t[k] == Ir::Close) {
            lemma_next_bracket_skip(s, n, k + 1);
        }
    }
}

/// Before the first loop that holds no other there is no such loop.
proof fn lemma_first_plain_loop(s: Seq<Ir>, k: int)
    requires
        0 <= k,
    ensures
        k <= first_plain_loop(s, k) || first_plain_loop(s, k) == s.len(),
        first_plain_loop(s, k) <= s.len(),
        first_plain_loop(s, k) < s.len() ==> plain_loop_at(s, first_plain_loop(s, k)),
        forall|j: int| k <= j < first_plain_loop(s, k) ==> !plain_loop_at(s, j),
    decreases s.len() - k,
{
    if k < s.len() && !plain_loop_at(s, k) {
        lemma_first_plain_loop(s, k + 1);
    }
}

/// Up to the first loop that holds no other, the pass copies.
proof fn lemma_copy_up_to(s: Seq<Ir>, from: int, to: int)
    requires
        0 <= from <= to <= s.len(),
        forall|j: int| from <= j < to ==> !plain_loop_at(s, j),
    ensures
        collapse_loops(s.skip(from)) == s.subrange(from, to) + collapse_loops(s.skip(to)),
        first_plain_loop(s, from) == first_plain_loop(s, to),
    decreases to - from,
{
    if from < to {
        let t = s.skip(from);
        lemma_next_bracket_skip(s, from, 1);
        lemma_next_bracket_bounds(t, 1);
        assert(t[0] == s[from]);
        assert(!plain_loop_at(s, from));
        assert(!plain_loop_at(t, 0)) by {
            if next_bracket(t, 1) < t.len() {
                assert(t[next_bracket(t, 1)] == s[next_bracket(t, 1) + from]);
            }
        }
        lemma_copy_up_to(s, from + 1, to);
        assert(t.skip(1) =~= s.skip(from + 1));
        assert(seq![s[from]] + s.subrange(from + 1, to) =~= s.subrange(from, to));
        assert(seq![t[0]] + (s.subrange(from + 1, to) + collapse_loops(s.skip(to))) =~= s.subrange(
            from,
            to,
        ) + collapse_loops(s.skip(to)));
    } else {
        assert(s.subrange(from, to) + collapse_loops(s.skip(to)) =~= collapse_loops(s.skip(to)));
    }
}

/// At a loop that holds no other, the pass puts the closed form of the loop,
/// or the loop itself.
proof fn lemma_collapse_at(s: Seq<Ir>, open: int)
    requires
        plain_loop_at(s, open),
    ensures
        collapse_loops(s.skip(open)) == (match collapse(
            s.subrange(open + 1, next_bracket(s, open + 1)),
        ) {
            Some(form) => form,
            None => s.subrange(open, next_bracket(s, open + 1) + 1),
        }) + collapse_loops(s.skip(next_bracket(s, open + 1) + 1)),
{
    let t = s.skip(open);
    let close = next_bracket(s, open + 1);
    lemma_next_bracket_skip(s, open, 1);
    lemma_next_bracket_bounds(s, open + 1);
    assert(t[0] == s[open]);
    assert(t[close - open] == s[close]);
    assert(plain_loop_at(t, 0));
    assert(t.subrange(1, close - open) =~= s.subrange(open + 1, close));
    assert(t.take(close - open + 1) =~= s.subrange(open, close + 1));
    assert(t.skip(close - open + 1) =~= s.skip(close + 1));
}

/// Finds the first loop at or behind `start_index` that holds no other loop,
/// and gives the indices of its `Open` and its `Close`.
pub fn next_unnested_loop(ast: &Ast, start_index: usize) -> (found: Option<(usize, usize)>)
    ensures
        found is Some <==> first_plain_loop(ast@, start_index as int) < ast.len(),
        found matches Some(span) ==> span.0 == first_plain_loop(ast@, start_index as int)
            && span.1 == next_bracket(ast@, span.0 + 1) && start_index <= span.0 < span.1
            < ast.len(),
{
    let mut open_index: usize = start_index;
    let mut k: usize = start_index;
    let mut open_seen: bool = false;
    while k < ast.len()
        invariant
            start_index <= open_index <= k,
            open_seen ==> open_index < k <= ast.len() && ast@[open_index as int] == Ir::Open
                && next_bracket(ast@, open_index + 1) == next_bracket(ast@, k as int),
            first_plain_loop(ast@, start_index as int) == first_plain_loop(
                ast@,
                open_index as int,
            ),
            !open_seen ==> open_index == k,
        decreases ast.len() - k,
    {
        proof {
            lemma_next_bracket_bounds(ast@, open_index + 1);
        }
        match ast[k] {
            Ir::Open => {
                proof {
                    if open_seen {
                        assert forall|j: int| open_index <= j < k implies !plain_loop_at(
                            ast@,
                            j,
                        ) by {}
                        lemma_copy_up_to(ast@, open_index as int, k as int);
                    }
                }
                open_index = k;
                open_seen = true;
            },
            Ir::Close => {
                if open_seen {
                    return Some((open_index, k));
                }
                open_index = k + 1;
            },
            _ => {
                if !open_seen {
                    open_index = k + 1;
                }
            },
        }
        k = k + 1;
    }
    proof {
        if open_seen {
            lemma_next_bracket_bounds(ast@, open_index + 1);
            assert forall|j: int| open_index <= j < ast.len() implies !plain_loop_at(ast@, j) by {}
            lemma_copy_up_to(ast@, open_index as int, ast.len() as int);
        }
    }
    None
}

/// Where the first bracket behind an index is a `Close`, it closes the loop
/// that is open there.
pub proof fn lemma_find_close_plain(s: Seq<Ir>, k: int)
    requires
        0 <= k,
        next_bracket(s, k) < s.len(),
        s[next_bracket(s, k)] == Ir::Close,
    ensures
        find_close(s, k, 1) == next_bracket(s, k),
    decreases s.len() - k,
{
    if k < s.len() && !(s[k] == Ir::Open || s[k] == Ir::Close) {
        lemma_find_close_plain(s, k + 1);
    }
}

/// The `Close` of a loop that holds no other loop is the first bracket
/// behind its `Open`; the loop, taken by itself, is well nested.
pub proof fn lemma_plain_loop(s: Seq<Ir>)
    requires
        plain_loop_at(s, 0),
    ensures
        matching_close(s, 0) == next_bracket(s, 1),
        balanced(s.take(next_bracket(s, 1) + 1)),
        matching_close(s.take(next_bracket(s, 1) + 1), 0) == next_bracket(s, 1),
{
    lemma_find_close_plain(s, 1);
    lemma_whole_loop(s);
}

/// The transfers of a loop body hold no bracket.
pub proof fn lemma_transfers_plain(body: Seq<Ir>, offsets: Seq<int>)
    ensures
        forall|i: int|
            0 <= i < transfers(body, offsets).len() ==> is_plain(
                #[trigger] transfers(body, offsets)[i],
            ),
    decreases offsets.len(),
{
    if offsets.len() > 0 {
        let before = transfers(body, offsets.drop_last());
        lemma_transfers_plain(body, offsets.drop_last());
        assert forall|i: int| 0 <= i < transfers(body, offsets).len() implies is_plain(
            #[trigger] transfers(body, offsets)[i],
        ) by {
            if i < before.len() {
                assert(is_plain(before[i]));
            }
        }
    }
}

/// The closed form of a loop holds no bracket, and so is well nested.
pub proof fn lemma_collapse_balanced(body: Seq<Ir>)
    requires
        collapse(body) is Some,
    ensures
        balanced(collapse(body)->0),
        forall|i: int|
            0 <= i < collapse(body)->0.len() ==> is_plain(#[trigger] collapse(body)->0[i]),
{
    lemma_transfers_plain(body, touched(body));
    lemma_plain_balanced(collapse(body)->0);
}

/// What stands in the place of the loop that `s` starts with, which holds no
/// other loop: its closed form, or the loop itself.
pub open spec fn leading_form(s: Seq<Ir>) -> Seq<Ir> {
    match collapse(s.subrange(1, next_bracket(s, 1))) {
        Some(form) => form,
        None => s.take(next_bracket(s, 1) + 1),
    }
}

/// The pass, run on what stands behind any sequence, leaves the whole well
/// nested.
pub proof fn lemma_collapse_loops_balanced_behind(pre: Seq<Ir>, s: Seq<Ir>)
    requires
        balanced(pre + s),
    ensures
        balanced(pre + collapse_loops(s)),
    decreases s.len(),
{
    if plain_loop_at(s, 0) {
        let close = next_bracket(s, 1);
        let whole = s.take(close + 1);
        let rest = s.skip(close + 1);
        let put = leading_form(s);
        lemma_plain_loop(s);
        assert(pre + s =~= pre + whole + rest);
        if collapse(s.subrange(1, close)) is Some {
            lemma_collapse_balanced(s.subrange(1, close));
        }
        lemma_swap_balanced(pre, whole, put, rest);
        assert(pre + put + rest =~= (pre + put) + rest);
        lemma_collapse_loops_balanced_behind(pre + put, rest);
        assert((pre + put) + collapse_loops(rest) =~= pre + collapse_loops(s));
    } else if s.len() > 0 {
        let rest = s.skip(1);
        assert(pre + s =~= pre.push(s[0]) + rest);
        lemma_collapse_loops_balanced_behind(pre.push(s[0]), rest);
        assert(pre.push(s[0]) + collapse_loops(rest) =~= pre + collapse_loops(s));
    }
}

/// The pass leaves a well-nested program well nested.
pub proof fn lemma_collapse_loops_balanced(s: Seq<Ir>)
    requires
        balanced(s),
    ensures
        balanced(collapse_loops(s)),
{
    assert(Seq::<Ir>::empty() + s =~= s);
    assert(Seq::<Ir>::empty() + collapse_loops(s) =~= collapse_loops(s));
    lemma_collapse_loops_balanced_behind(Seq::empty(), s);
}

/// Whether the pass finds nothing to do in `t`: no loop of `t` that holds no
/// other loop has a closed form.
pub open spec fn settled(t: Seq<Ir>) -> bool {
    forall|i: int| #[trigger]
        plain_loop_at(t, i) ==> collapse(t.subrange(i + 1, next_bracket(t, i + 1))) is None
}

/// Whether a loop that holds no other loop starts at an index of a suffix
/// can be read off the whole sequence, and so can its body.
pub proof fn lemma_plain_loop_skip(t: Seq<Ir>, n: int, i: int)
    requires
        0 <= n <= t.len(),
        0 <= i,
    ensures
        plain_loop_at(t.skip(n), i) == plain_loop_at(t, i + n),
        plain_loop_at(t, i + n) ==> t.skip(n).subrange(i + 1, next_bracket(t.skip(n), i + 1))
            == t.subrange(i + n + 1, next_bracket(t, i + n + 1)),
{
    let u = t.skip(n);
    lemma_next_bracket_skip(t, n, i + 1);
    lemma_next_bracket_bounds(t, i + n + 1);
    lemma_next_bracket_bounds(u, i + 1);
    if i < u.len() {
        assert(u[i] == t[i + n]);
        if next_bracket(t, i + n + 1) < t.len() {
            assert(u[next_bracket(u, i + 1)] == t[next_bracket(t, i + n + 1)]);
            assert(u.subrange(i + 1, next_bracket(u, i + 1)) =~= t.subrange(
                i + n + 1,
                next_bracket(t, i + n + 1),
            ));
        }
    }
}

/// What is left of a sequence in which the pass finds nothing to do is such
/// a sequence.
pub proof fn lemma_settled_skip(t: Seq<Ir>, n: int)
    requires
        0 <= n <= t.len(),
        settled(t),
    ensures
        settled(t.skip(n)),
{
    let u = t.skip(n);
    assert forall|i: int| #[trigger] plain_loop_at(u, i) implies collapse(
        u.subrange(i + 1, next_bracket(u, i + 1)),
    ) is None by {
        lemma_plain_loop_skip(t, n, i);
        assert(plain_loop_at(t, i + n));
    }
}

/// The pass changes nothing in a sequence in which it finds nothing to do.
pub proof fn lemma_collapse_loops_fixed(t: Seq<Ir>)
    requires
        settled(t),
    ensures
        collapse_loops(t) == t,
    decreases t.len(),
{
    if plain_loop_at(t, 0) {
        let close = next_bracket(t, 1);
        lemma_settled_skip(t, close + 1);
        lemma_collapse_loops_fixed(t.skip(close + 1));
        assert(t.take(close + 1) + t.skip(close + 1) =~= t);
    } else if t.len() > 0 {
        lemma_settled_skip(t, 1);
        lemma_collapse_loops_fixed(t.skip(1));
        assert(seq![t[0]] + t.skip(1) =~= t);
    }
}

/// Whether a sequence holds an instruction that is no `Add`, `Sub` or
/// `Shift` before its index `n`.
pub open spec fn other_before(t: Seq<Ir>, n: int) -> bool {
    exists|j: int| 0 <= j < n && j < t.len() && !is_arith(#[trigger] t[j])
}

/// The first bracket behind an index of a sequence that is followed by
/// another: the first in the sequence, if it has one, else the first of what
/// follows.
pub proof fn lemma_next_bracket_concat(a: Seq<Ir>, b: Seq<Ir>, k: int)
    requires
        0 <= k <= a.len(),
    ensures
        next_bracket(a + b, k) == if next_bracket(a, k) < a.len() {
            next_bracket(a, k)
        } else {
            a.len() + next_bracket(b, 0)
        },
    decreases a.len() - k,
{
    if k < a.len() {
        assert((a + b)[k] == a[k]);
        if !(a[k] == Ir::Open || a[k] == Ir::Close) {
            lemma_next_bracket_concat(a, b, k + 1);
        }
    } else {
        assert((a + b).skip(a.len() as int) =~= b);
        lemma_next_bracket_skip(a + b, a.len() as int, 0);
    }
}

/// Behind a sequence without brackets, the first bracket is the first of
/// what follows it.
pub proof fn lemma_next_bracket_behind(a: Seq<Ir>, b: Seq<Ir>, k: int)
    requires
        0 <= k <= a.len(),
        forall|i: int| 0 <= i < a.len() ==> is_plain(#[trigger] a[i]),
    ensures
        next_bracket(a + b, k) == a.len() + next_bracket(b, 0),
    decreases a.len() - k,
{
    if k < a.len() {
        assert((a + b)[k] == a[k]);
        assert(is_plain(a[k]));
        lemma_next_bracket_behind(a, b, k + 1);
    } else {
        assert((a + b).skip(a.len() as int) =~= b);
        lemma_next_bracket_skip(a + b, a.len() as int, 0);
    }
}

/// What the pass makes of a sequence that has no bracket, or whose first
/// bracket is a `Close`: it leaves the sequence as it is up to there.
pub proof fn lemma_collapse_to_close(r: Seq<Ir>)
    requires
        next_bracket(r, 0) >= r.len() || r[next_bracket(r, 0)] == Ir::Close,
    ensures
        next_bracket(collapse_loops(r), 0) == next_bracket(r, 0),
        next_bracket(r, 0) >= r.len() ==> collapse_loops(r) == r,
        next_bracket(r, 0) < r.len() ==> next_bracket(r, 0) < collapse_loops(r).len()
            && collapse_loops(r)[next_bracket(r, 0)] == Ir::Close && collapse_loops(r).take(
            next_bracket(r, 0),
        ) == r.take(next_bracket(r, 0)),
    decreases r.len(),
{
    let k = next_bracket(r, 0);
    let then = collapse_loops(r);
    lemma_next_bracket_bounds(r, 0);
    if r.len() > 0 {
        let rest = r.skip(1);
        let after = collapse_loops(rest);
        assert(!plain_loop_at(r, 0));
        assert(then == seq![r[0]] + after);
        assert(then[0] == r[0]);
        assert(then.skip(1) =~= after);
        if r[0] == Ir::Close {
            assert(then.take(0) =~= r.take(0));
        } else {
            lemma_next_bracket_skip(r, 1, 0);
            lemma_next_bracket_skip(then, 1, 0);
            lemma_next_bracket_bounds(rest, 0);
            if k < r.len() {
                assert(rest[k - 1] == r[k]);
            }
            lemma_collapse_to_close(rest);
            if k < r.len() {
                assert(then[k] == after[k - 1]);
                assert(then.take(k) =~= seq![r[0]] + after.take(k - 1));
                assert(r.take(k) =~= seq![r[0]] + rest.take(k - 1));
            } else {
                assert(seq![r[0]] + rest =~= r);
            }
        }
    }
}

/// What the pass makes of a sequence whose first bracket is an `Open`: its
/// first bracket is no `Close`, unless a closed form stands before it.
pub proof fn lemma_collapse_from_open(r: Seq<Ir>)
    requires
        next_bracket(r, 0) < r.len(),
        r[next_bracket(r, 0)] == Ir::Open,
    ensures
        ({
            let then = collapse_loops(r);
            let n = next_bracket(then, 0);
            n < then.len() && then[n] == Ir::Close ==> other_before(then, n)
        }),
    decreases r.len(),
{
    let then = collapse_loops(r);
    let n = next_bracket(then, 0);
    lemma_next_bracket_bounds(r, 0);
    lemma_next_bracket_bounds(then, 0);
    if plain_loop_at(r, 0) {
        let close = next_bracket(r, 1);
        let rest = r.skip(close + 1);
        let body = r.subrange(1, close);
        if collapse(body) is Some {
            let form = collapse(body)->0;
            lemma_collapse_balanced(body);
            assert(then == form + collapse_loops(rest));
            lemma_next_bracket_behind(form, collapse_loops(rest), 0);
            lemma_next_bracket_bounds(collapse_loops(rest), 0);
            let last = form.len() - 1;
            assert(form[last] == Ir::Clear);
            assert(then[last] == form[last]);
            assert(!is_arith(then[last]));
        } else {
            assert(then[0] == r.take(close + 1)[0]);
        }
    } else if r[0] == Ir::Open {
        assert(then[0] == r[0]);
    } else {
        let rest = r.skip(1);
        let after = collapse_loops(rest);
        let k = next_bracket(r, 0);
        assert(then == seq![r[0]] + after);
        assert(then[0] == r[0]);
        assert(then.skip(1) =~= after);
        lemma_next_bracket_skip(r, 1, 0);
        lemma_next_bracket_skip(then, 1, 0);
        lemma_next_bracket_bounds(rest, 0);
        lemma_next_bracket_bounds(after, 0);
        assert(rest[k - 1] == r[k]);
        lemma_collapse_from_open(rest);
        let m = next_bracket(after, 0);
        if n < then.len() && then[n] == Ir::Close {
            assert(after[m] == then[m + 1]);
            let j = choose|j: int| 0 <= j < m && j < after.len() && !is_arith(#[trigger] after[j]);
            assert(then[j + 1] == after[j]);
            assert(!is_arith(then[j + 1]));
        }
    }
}

/// The pass finds nothing to do in a sequence if it finds nothing to do in
/// what is left of it behind some index, and no loop that it could do
/// something about starts before that index.
pub proof fn lemma_settled_behind(t: Seq<Ir>, n: int)
    requires
        0 <= n <= t.len(),
        settled(t.skip(n)),
        forall|i: int|
            0 <= i < n && #[trigger] plain_loop_at(t, i) ==> collapse(
                t.subrange(i + 1, next_bracket(t, i + 1)),
            ) is None,
    ensures
        settled(t),
{
    assert forall|i: int| #[trigger] plain_loop_at(t, i) implies collapse(
        t.subrange(i + 1, next_bracket(t, i + 1)),
    ) is None by {
        if i >= n {
            lemma_plain_loop_skip(t, n, i - n);
            assert(plain_loop_at(t.skip(n), i - n));
        }
    }
}

/// A body that holds an instruction that is no `Add`, `Sub` or `Shift` has
/// no closed form.
pub proof fn lemma_other_no_form(t: Seq<Ir>, n: int)
    requires
        0 <= n <= t.len(),
        other_before(t, n),
    ensures
        collapse(t.take(n)) is None,
{
    let j = choose|j: int| 0 <= j < n && j < t.len() && !is_arith(#[trigger] t[j]);
    assert(t.take(n)[j] == t[j]);
    assert(!is_arith(t.take(n)[j]));
}

/// The pass finds nothing to do in what it has made of a sequence.
pub proof fn lemma_collapse_loops_settled(s: Seq<Ir>)
    ensures
        settled(collapse_loops(s)),
    decreases s.len(),
{
    let once = collapse_loops(s);
    if plain_loop_at(s, 0) {
        let close = next_bracket(s, 1);
        let body = s.subrange(1, close);
        let rest = s.skip(close + 1);
        let put = leading_form(s);
        let after = collapse_loops(rest);
        lemma_collapse_loops_settled(rest);
        lemma_next_bracket_bounds(s, 1);
        assert(once == put + after);
        assert(once.skip(put.len() as int) =~= after);
        if collapse(body) is Some {
            lemma_collapse_balanced(body);
            assert forall|i: int| 0 <= i < put.len() implies !#[trigger] plain_loop_at(
                once,
                i,
            ) by {
                assert(once[i] == put[i]);
                assert(is_plain(put[i]));
            }
        } else {
            lemma_leading_loop_kept(s, after);
        }
        lemma_settled_behind(once, put.len() as int);
    } else if s.len() > 0 {
        let rest = s.skip(1);
        let after = collapse_loops(rest);
        lemma_collapse_loops_settled(rest);
        assert(once == seq![s[0]] + after);
        assert(once[0] == s[0]);
        assert(once.skip(1) =~= after);
        if plain_loop_at(once, 0) {
            lemma_lone_open(s);
        }
        lemma_settled_behind(once, 1);
    } else {
        assert(once =~= s);
    }
}

/// A loop that the pass has left as it is stands where it stood, with the
/// body that it had, and no other loop starts within it.
proof fn lemma_leading_loop_kept(s: Seq<Ir>, after: Seq<Ir>)
    requires
        plain_loop_at(s, 0),
        collapse(s.subrange(1, next_bracket(s, 1))) is None,
    ensures
        ({
            let whole = s.take(next_bracket(s, 1) + 1);
            forall|i: int|
                0 <= i < whole.len() && #[trigger] plain_loop_at(whole + after, i) ==> collapse(
                    (whole + after).subrange(i + 1, next_bracket(whole + after, i + 1)),
                ) is None
        }),
{
    let close = next_bracket(s, 1);
    let whole = s.take(close + 1);
    let once = whole + after;
    lemma_next_bracket_bounds(s, 1);
    assert(s =~= whole + s.skip(close + 1));
    lemma_next_bracket_bounds(whole, 1);
    lemma_next_bracket_concat(whole, s.skip(close + 1), 1);
    lemma_next_bracket_concat(whole, after, 1);
    assert forall|i: int| 0 <= i < whole.len() && #[trigger] plain_loop_at(
        once,
        i,
    ) implies collapse(once.subrange(i + 1, next_bracket(once, i + 1))) is None by {
        assert(once[i] == s[i]);
        assert(i == 0);
        assert(once.subrange(1, close) =~= s.subrange(1, close));
    }
}

/// Where an `Open` that the pass has left alone has come to stand before a
/// `Close` with no bracket between them, a closed form stands between
/// them, and the loop that they make has no closed form.
proof fn lemma_lone_open(s: Seq<Ir>)
    requires
        s.len() > 0,
        !plain_loop_at(s, 0),
        plain_loop_at(seq![s[0]] + collapse_loops(s.skip(1)), 0),
    ensures
        ({
            let once = seq![s[0]] + collapse_loops(s.skip(1));
            collapse(once.subrange(1, next_bracket(once, 1))) is None
        }),
{
    let rest = s.skip(1);
    let after = collapse_loops(rest);
    let once = seq![s[0]] + after;
    let k = next_bracket(rest, 0);
    let n = next_bracket(after, 0);
    assert(once[0] == s[0]);
    assert(once.skip(1) =~= after);
    lemma_next_bracket_skip(once, 1, 0);
    lemma_next_bracket_skip(s, 1, 0);
    lemma_next_bracket_bounds(rest, 0);
    lemma_next_bracket_bounds(after, 0);
    assert(after[n] == once[n + 1]);
    if k >= rest.len() || rest[k] == Ir::Close {
        lemma_collapse_to_close(rest);
        if k < rest.len() {
            assert(rest[k] == s[k + 1]);
        }
    } else {
        lemma_collapse_from_open(rest);
        lemma_other_no_form(after, n);
        assert(once.subrange(1, n + 1) =~= after.take(n));
    }
}

/// Running the pass twice gives what running it once gives.
pub proof fn lemma_collapse_loops_idempotent(s: Seq<Ir>)
    ensures
        collapse_loops(collapse_loops(s)) == collapse_loops(s),
{
    lemma_collapse_loops_settled(s);
    lemma_collapse_loops_fixed(collapse_loops(s));
}

/// Finds `at` among `offsets`.
fn find_offset(offsets: &Vec<i128>, at: i128) -> (found: Option<usize>)
    ensures
        found matches Some(j) ==> j < offsets.len() && offsets[j as int] == at,
        found is None ==> forall|j: int| 0 <= j < offsets.len() ==> offsets[j] != at,
{
    let mut j: usize = 0;
    while j < offsets.len()
        invariant
            j <= offsets.len(),
            forall|k: int| 0 <= k < j ==> offsets[k] != at,
        decreases offsets.len() - j,
    {
        if offsets[j] == at {
            return Some(j);
        }
        j = j + 1;
    }
    None
}

/// Whether `offsets` and `changes` hold the touched offsets of `body` and
/// the net change of each.
spec fn tracks(body: Seq<Ir>, offsets: Seq<i128>, changes: Seq<i128>) -> bool {
    &&& offsets.len() == touched(body).len()
    &&& changes.len() == touched(body).len()
    &&& forall|j: int|
        0 <= j < offsets.len() ==> (#[trigger] offsets[j]) == touched(body)[j] && -(
        usize::MAX as int) <= offsets[j] <= usize::MAX
    &&& forall|j: int|
        0 <= j < changes.len() ==> (#[trigger] changes[j]) == net_change(body, touched(body)[j])
            && -255 * body.len() <= changes[j] <= 255 * body.len()
}

/// A `Shift` changes no cell.
proof fn lemma_tracks_move(body: Seq<Ir>, offsets: Seq<i128>, changes: Seq<i128>)
    requires
        body.len() > 0,
        move_delta(body.last()) is Some,
        tracks(body.drop_last(), offsets, changes),
    ensures
        tracks(body, offsets, changes),
{
}

/// An `Add` or `Sub` at an offset that was touched before changes the net
/// change of that offset alone.
proof fn lemma_tracks_again(body: Seq<Ir>, offsets: Seq<i128>, changes: Seq<i128>, j: int)
    requires
        body.len() > 0,
        cell_delta(body.last()) is Some,
        tracks(body.drop_last(), offsets, changes),
        0 <= j < offsets.len(),
        offsets[j] == net_move(body.drop_last()),
        body.len() <= usize::MAX,
    ensures
        tracks(
            body,
            offsets,
            changes.update(j, (changes[j] + cell_delta(body.last())->0) as i128),
        ),
{
    let before = body.drop_last();
    let here = net_move(before);
    lemma_touched_distinct(before);
    assert(touched(before)[j] == here);
    assert(touched(before).contains(here));
    let after = changes.update(j, (changes[j] + cell_delta(body.last())->0) as i128);
    assert forall|k: int| 0 <= k < after.len() implies (#[trigger] after[k]) == net_change(
        body,
        touched(body)[k],
    ) && -255 * body.len() <= after[k] <= 255 * body.len() by {
        assert(changes[k] == net_change(before, touched(before)[k]));
        if k != j {
            assert(touched(before)[k] != touched(before)[j]);
        }
    }
}

/// An `Add` or `Sub` at an offset that was not touched before adds that
/// offset to the touched ones.
proof fn lemma_tracks_first(body: Seq<Ir>, offsets: Seq<i128>, changes: Seq<i128>)
    requires
        body.len() > 0,
        cell_delta(body.last()) is Some,
        tracks(body.drop_last(), offsets, changes),
        -(usize::MAX as int) <= net_move(body.drop_last()) <= usize::MAX,
        forall|j: int| 0 <= j < offsets.len() ==> offsets[j] != net_move(body.drop_last()),
    ensures
        tracks(
            body,
            offsets.push(net_move(body.drop_last()) as i128),
            changes.push(cell_delta(body.last())->0 as i128),
        ),
{
    let before = body.drop_last();
    let here = net_move(before);
    assert(!touched(before).contains(here)) by {
        if touched(before).contains(here) {
            let j = choose|j: int| 0 <= j < touched(before).len() && touched(before)[j] == here;
            assert(offsets[j] == touched(before)[j]);
        }
    }
    lemma_untouched(before, here);
    let offsets2 = offsets.push(here as i128);
    let changes2 = changes.push(cell_delta(body.last())->0 as i128);
    assert forall|k: int| 0 <= k < changes2.len() implies (#[trigger] changes2[k]) == net_change(
        body,
        touched(body)[k],
    ) && -255 * body.len() <= changes2[k] <= 255 * body.len() by {
        if k < changes.len() {
            assert(changes[k] == net_change(before, touched(before)[k]));
            assert(offsets[k] == touched(before)[k]);
        }
    }
    assert forall|k: int| 0 <= k < offsets2.len() implies (#[trigger] offsets2[k]) == touched(
        body,
    )[k] && -(usize::MAX as int) <= offsets2[k] <= usize::MAX by {
        if k < offsets.len() {
            assert(offsets[k] == touched(before)[k]);
        }
    }
}

/// Computes the instruction that adds the control cell times `change` to the
/// cell at offset `at`.
fn transfer_op(at: i128, change: i128) -> (op: Option<Ir>)
    requires
        -(usize::MAX as int) <= at <= usize::MAX,
        at != 0 ==> -128 <= change <= 127,
    ensures
        op == transfer(at as int, change as int),
{
    if at == 0 || change == 0 {
        None
    } else {
        let dir = if at < 0 {
            Dir::Left
        } else {
            Dir::Right
        };
        let steps = if at < 0 {
            (-at) as usize
        } else {
            at as usize
        };
        if change == 1 {
            Some(Ir::Copy(dir, steps))
        } else {
            Some(Ir::Mul(dir, steps, change as i8))
        }
    }
}

/// Analyzes the body of a loop that holds no other loop. Where the body holds
/// only `Add`, `Sub` and `Shift`, brings the pointer back to where it started
/// and takes exactly one off the control cell, gives the instructions that do
/// at once what the loop does; else `None`.
pub fn replace_mul_copy_loop(body: &Ast) -> (form: Option<Ast>)
    ensures
        form is Some <==> collapse(body@) is Some,
        form matches Some(ops) ==> Some(ops@) == collapse(body@),
{
    let mut offsets: Vec<i128> = Vec::new();
    let mut changes: Vec<i128> = Vec::new();
    let mut at: i128 = 0;
    let mut i: usize = 0;
    let reach: i128 = usize::MAX as i128;
    while i < body.len()
        invariant
            i <= body.len(),
            reach == usize::MAX,
            forall|k: int| 0 <= k < i ==> is_arith(#[trigger] body@[k]),
            forall|n: int| 0 <= n <= i ==> -reach <= #[trigger] net_move(body@.take(n)) <= reach,
            at == net_move(body@.take(i as int)),
            tracks(body@.take(i as int), offsets@, changes@),
        decreases body.len() - i,
    {
        let ghost before = body@.take(i as int);
        let ghost after = body@.take(i + 1);
        proof {
            assert(after.drop_last() =~= before);
            assert(after.last() == body@[i as int]);
        }
        let cell_change: Option<i128> = match body[i] {
            Ir::Add(n) => Some(n as i128),
            Ir::Sub(n) => Some(-(n as i128)),
            Ir::Shift(dir, steps) => {
                at = match dir {
                    Dir::Left => at - steps as i128,
                    Dir::Right => at + steps as i128,
                };
                if at < -reach || at > reach {
                    proof {
                        assert(net_move(after) == at);
                        assert(!within_reach(body@));
                    }
                    return None;
                }
                proof {
                    lemma_tracks_move(after, offsets@, changes@);
                }
                None
            },
            _ => {
                proof {
                    assert(!is_arith(body@[i as int]));
                }
                return None;
            },
        };
        match cell_change {
            Some(change) => match find_offset(&offsets, at) {
                Some(j) => {
                    proof {
                        lemma_tracks_again(after, offsets@, changes@, j as int);
                    }
                    let sum = changes[j] + change;
                    changes.set(j, sum);
                },
                None => {
                    proof {
                        lemma_tracks_first(after, offsets@, changes@);
                    }
                    offsets.push(at);
                    changes.push(change);
                },
            },
            None => {},
        }
        i = i + 1;
    }
    proof {
        assert(body@.take(body.len() as int) =~= body@);
        assert(arith_only(body@));
        assert(within_reach(body@));
    }
    if at != 0 {
        return None;
    }
    match find_offset(&offsets, 0) {
        Some(j) => {
            if changes[j] != -1 {
                return None;
            }
        },
        None => {
            proof {
                assert(!touched(body@).contains(0)) by {
                    if touched(body@).contains(0) {
                        let j = choose|j: int|
                            0 <= j < touched(body@).len() && touched(body@)[j] == 0;
                        assert(offsets@[j] == touched(body@)[j]);
                    }
                }
                lemma_untouched(body@, 0);
            }
            return None;
        },
    }
    let mut j: usize = 0;
    while j < offsets.len()
        invariant
            j <= offsets.len(),
            tracks(body@, offsets@, changes@),
            forall|k: int|
                0 <= k < j && offsets@[k] != 0 ==> -128 <= (#[trigger] changes@[k]) <= 127,
        decreases offsets.len() - j,
    {
        if offsets[j] != 0 && (changes[j] < -128 || changes[j] > 127) {
            proof {
                assert(changes@[j as int] == net_change(body@, touched(body@)[j as int]));
                assert(offsets@[j as int] == touched(body@)[j as int]);
            }
            return None;
        }
        j = j + 1;
    }
    proof {
        assert forall|at: int| at != 0 implies -128 <= #[trigger] net_change(body@, at) <= 127 by {
            if touched(body@).contains(at) {
                let k = choose|k: int| 0 <= k < touched(body@).len() && touched(body@)[k] == at;
                assert(offsets@[k] == touched(body@)[k]);
                assert(changes@[k] == net_change(body@, touched(body@)[k]));
            } else {
                lemma_untouched(body@, at);
            }
        }
        assert(eligible(body@));
    }
    let mut ops: Vec<Ir> = Vec::new();
    let mut j: usize = 0;
    while j < offsets.len()
        invariant
            j <= offsets.len(),
            tracks(body@, offsets@, changes@),
            forall|k: int| 0 <= k < offsets.len() && offsets@[k] != 0 ==> -128 <= (
            #[trigger] changes@[k]) <= 127,
            ops@ == transfers(body@, touched(body@).take(j as int)),
        decreases offsets.len() - j,
    {
        proof {
            assert(touched(body@).take(j + 1).drop_last() =~= touched(body@).take(j as int));
            assert(changes@[j as int] == net_change(body@, touched(body@)[j as int]));
            assert(offsets@[j as int] == touched(body@)[j as int]);
        }
        match transfer_op(offsets[j], changes[j]) {
            Some(op) => {
                ops.push(op);
            },
            None => {},
        }
        j = j + 1;
    }
    proof {
        assert(touched(body@).take(offsets.len() as int) =~= touched(body@));
    }
    ops.push(Ir::Clear);
    Some(ops)
}

/// Replaces each loop that holds no other loop and moves the value of its
/// control cell into other cells by the `Copy` and `Mul` instructions that do
/// the same at once, followed by `Clear`. Every other loop stays as it is.
pub fn copy_mul_div_loop_opt(ast: &Ast) -> (opt: Ast)
    ensures
        opt@ == collapse_loops(ast@),
        balanced(ast@) ==> balanced(opt@),
{
    let mut opt: Vec<Ir> = Vec::new();
    let mut start: usize = 0;
    let mut searching: bool = true;
    proof {
        assert(ast@.skip(0) =~= ast@);
    }
    while searching
        invariant
            start <= ast.len(),
            searching ==> opt@ + collapse_loops(ast@.skip(start as int)) == collapse_loops(ast@),
            !searching ==> opt@ == collapse_loops(ast@),
        decreases ast.len() - start, if searching { 1int } else { 0int },
    {
        match next_unnested_loop(ast, start) {
            Some((open, close)) => {
                proof {
                    lemma_first_plain_loop(ast@, start as int);
                    lemma_copy_up_to(ast@, start as int, open as int);
                    lemma_collapse_at(ast@, open as int);
                }
                let ghost head = opt@;
                push_range(&mut opt, ast, start, open);
                let mut body: Vec<Ir> = Vec::new();
                push_range(&mut body, ast, open + 1, close);
                proof {
                    assert(body@ =~= ast@.subrange(open + 1, close as int));
                }
                let ghost form: Seq<Ir>;
                match replace_mul_copy_loop(&body) {
                    Some(ops) => {
                        proof {
                            form = ops@;
                        }
                        push_range(&mut opt, &ops, 0, ops.len());
                        proof {
                            assert(ops@.subrange(0, ops.len() as int) =~= ops@);
                        }
                    },
                    None => {
                        proof {
                            form = ast@.subrange(open as int, close + 1);
                        }
                        push_range(&mut opt, ast, open, close + 1);
                    },
                }
                proof {
                    let rest = collapse_loops(ast@.skip(close + 1));
                    assert((head + ast@.subrange(start as int, open as int) + form) + rest =~= head
                        + (ast@.subrange(start as int, open as int) + (form + rest)));
                }
                start = close + 1;
            },
            None => {
                proof {
                    lemma_first_plain_loop(ast@, start as int);
                    lemma_copy_up_to(ast@, start as int, ast.len() as int);
                    assert(ast@.subrange(start as int, ast.len() as int) + collapse_loops(
                        ast@.skip(ast.len() as int),
                    ) =~= ast@.subrange(start as int, ast.len() as int));
                }
                push_range(&mut opt, ast, start, ast.len());
                searching = false;
            },
        }
    }
    proof {
        if balanced(ast@) {
            lemma_collapse_loops_balanced(ast@);
        }
    }
    opt
}

} // verus!
