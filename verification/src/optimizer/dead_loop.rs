//! Removal of loops that can never run: those at the start of a program,
//! where every cell is zero, and those that follow another loop at once,
//! which ended on a zero cell.

use vstd::prelude::*;

use crate::nesting::{
    lemma_find_close_beyond, lemma_find_close_over, lemma_loop_parts, lemma_swap_balanced,
    lemma_whole_loop,
};
use crate::syntax::{
    balanced, find_close, lemma_find_close_bounds, lemma_find_close_skip, matching_close,
    push_range, scan_close, Ast, Ir,
};

verus! {

/// Whether `s` starts with a whole loop: an `Open` that has its `Close`.
pub open spec fn starts_with_loop(s: Seq<Ir>) -> bool {
    &&& s.len() > 0
    &&& s[0] == Ir::Open
    &&& 1 <= matching_close(s, 0) < s.len()
}

/// What is left of `s` behind the loop that it starts with.
pub open spec fn behind_loop(s: Seq<Ir>) -> Seq<Ir> {
    s.skip(matching_close(s, 0) + 1)
}

/// `s` without the loops that it starts with. An `Open` that is never closed
/// stays where it is.
pub open spec fn strip_leading(s: Seq<Ir>) -> Seq<Ir>
    decreases s.len(),
{
    if starts_with_loop(s) {
        strip_leading(behind_loop(s))
    } else {
        s
    }
}

/// `s` without the loops that start right behind a `Close`. `after_close`
/// tells whether `s` itself stands behind a `Close`. An `Open` that is never
/// closed stays where it is.
pub open spec fn elide(s: Seq<Ir>, after_close: bool) -> Seq<Ir>
    decreases s.len(),
{
    if s.len() == 0 {
        s
    } else if after_close && starts_with_loop(s) {
        elide(behind_loop(s), true)
    } else {
        seq![s[0]] + elide(s.skip(1), s[0] == Ir::Close)
    }
}

/// Without the loops that it starts with, a well-nested program is well
/// nested.
pub proof fn lemma_strip_leading_balanced(s: Seq<Ir>)
    requires
        balanced(s),
    ensures
        balanced(strip_leading(s)),
    decreases s.len(),
{
    if starts_with_loop(s) {
        lemma_loop_parts(s);
        lemma_strip_leading_balanced(behind_loop(s));
    }
}

/// The removal of the loops that start right behind a `Close`, run on what
/// stands behind any sequence, leaves the whole well nested.
pub proof fn lemma_elide_balanced_behind(pre: Seq<Ir>, s: Seq<Ir>, after_close: bool)
    requires
        balanced(pre + s),
    ensures
        balanced(pre + elide(s, after_close)),
    decreases s.len(),
{
    if s.len() == 0 {
    } else if after_close && starts_with_loop(s) {
        let whole = s.take(matching_close(s, 0) + 1);
        let none = Seq::<Ir>::empty();
        lemma_whole_loop(s);
        assert(pre + s =~= pre + whole + behind_loop(s));
        lemma_swap_balanced(pre, whole, none, behind_loop(s));
        assert(pre + none + behind_loop(s) =~= pre + behind_loop(s));
        lemma_elide_balanced_behind(pre, behind_loop(s), true);
    } else {
        let rest = s.skip(1);
        assert(pre + s =~= pre.push(s[0]) + rest);
        lemma_elide_balanced_behind(pre.push(s[0]), rest, s[0] == Ir::Close);
        assert(pre.push(s[0]) + elide(rest, s[0] == Ir::Close) =~= pre + elide(s, after_close));
    }
}

/// Without the loops that start right behind a `Close`, a well-nested
/// program is well nested.
pub proof fn lemma_elide_balanced(s: Seq<Ir>)
    requires
        balanced(s),
    ensures
        balanced(elide(s, false)),
{
    assert(Seq::<Ir>::empty() + s =~= s);
    assert(Seq::<Ir>::empty() + elide(s, false) =~= elide(s, false));
    lemma_elide_balanced_behind(Seq::empty(), s, false);
}

/// Removing the loops that a program starts with twice gives what removing
/// them once gives.
pub proof fn lemma_strip_leading_idempotent(s: Seq<Ir>)
    ensures
        strip_leading(strip_leading(s)) == strip_leading(s),
    decreases s.len(),
{
    if starts_with_loop(s) {
        lemma_strip_leading_idempotent(behind_loop(s));
    }
}

/// The removal of the loops that start right behind a `Close` leaves a scan
/// for a `Close` as it was: it finds one exactly if it found one.
pub proof fn lemma_elide_keeps_close(s: Seq<Ir>, after_close: bool, depth: nat)
    requires
        depth >= 1,
    ensures
        find_close(elide(s, after_close), 0, depth) < elide(s, after_close).len() <==> find_close(
            s,
            0,
            depth,
        ) < s.len(),
    decreases s.len(),
{
    let once = elide(s, after_close);
    if s.len() == 0 {
    } else if after_close && starts_with_loop(s) {
        let whole = s.take(matching_close(s, 0) + 1);
        lemma_whole_loop(s);
        assert(s =~= whole + behind_loop(s));
        lemma_find_close_over(whole, 0, 0, depth);
        lemma_find_close_beyond(whole, behind_loop(s), 0, depth);
        lemma_find_close_bounds(behind_loop(s), 0, depth);
        lemma_elide_keeps_close(behind_loop(s), true, depth);
    } else {
        let rest = s.skip(1);
        let then = elide(rest, s[0] == Ir::Close);
        assert(once[0] == s[0]);
        assert(once.skip(1) =~= then);
        let inner: nat = match s[0] {
            Ir::Open => depth + 1,
            Ir::Close => (depth - 1) as nat,
            _ => depth,
        };
        if !(s[0] == Ir::Close && depth == 1) {
            lemma_find_close_skip(s, 1, 0, inner);
            lemma_find_close_skip(once, 1, 0, inner);
            lemma_elide_keeps_close(rest, s[0] == Ir::Close, inner);
        }
    }
}

/// Removing the loops that start right behind a `Close` twice gives what
/// removing them once gives.
pub proof fn lemma_elide_idempotent(s: Seq<Ir>, after_close: bool)
    ensures
        elide(elide(s, after_close), after_close) == elide(s, after_close),
    decreases s.len(),
{
    let once = elide(s, after_close);
    if s.len() == 0 {
    } else if after_close && starts_with_loop(s) {
        lemma_elide_idempotent(behind_loop(s), true);
    } else {
        let rest = s.skip(1);
        let then = elide(rest, s[0] == Ir::Close);
        lemma_elide_idempotent(rest, s[0] == Ir::Close);
        assert(once[0] == s[0]);
        assert(once.skip(1) =~= then);
        if after_close && s[0] == Ir::Open {
            lemma_elide_keeps_close(rest, false, 1);
            lemma_find_close_skip(s, 1, 0, 1);
            lemma_find_close_skip(once, 1, 0, 1);
            lemma_find_close_bounds(s, 1, 1);
            lemma_find_close_bounds(once, 1, 1);
        }
    }
}

/// Whether `s`, from index `i` on, starts with a whole loop, read off the
/// whole sequence.
proof fn lemma_loop_at(s: Seq<Ir>, i: int)
    requires
        0 <= i < s.len(),
    ensures
        starts_with_loop(s.skip(i)) <==> s[i] == Ir::Open && matching_close(s, i) < s.len(),
        matching_close(s.skip(i), 0) + i == matching_close(s, i),
        starts_with_loop(s.skip(i)) ==> behind_loop(s.skip(i)) == s.skip(matching_close(s, i) + 1),
{
    lemma_find_close_skip(s, i, 1, 1);
    lemma_find_close_bounds(s, i + 1, 1);
    if starts_with_loop(s.skip(i)) {
        assert(s.skip(i).skip(matching_close(s.skip(i), 0) + 1) =~= s.skip(
            matching_close(s, i) + 1,
        ));
    }
}

/// Removes the loops at the very start of a program. They can never run: a
/// program starts with every cell at zero.
pub fn comment_loop_opt(ast: &Ast) -> (opt: Ast)
    ensures
        opt@ == strip_leading(ast@),
        balanced(ast@) ==> balanced(opt@),
{
    let mut i: usize = 0;
    let mut at_loop: bool = true;
    proof {
        assert(ast@.skip(0) =~= ast@);
    }
    while at_loop && i < ast.len()
        invariant
            i <= ast.len(),
            strip_leading(ast@) == strip_leading(ast@.skip(i as int)),
            !at_loop ==> !starts_with_loop(ast@.skip(i as int)),
        decreases ast.len() - i, if at_loop { 1int } else { 0int },
    {
        proof {
            lemma_loop_at(ast@, i as int);
        }
        at_loop = false;
        if ast[i] == Ir::Open {
            let close = scan_close(ast, i);
            if close < ast.len() {
                i = close + 1;
                at_loop = true;
            }
        }
    }
    let mut opt: Vec<Ir> = Vec::new();
    push_range(&mut opt, ast, i, ast.len());
    proof {
        assert(ast@.subrange(i as int, ast.len() as int) =~= ast@.skip(i as int));
        if balanced(ast@) {
            lemma_strip_leading_balanced(ast@);
        }
    }
    opt
}

/// Removes the loops that start right behind the end of another loop. They
/// can never run: a loop ends with the current cell at zero.
pub fn unused_loop_opt(ast: &Ast) -> (opt: Ast)
    ensures
        opt@ == elide(ast@, false),
        balanced(ast@) ==> balanced(opt@),
{
    let mut opt: Vec<Ir> = Vec::new();
    let mut after_close: bool = false;
    let mut i: usize = 0;
    proof {
        assert(ast@.skip(0) =~= ast@);
    }
    while i < ast.len()
        invariant
            i <= ast.len(),
            opt@ + elide(ast@.skip(i as int), after_close) == elide(ast@, false),
        decreases ast.len() - i,
    {
        proof {
            lemma_loop_at(ast@, i as int);
        }
        let ir = ast[i];
        let close = if after_close && ir == Ir::Open {
            scan_close(ast, i)
        } else {
            ast.len()
        };
        if close < ast.len() {
            i = close + 1;
        } else {
            proof {
                let rest = ast@.skip(i as int);
                assert(rest.skip(1) =~= ast@.skip(i + 1));
                assert(opt@.push(ir) + elide(rest.skip(1), ir == Ir::Close) =~= opt@ + elide(
                    rest,
                    after_close,
                ));
            }
            opt.push(ir);
            after_close = ir == Ir::Close;
            i = i + 1;
        }
    }
    proof {
        assert(opt@ + elide(ast@.skip(i as int), after_close) =~= opt@);
        if balanced(ast@) {
            lemma_elide_balanced(ast@);
        }
    }
    opt
}

} // verus!
