//! Loops of one instruction that have a closed form: the loop that empties
//! a cell and the loop that looks for an empty cell.

use vstd::prelude::*;

use crate::nesting::{lemma_plain_balanced, lemma_swap_balanced, lemma_unit_loop_balanced};
use crate::syntax::{balanced, Ast, Dir, Ir};

verus! {

/// Whether `s` starts with a loop whose body is one `Add(1)` or `Sub(1)`.
pub open spec fn starts_with_clear_loop(s: Seq<Ir>) -> bool {
    &&& s.len() >= 3
    &&& s[0] == Ir::Open
    &&& (s[1] == Ir::Add(1) || s[1] == Ir::Sub(1))
    &&& s[2] == Ir::Close
}

/// `s` with each loop whose body is one `Add(1)` or `Sub(1)` replaced by
/// `Clear`.
pub open spec fn clear_loops(s: Seq<Ir>) -> Seq<Ir>
    decreases s.len(),
{
    if starts_with_clear_loop(s) {
        seq![Ir::Clear] + clear_loops(s.skip(3))
    } else if s.len() > 0 {
        seq![s[0]] + clear_loops(s.skip(1))
    } else {
        s
    }
}

/// The direction in which `s` scans, if it starts with a loop whose body is
/// one `Shift` by one cell.
pub open spec fn leading_scan_loop(s: Seq<Ir>) -> Option<Dir> {
    if s.len() >= 3 && s[0] == Ir::Open && s[2] == Ir::Close {
        match s[1] {
            Ir::Shift(dir, 1) => Some(dir),
            _ => None,
        }
    } else {
        None
    }
}

/// `s` with each loop whose body is one `Shift` by one cell replaced by
/// `Scan` in that direction.
pub open spec fn scan_loops(s: Seq<Ir>) -> Seq<Ir>
    decreases s.len(),
{
    if leading_scan_loop(s) is Some {
        seq![Ir::Scan(leading_scan_loop(s)->0)] + scan_loops(s.skip(3))
    } else if s.len() > 0 {
        seq![s[0]] + scan_loops(s.skip(1))
    } else {
        s
    }
}

/// The pass that puts `Clear`, run on what stands behind any sequence,
/// leaves the whole well nested.
pub proof fn lemma_clear_loops_balanced_behind(pre: Seq<Ir>, s: Seq<Ir>)
    requires
        balanced(pre + s),
    ensures
        balanced(pre + clear_loops(s)),
    decreases s.len(),
{
    if starts_with_clear_loop(s) {
        let rest = s.skip(3);
        let found = seq![Ir::Open, s[1], Ir::Close];
        assert(pre + s =~= pre + found + rest);
        lemma_unit_loop_balanced(s[1]);
        lemma_plain_balanced(seq![Ir::Clear]);
        lemma_swap_balanced(pre, found, seq![Ir::Clear], rest);
        assert(pre + seq![Ir::Clear] + rest =~= pre.push(Ir::Clear) + rest);
        lemma_clear_loops_balanced_behind(pre.push(Ir::Clear), rest);
        assert(pre.push(Ir::Clear) + clear_loops(rest) =~= pre + clear_loops(s));
    } else if s.len() > 0 {
        let rest = s.skip(1);
        assert(pre + s =~= pre.push(s[0]) + rest);
        lemma_clear_loops_balanced_behind(pre.push(s[0]), rest);
        assert(pre.push(s[0]) + clear_loops(rest) =~= pre + clear_loops(s));
    }
}

/// The pass that puts `Clear` leaves a well-nested program well nested.
pub proof fn lemma_clear_loops_balanced(s: Seq<Ir>)
    requires
        balanced(s),
    ensures
        balanced(clear_loops(s)),
{
    assert(Seq::<Ir>::empty() + s =~= s);
    assert(Seq::<Ir>::empty() + clear_loops(s) =~= clear_loops(s));
    lemma_clear_loops_balanced_behind(Seq::empty(), s);
}

/// The pass that puts `Scan`, run on what stands behind any sequence, leaves
/// the whole well nested.
pub proof fn lemma_scan_loops_balanced_behind(pre: Seq<Ir>, s: Seq<Ir>)
    requires
        balanced(pre + s),
    ensures
        balanced(pre + scan_loops(s)),
    decreases s.len(),
{
    if leading_scan_loop(s) is Some {
        let dir = leading_scan_loop(s)->0;
        let rest = s.skip(3);
        let found = seq![Ir::Open, s[1], Ir::Close];
        assert(pre + s =~= pre + found + rest);
        lemma_unit_loop_balanced(s[1]);
        lemma_plain_balanced(seq![Ir::Scan(dir)]);
        lemma_swap_balanced(pre, found, seq![Ir::Scan(dir)], rest);
        assert(pre + seq![Ir::Scan(dir)] + rest =~= pre.push(Ir::Scan(dir)) + rest);
        lemma_scan_loops_balanced_behind(pre.push(Ir::Scan(dir)), rest);
        assert(pre.push(Ir::Scan(dir)) + scan_loops(rest) =~= pre + scan_loops(s));
    } else if s.len() > 0 {
        let rest = s.skip(1);
        assert(pre + s =~= pre.push(s[0]) + rest);
        lemma_scan_loops_balanced_behind(pre.push(s[0]), rest);
        assert(pre.push(s[0]) + scan_loops(rest) =~= pre + scan_loops(s));
    }
}

/// The pass that puts `Scan` leaves a well-nested program well nested.
pub proof fn lemma_scan_loops_balanced(s: Seq<Ir>)
    requires
        balanced(s),
    ensures
        balanced(scan_loops(s)),
{
    assert(Seq::<Ir>::empty() + s =~= s);
    assert(Seq::<Ir>::empty() + scan_loops(s) =~= scan_loops(s));
    lemma_scan_loops_balanced_behind(Seq::empty(), s);
}

/// Running the pass that puts `Clear` twice gives what running it once
/// gives.
pub proof fn lemma_clear_loops_idempotent(s: Seq<Ir>)
    ensures
        clear_loops(clear_loops(s)) == clear_loops(s),
    decreases s.len(),
{
    let once = clear_loops(s);
    if starts_with_clear_loop(s) {
        let rest = s.skip(3);
        lemma_clear_loops_idempotent(rest);
        assert(once[0] == Ir::Clear);
        assert(once.skip(1) =~= clear_loops(rest));
    } else if s.len() > 0 {
        let rest = s.skip(1);
        let then = clear_loops(rest);
        lemma_clear_loops_idempotent(rest);
        assert(once[0] == s[0]);
        assert(once.skip(1) =~= then);
        if starts_with_clear_loop(once) {
            assert(then[0] == once[1]);
            assert(!starts_with_clear_loop(rest));
            assert(then[0] == rest[0]);
            let last = rest.skip(1);
            assert(then.skip(1) =~= clear_loops(last));
            assert(clear_loops(last)[0] == once[2]);
            assert(!starts_with_clear_loop(last));
            assert(clear_loops(last)[0] == last[0]);
            assert(s[1] == rest[0]);
            assert(s[2] == last[0]);
        }
    }
}

/// Running the pass that puts `Scan` twice gives what running it once gives.
pub proof fn lemma_scan_loops_idempotent(s: Seq<Ir>)
    ensures
        scan_loops(scan_loops(s)) == scan_loops(s),
    decreases s.len(),
{
    let once = scan_loops(s);
    if leading_scan_loop(s) is Some {
        let rest = s.skip(3);
        lemma_scan_loops_idempotent(rest);
        assert(once[0] == Ir::Scan(leading_scan_loop(s)->0));
        assert(once.skip(1) =~= scan_loops(rest));
    } else if s.len() > 0 {
        let rest = s.skip(1);
        let then = scan_loops(rest);
        lemma_scan_loops_idempotent(rest);
        assert(once[0] == s[0]);
        assert(once.skip(1) =~= then);
        if leading_scan_loop(once) is Some {
            assert(then[0] == once[1]);
            assert(leading_scan_loop(rest) is None);
            assert(then[0] == rest[0]);
            let last = rest.skip(1);
            assert(then.skip(1) =~= scan_loops(last));
            assert(scan_loops(last)[0] == once[2]);
            assert(leading_scan_loop(last) is None);
            assert(scan_loops(last)[0] == last[0]);
            assert(s[1] == rest[0]);
            assert(s[2] == last[0]);
        }
    }
}

/// Tells whether the loop that empties a cell stands at index `i`.
fn clear_loop_at(ast: &Ast, i: usize) -> (found: bool)
    requires
        i <= ast.len(),
    ensures
        found == starts_with_clear_loop(ast@.skip(i as int)),
{
    if ast.len() - i < 3 {
        return false;
    }
    let unit = match ast[i + 1] {
        Ir::Add(n) => n == 1,
        Ir::Sub(n) => n == 1,
        _ => false,
    };
    unit && ast[i] == Ir::Open && ast[i + 2] == Ir::Close
}

/// Tells in which direction the loop at index `i` scans, if it is a loop
/// whose body is one `Shift` by one cell.
fn scan_loop_at(ast: &Ast, i: usize) -> (found: Option<Dir>)
    requires
        i <= ast.len(),
    ensures
        found == leading_scan_loop(ast@.skip(i as int)),
{
    if ast.len() - i < 3 {
        return None;
    }
    if ast[i] == Ir::Open && ast[i + 2] == Ir::Close {
        match ast[i + 1] {
            Ir::Shift(dir, steps) => if steps == 1 {
                Some(dir)
            } else {
                None
            },
            _ => None,
        }
    } else {
        None
    }
}

/// Replaces each loop whose body is one `Add(1)` or `Sub(1)` by `Clear`.
pub fn clear_loop_opt(ast: &Ast) -> (opt: Ast)
    ensures
        opt@ == clear_loops(ast@),
        balanced(ast@) ==> balanced(opt@),
{
    let mut opt: Vec<Ir> = Vec::new();
    let mut i: usize = 0;
    proof {
        assert(ast@.skip(0) =~= ast@);
    }
    while i < ast.len()
        invariant
            i <= ast.len(),
            opt@ + clear_loops(ast@.skip(i as int)) == clear_loops(ast@),
        decreases ast.len() - i,
    {
        let ghost rest = ast@.skip(i as int);
        if clear_loop_at(ast, i) {
            proof {
                assert(rest.skip(3) =~= ast@.skip(i + 3));
                assert(opt@.push(Ir::Clear) + clear_loops(rest.skip(3)) =~= opt@ + clear_loops(
                    rest,
                ));
            }
            opt.push(Ir::Clear);
            i = i + 3;
        } else {
            proof {
                assert(rest.skip(1) =~= ast@.skip(i + 1));
                assert(opt@.push(rest[0]) + clear_loops(rest.skip(1)) =~= opt@ + clear_loops(
                    rest,
                ));
            }
            opt.push(ast[i]);
            i = i + 1;
        }
    }
    proof {
        assert(opt@ + clear_loops(ast@.skip(i as int)) =~= opt@);
        if balanced(ast@) {
            lemma_clear_loops_balanced(ast@);
        }
    }
    opt
}

/// Replaces each loop whose body is one `Shift` by one cell by `Scan`.
pub fn scan_loop_opt(ast: &Ast) -> (opt: Ast)
    ensures
        opt@ == scan_loops(ast@),
        balanced(ast@) ==> balanced(opt@),
{
    let mut opt: Vec<Ir> = Vec::new();
    let mut i: usize = 0;
    proof {
        assert(ast@.skip(0) =~= ast@);
    }
    while i < ast.len()
        invariant
            i <= ast.len(),
            opt@ + scan_loops(ast@.skip(i as int)) == scan_loops(ast@),
        decreases ast.len() - i,
    {
        let ghost rest = ast@.skip(i as int);
        match scan_loop_at(ast, i) {
            Some(dir) => {
                proof {
                    assert(rest.skip(3) =~= ast@.skip(i + 3));
                    assert(opt@.push(Ir::Scan(dir)) + scan_loops(rest.skip(3)) =~= opt@
                        + scan_loops(rest));
                }
                opt.push(Ir::Scan(dir));
                i = i + 3;
            },
            None => {
                proof {
                    assert(rest.skip(1) =~= ast@.skip(i + 1));
                    assert(opt@.push(rest[0]) + scan_loops(rest.skip(1)) =~= opt@ + scan_loops(
                        rest,
                    ));
                }
                opt.push(ast[i]);
                i = i + 1;
            },
        }
    }
    proof {
        assert(opt@ + scan_loops(ast@.skip(i as int)) =~= opt@);
        if balanced(ast@) {
            lemma_scan_loops_balanced(ast@);
        }
    }
    opt
}

} // verus!
