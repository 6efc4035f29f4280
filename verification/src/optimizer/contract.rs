//! Contraction: runs of cell updates, and runs of pointer moves, become one
//! instruction each, or none where they cancel.

use vstd::prelude::*;

use crate::nesting::{lemma_plain_balanced, lemma_swap_balanced};
use crate::syntax::{balanced, Ast, Dir, Ir};

verus! {

/// What an instruction adds to the current cell, for `Add` and `Sub`.
pub open spec fn cell_delta(ir: Ir) -> Option<int> {
    match ir {
        Ir::Add(n) => Some(n as int),
        Ir::Sub(n) => Some(-(n as int)),
        _ => None,
    }
}

/// How far an instruction moves the pointer to the right, for `Shift`.
pub open spec fn move_delta(ir: Ir) -> Option<int> {
    match ir {
        Ir::Shift(Dir::Right, n) => Some(n as int),
        Ir::Shift(Dir::Left, n) => Some(-(n as int)),
        _ => None,
    }
}

/// The single instruction that adds `delta` to the current cell, modulo 256,
/// in the sign of `delta`; none where that changes nothing.
pub open spec fn cell_op(delta: int) -> Option<Ir> {
    if delta % 256 == 0 {
        None
    } else if delta > 0 {
        Some(Ir::Add((delta % 256) as u8))
    } else {
        Some(Ir::Sub(((-delta) % 256) as u8))
    }
}

/// The single instruction that moves the pointer `delta` cells to the right;
/// none for no move. A distance beyond `usize::MAX` is held at `usize::MAX`:
/// either way the pointer leaves every tape.
pub open spec fn move_op(delta: int) -> Option<Ir> {
    if delta == 0 {
        None
    } else if delta > 0 {
        Some(Ir::Shift(Dir::Right, if delta > usize::MAX { usize::MAX } else { delta as usize }))
    } else {
        Some(Ir::Shift(Dir::Left, if -delta > usize::MAX { usize::MAX } else { (-delta) as usize }))
    }
}

/// What two adjacent instructions contract to: `None` if they are not of one
/// kind, else the one instruction with their joint effect, or no instruction
/// where they cancel.
pub open spec fn fuse(a: Ir, b: Ir) -> Option<Option<Ir>> {
    if cell_delta(a) is Some && cell_delta(b) is Some {
        Some(cell_op(cell_delta(a)->0 + cell_delta(b)->0))
    } else if move_delta(a) is Some && move_delta(b) is Some {
        Some(move_op(move_delta(a)->0 + move_delta(b)->0))
    } else {
        None
    }
}

/// The contracted sequence `out` followed by one more instruction.
pub open spec fn push_fused(out: Seq<Ir>, ir: Ir) -> Seq<Ir> {
    if out.len() > 0 && fuse(out.last(), ir) is Some {
        match fuse(out.last(), ir)->0 {
            Some(joint) => out.drop_last().push(joint),
            None => out.drop_last(),
        }
    } else {
        out.push(ir)
    }
}

/// The contraction of `s`.
pub open spec fn contract(s: Seq<Ir>) -> Seq<Ir>
    decreases s.len(),
{
    if s.len() == 0 {
        s
    } else {
        push_fused(contract(s.drop_last()), s.last())
    }
}

/// No two adjacent instructions of `s` can be contracted.
pub open spec fn contracted(s: Seq<Ir>) -> bool {
    forall|i: int| 0 <= i < s.len() - 1 ==> (#[trigger] fuse(s[i], s[i + 1])) is None
}

/// An instruction that `fuse` gives is of the kind of the two it replaces.
pub proof fn lemma_fuse_kind(a: Ir, b: Ir, c: Ir)
    requires
        fuse(a, b) is Some,
        fuse(a, b)->0 is Some,
    ensures
        fuse(c, a) is Some <==> fuse(c, fuse(a, b)->0->0) is Some,
{
}

/// Adding an instruction to a contracted sequence leaves it contracted.
pub proof fn lemma_push_fused_contracted(out: Seq<Ir>, ir: Ir)
    requires
        contracted(out),
    ensures
        contracted(push_fused(out, ir)),
{
    let r = push_fused(out, ir);
    assert forall|i: int| 0 <= i < r.len() - 1 implies (#[trigger] fuse(
        r[i],
        r[i + 1],
    )) is None by {
        if out.len() > 0 && fuse(out.last(), ir) is Some {
            if i == r.len() - 2 {
                assert(fuse(out[i], out[i + 1]) is None);
                if fuse(out.last(), ir)->0 is Some {
                    lemma_fuse_kind(out.last(), ir, out[i]);
                }
            } else {
                assert(fuse(out[i], out[i + 1]) is None);
            }
        } else {
            if i < out.len() - 1 {
                assert(fuse(out[i], out[i + 1]) is None);
            }
        }
    }
}

/// The contraction of any sequence is contracted.
pub proof fn lemma_contract_contracted(s: Seq<Ir>)
    ensures
        contracted(contract(s)),
    decreases s.len(),
{
    if s.len() > 0 {
        lemma_contract_contracted(s.drop_last());
        lemma_push_fused_contracted(contract(s.drop_last()), s.last());
    }
}

/// Contraction changes nothing in a sequence that is contracted already.
pub proof fn lemma_contract_fixed(s: Seq<Ir>)
    requires
        contracted(s),
    ensures
        contract(s) == s,
    decreases s.len(),
{
    if s.len() > 0 {
        let t = s.drop_last();
        assert forall|i: int| 0 <= i < t.len() - 1 implies (#[trigger] fuse(
            t[i],
            t[i + 1],
        )) is None by {
            assert(fuse(s[i], s[i + 1]) is None);
        }
        lemma_contract_fixed(t);
        if t.len() > 0 {
            assert(fuse(s[t.len() - 1], s[t.len() - 1 + 1]) is None);
        }
        assert(t.push(s.last()) =~= s);
    }
}

/// Contracting twice gives what contracting once gives.
pub proof fn lemma_contract_idempotent(s: Seq<Ir>)
    ensures
        contract(contract(s)) == contract(s),
{
    lemma_contract_contracted(s);
    lemma_contract_fixed(contract(s));
}

/// What two adjacent instructions contract to.
pub open spec fn fused(x: Ir, y: Ir) -> Seq<Ir> {
    match fuse(x, y)->0 {
        Some(joint) => seq![joint],
        None => Seq::empty(),
    }
}

/// Contraction of what stands before any sequence leaves the whole well
/// nested.
pub proof fn lemma_contract_balanced_before(s: Seq<Ir>, post: Seq<Ir>)
    requires
        balanced(s + post),
    ensures
        balanced(contract(s) + post),
    decreases s.len(),
{
    if s.len() > 0 {
        let x = s.last();
        let rest = seq![x] + post;
        assert(s + post =~= s.drop_last() + rest);
        lemma_contract_balanced_before(s.drop_last(), rest);
        let c = contract(s.drop_last());
        if c.len() > 0 && fuse(c.last(), x) is Some {
            lemma_plain_balanced(seq![c.last(), x]);
            lemma_plain_balanced(fused(c.last(), x));
            assert(c + rest =~= c.drop_last() + seq![c.last(), x] + post);
            lemma_swap_balanced(c.drop_last(), seq![c.last(), x], fused(c.last(), x), post);
            assert(push_fused(c, x) =~= c.drop_last() + fused(c.last(), x));
        } else {
            assert(push_fused(c, x) + post =~= c + rest);
        }
    } else {
        assert(contract(s) =~= s);
    }
}

/// Contraction leaves a well-nested program well nested.
pub proof fn lemma_contract_balanced(s: Seq<Ir>)
    requires
        balanced(s),
    ensures
        balanced(contract(s)),
{
    assert(s + Seq::<Ir>::empty() =~= s);
    assert(contract(s) + Seq::<Ir>::empty() =~= contract(s));
    lemma_contract_balanced_before(s, Seq::empty());
}

/// Computes what two adjacent instructions contract to.
fn fuse_pair(a: Ir, b: Ir) -> (r: Option<Option<Ir>>)
    ensures
        r == fuse(a, b),
{
    match (a, b) {
        (Ir::Add(x), Ir::Add(y)) => Some(cell_sum(x as i16 + y as i16)),
        (Ir::Add(x), Ir::Sub(y)) => Some(cell_sum(x as i16 - y as i16)),
        (Ir::Sub(x), Ir::Add(y)) => Some(cell_sum(y as i16 - x as i16)),
        (Ir::Sub(x), Ir::Sub(y)) => Some(cell_sum(-(x as i16) - y as i16)),
        (Ir::Shift(Dir::Right, x), Ir::Shift(Dir::Right, y)) => Some(
            move_sum(Dir::Right, x, Dir::Right, y),
        ),
        (Ir::Shift(Dir::Right, x), Ir::Shift(Dir::Left, y)) => Some(
            move_sum(Dir::Right, x, Dir::Left, y),
        ),
        (Ir::Shift(Dir::Left, x), Ir::Shift(Dir::Right, y)) => Some(
            move_sum(Dir::Left, x, Dir::Right, y),
        ),
        (Ir::Shift(Dir::Left, x), Ir::Shift(Dir::Left, y)) => Some(
            move_sum(Dir::Left, x, Dir::Left, y),
        ),
        _ => None,
    }
}

/// The instruction that adds `delta` to the current cell.
fn cell_sum(delta: i16) -> (r: Option<Ir>)
    requires
        -510 <= delta <= 510,
    ensures
        r == cell_op(delta as int),
{
    if delta % 256 == 0 {
        None
    } else if delta > 0 {
        Some(Ir::Add((delta % 256) as u8))
    } else {
        Some(Ir::Sub(((-delta) % 256) as u8))
    }
}

/// The instruction that makes the two moves given.
fn move_sum(first: Dir, x: usize, second: Dir, y: usize) -> (r: Option<Ir>)
    ensures
        r == move_op(
            move_delta(Ir::Shift(first, x))->0 + move_delta(Ir::Shift(second, y))->0,
        ),
{
    match (first, second) {
        (Dir::Right, Dir::Right) => joint_move(Dir::Right, x, y),
        (Dir::Left, Dir::Left) => joint_move(Dir::Left, x, y),
        (Dir::Right, Dir::Left) => net_move(Dir::Right, x, Dir::Left, y),
        (Dir::Left, Dir::Right) => net_move(Dir::Left, x, Dir::Right, y),
    }
}

/// Two moves in one direction: the sum of their distances.
fn joint_move(dir: Dir, x: usize, y: usize) -> (r: Option<Ir>)
    ensures
        r == move_op(
            match dir {
                Dir::Right => x + y,
                Dir::Left => -(x + y),
            },
        ),
{
    if x == 0 && y == 0 {
        None
    } else {
        Some(Ir::Shift(dir, x.saturating_add(y)))
    }
}

/// Two moves in opposite directions: the larger distance less the smaller,
/// in the direction of the larger.
fn net_move(first: Dir, x: usize, second: Dir, y: usize) -> (r: Option<Ir>)
    requires
        first != second,
    ensures
        r == move_op(
            match first {
                Dir::Right => x - y,
                Dir::Left => y - x,
            },
        ),
{
    if x > y {
        Some(Ir::Shift(first, x - y))
    } else if x < y {
        Some(Ir::Shift(second, y - x))
    } else {
        None
    }
}

/// Contracts runs of `Add` and `Sub`, and runs of `Shift`, into one
/// instruction each, or into none where they cancel, until no two adjacent
/// instructions can be contracted.
pub fn contract_opt(ast: &Ast) -> (opt: Ast)
    ensures
        opt@ == contract(ast@),
        contracted(opt@),
        balanced(ast@) ==> balanced(opt@),
{
    let mut opt: Vec<Ir> = Vec::new();
    let mut i: usize = 0;
    while i < ast.len()
        invariant
            i <= ast.len(),
            opt@ == contract(ast@.take(i as int)),
        decreases ast.len() - i,
    {
        let ir = ast[i];
        proof {
            assert(ast@.take(i + 1).drop_last() =~= ast@.take(i as int));
        }
        let fused = if opt.len() > 0 {
            fuse_pair(opt[opt.len() - 1], ir)
        } else {
            None
        };
        match fused {
            Some(joint) => {
                opt.pop();
                match joint {
                    Some(both) => {
                        opt.push(both);
                    },
                    None => {},
                }
            },
            None => {
                opt.push(ir);
            },
        }
        i = i + 1;
    }
    proof {
        assert(ast@.take(ast.len() as int) =~= ast@);
        lemma_contract_contracted(ast@);
        if balanced(ast@) {
            lemma_contract_balanced(ast@);
        }
    }
    opt
}

} // verus!
