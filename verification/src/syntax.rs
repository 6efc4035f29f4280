//! The instruction set and what it means for a program to be well nested.

use vstd::prelude::*;

verus! {

/// Directions in which the pointer moves.
#[derive(Clone, Copy, PartialEq, Eq, Debug, Structural)]
pub enum Dir {
    Left,
    Right,
}

/// One operation of the intermediate representation.
#[derive(Clone, Copy, PartialEq, Eq, Debug, Structural)]
pub enum Ir {
    /// Adds the value to the current cell, modulo 256.
    Add(u8),
    /// Subtracts the value from the current cell, modulo 256.
    Sub(u8),
    /// Moves the pointer by a number of cells.
    Shift(Dir, usize),
    /// Stores the next input byte in the current cell.
    Read,
    /// Emits the current cell as an output byte.
    Write,
    /// Opens a loop.
    Open,
    /// Closes a loop.
    Close,
    /// Sets the current cell to zero.
    Clear,
    /// Adds the current cell to the cell a number of steps away.
    Copy(Dir, usize),
    /// Adds the current cell times a signed factor to the cell a number of
    /// steps away.
    Mul(Dir, usize, i8),
    /// Moves the pointer, one cell at a time, until the current cell is zero.
    Scan(Dir),
}

/// A program, or a part of one.
pub type Ast = Vec<Ir>;

/// Scans `s` from index `k` with `depth` loops open and gives the index of
/// the `Close` that brings the depth to zero, or `s.len()` if there is none.
pub open spec fn find_close(s: Seq<Ir>, k: int, depth: nat) -> int
    decreases s.len() - k,
{
    if k < 0 || k >= s.len() || depth == 0 {
        s.len() as int
    } else {
        match s[k] {
            Ir::Open => find_close(s, k + 1, depth + 1),
            Ir::Close => if depth == 1 {
                k
            } else {
                find_close(s, k + 1, (depth - 1) as nat)
            },
            _ => find_close(s, k + 1, depth),
        }
    }
}

/// The index of the `Close` that matches the `Open` at index `open`, or
/// `s.len()` if the loop is never closed.
pub open spec fn matching_close(s: Seq<Ir>, open: int) -> int {
    find_close(s, open + 1, 1)
}

/// Whether `s[k..]` closes exactly the `depth` loops that are open at `k`,
/// never closing one that is not open.
pub open spec fn balanced_from(s: Seq<Ir>, k: int, depth: nat) -> bool
    decreases s.len() - k,
{
    if k < 0 || k >= s.len() {
        depth == 0
    } else {
        match s[k] {
            Ir::Open => balanced_from(s, k + 1, depth + 1),
            Ir::Close => depth > 0 && balanced_from(s, k + 1, (depth - 1) as nat),
            _ => balanced_from(s, k + 1, depth),
        }
    }
}

/// Every `Open` has exactly one matching `Close` at the same depth.
pub open spec fn balanced(s: Seq<Ir>) -> bool {
    balanced_from(s, 0, 0)
}

/// A scan never ends before the index at which it starts.
pub proof fn lemma_find_close_bounds(s: Seq<Ir>, k: int, depth: nat)
    requires
        0 <= k,
    ensures
        find_close(s, k, depth) <= s.len(),
        find_close(s, k, depth) < s.len() ==> k <= find_close(s, k, depth) && s[find_close(
            s,
            k,
            depth,
        )] == Ir::Close,
    decreases s.len() - k,
{
    if k < s.len() && depth > 0 {
        match s[k] {
            Ir::Open => lemma_find_close_bounds(s, k + 1, depth + 1),
            Ir::Close => if depth > 1 {
                lemma_find_close_bounds(s, k + 1, (depth - 1) as nat)
            },
            _ => lemma_find_close_bounds(s, k + 1, depth),
        }
    }
}

/// A scan of a suffix finds what the scan of the whole sequence finds.
pub proof fn lemma_find_close_skip(s: Seq<Ir>, n: int, k: int, depth: nat)
    requires
        0 <= n <= s.len(),
        0 <= k,
    ensures
        find_close(s.skip(n), k, depth) + n == find_close(s, k + n, depth),
    decreases s.len() - k,
{
    let t = s.skip(n);
    if k < t.len() && depth > 0 {
        assert(t[k] == s[k + n]);
        match t[k] {
            Ir::Open => lemma_find_close_skip(s, n, k + 1, depth + 1),
            Ir::Close => if depth > 1 {
                lemma_find_close_skip(s, n, k + 1, (depth - 1) as nat)
            },
            _ => lemma_find_close_skip(s, n, k + 1, depth),
        }
    }
}

/// Finds the `Close` that matches the `Open` at index `open`; gives
/// `ast.len()` if the loop is never closed.
pub fn scan_close(ast: &Ast, open: usize) -> (close: usize)
    requires
        open < ast.len(),
    ensures
        close == matching_close(ast@, open as int),
        close <= ast.len(),
        close < ast.len() ==> open < close,
{
    let mut depth: usize = 1;
    let mut k: usize = open + 1;
    proof {
        lemma_find_close_bounds(ast@, open + 1, 1);
    }
    while k < ast.len()
        invariant
            open < k <= ast.len(),
            1 <= depth <= k - open,
            matching_close(ast@, open as int) == find_close(ast@, k as int, depth as nat),
        decreases ast.len() - k,
    {
        match ast[k] {
            Ir::Open => {
                depth = depth + 1;
            },
            Ir::Close => {
                if depth == 1 {
                    return k;
                }
                depth = depth - 1;
            },
            _ => {},
        }
        k = k + 1;
    }
    k
}

/// Appends `ast[from..to]` to `out`.
pub fn push_range(out: &mut Ast, ast: &Ast, from: usize, to: usize)
    requires
        from <= to <= ast.len(),
    ensures
        final(out)@ == old(out)@ + ast@.subrange(from as int, to as int),
{
    let mut i: usize = from;
    while i < to
        invariant
            from <= i <= to <= ast.len(),
            out@ == old(out)@ + ast@.subrange(from as int, i as int),
        decreases to - i,
    {
        out.push(ast[i]);
        proof {
            assert(ast@.subrange(from as int, i + 1) =~= ast@.subrange(from as int, i as int).push(
                ast@[i as int],
            ));
        }
        i = i + 1;
    }
}

/// Tells whether every `Open` of `ast` has its matching `Close`.
pub fn is_balanced(ast: &Ast) -> (b: bool)
    ensures
        b == balanced(ast@),
{
    let mut depth: usize = 0;
    let mut i: usize = 0;
    while i < ast.len()
        invariant
            i <= ast.len(),
            depth <= i,
            balanced(ast@) == balanced_from(ast@, i as int, depth as nat),
        decreases ast.len() - i,
    {
        match ast[i] {
            Ir::Open => {
                depth = depth + 1;
            },
            Ir::Close => {
                if depth == 0 {
                    return false;
                }
                depth = depth - 1;
            },
            _ => {},
        }
        i = i + 1;
    }
    depth == 0
}

} // verus!

