//! The parser: from bytes to a program whose brackets match.

use vstd::prelude::*;

use crate::byte_stream::ByteStream;
use crate::syntax::{balanced, balanced_from, Ast, Dir, Ir};

verus! {

/// A bracket without a partner.
#[derive(Clone, Copy, PartialEq, Eq, Debug, Structural)]
pub enum SyntaxError {
    /// A `[` that is never closed.
    UnmatchedOpen,
    /// A `]` where no loop is open.
    UnmatchedClose,
}

/// The instruction that a byte stands for; every other byte is a comment.
pub open spec fn ir_of(byte: u8) -> Option<Ir> {
    if byte == 0x2b {
        Some(Ir::Add(1))
    } else if byte == 0x2d {
        Some(Ir::Sub(1))
    } else if byte == 0x3c {
        Some(Ir::Shift(Dir::Left, 1))
    } else if byte == 0x3e {
        Some(Ir::Shift(Dir::Right, 1))
    } else if byte == 0x2c {
        Some(Ir::Read)
    } else if byte == 0x2e {
        Some(Ir::Write)
    } else if byte == 0x5b {
        Some(Ir::Open)
    } else if byte == 0x5d {
        Some(Ir::Close)
    } else {
        None
    }
}

/// The instructions of a text, in order.
pub open spec fn instructions(bytes: Seq<u8>) -> Seq<Ir>
    decreases bytes.len(),
{
    if bytes.len() == 0 {
        Seq::empty()
    } else {
        (match ir_of(bytes[0]) {
            Some(ir) => seq![ir],
            None => Seq::empty(),
        }) + instructions(bytes.skip(1))
    }
}

/// The first bracket of `s[k..]` that has no partner, with `depth` loops
/// open at `k`: a `Close` where no loop is open or, where there is no such
/// `Close`, an `Open` that is still open at the end.
pub open spec fn bracket_error(s: Seq<Ir>, k: int, depth: nat) -> Option<SyntaxError>
    decreases s.len() - k,
{
    if k < 0 || k >= s.len() {
        if depth == 0 {
            None
        } else {
            Some(SyntaxError::UnmatchedOpen)
        }
    } else {
        match s[k] {
            Ir::Open => bracket_error(s, k + 1, depth + 1),
            Ir::Close => if depth == 0 {
                Some(SyntaxError::UnmatchedClose)
            } else {
                bracket_error(s, k + 1, (depth - 1) as nat)
            },
            _ => bracket_error(s, k + 1, depth),
        }
    }
}

/// A program has a bracket without a partner exactly if it is not balanced.
pub proof fn lemma_bracket_error(s: Seq<Ir>, k: int, depth: nat)
    ensures
        bracket_error(s, k, depth) is None <==> balanced_from(s, k, depth),
    decreases s.len() - k,
{
    if 0 <= k < s.len() {
        match s[k] {
            Ir::Open => lemma_bracket_error(s, k + 1, depth + 1),
            Ir::Close => if depth > 0 {
                lemma_bracket_error(s, k + 1, (depth - 1) as nat)
            },
            _ => lemma_bracket_error(s, k + 1, depth),
        }
    }
}

/// Gives the instruction that a byte stands for.
pub fn decode(byte: u8) -> (ir: Option<Ir>)
    ensures
        ir == ir_of(byte),
{
    if byte == 0x2b {
        Some(Ir::Add(1))
    } else if byte == 0x2d {
        Some(Ir::Sub(1))
    } else if byte == 0x3c {
        Some(Ir::Shift(Dir::Left, 1))
    } else if byte == 0x3e {
        Some(Ir::Shift(Dir::Right, 1))
    } else if byte == 0x2c {
        Some(Ir::Read)
    } else if byte == 0x2e {
        Some(Ir::Write)
    } else if byte == 0x5b {
        Some(Ir::Open)
    } else if byte == 0x5d {
        Some(Ir::Close)
    } else {
        None
    }
}

/// Reads a byte stream to its end and gives its program. A text whose
/// brackets do not match is refused, with the first bracket that has no
/// partner.
pub fn parse(byte_stream: &mut ByteStream) -> (r: Result<Ast, SyntaxError>)
    ensures
        final(byte_stream)@.len() == 0,
        r is Ok <==> balanced(instructions(old(byte_stream)@)),
        r matches Ok(ast) ==> ast@ == instructions(old(byte_stream)@),
        r matches Err(e) ==> bracket_error(instructions(old(byte_stream)@), 0, 0) == Some(e),
{
    let ghost full = instructions(byte_stream@);
    let mut ast: Vec<Ir> = Vec::new();
    let mut depth: usize = 0;
    let mut stray_close: bool = false;
    let mut more: bool = true;
    while more
        invariant
            ast@ + instructions(byte_stream@) == full,
            depth <= ast@.len(),
            stray_close ==> bracket_error(full, 0, 0) == Some(SyntaxError::UnmatchedClose),
            !stray_close ==> bracket_error(full, 0, 0) == bracket_error(
                full,
                ast@.len() as int,
                depth as nat,
            ),
            !more ==> byte_stream@.len() == 0,
        decreases byte_stream@.len(), if more { 1int } else { 0int },
    {
        let ghost rest = byte_stream@;
        match byte_stream.next_byte() {
            Some(byte) => {
                match decode(byte) {
                    Some(ir) => {
                        proof {
                            assert(ast@.push(ir) + instructions(rest.skip(1)) =~= ast@
                                + instructions(rest));
                            assert(full[ast@.len() as int] == ir);
                        }
                        ast.push(ir);
                        proof {
                            assert(ast@.len() == ast.len());
                        }
                        match ir {
                            Ir::Open => {
                                depth = depth + 1;
                            },
                            Ir::Close => {
                                if depth == 0 {
                                    stray_close = true;
                                } else {
                                    depth = depth - 1;
                                }
                            },
                            _ => {},
                        }
                    },
                    None => {
                        proof {
                            assert(ast@ + instructions(rest.skip(1)) =~= ast@ + instructions(rest));
                        }
                    },
                }
            },
            None => {
                more = false;
            },
        }
    }
    proof {
        assert(ast@ + instructions(byte_stream@) =~= ast@);
        lemma_bracket_error(full, 0, 0);
    }
    if stray_close {
        Err(SyntaxError::UnmatchedClose)
    } else if depth > 0 {
        Err(SyntaxError::UnmatchedOpen)
    } else {
        Ok(ast)
    }
}

} // verus!
