//! The emitters: a program as a listing of its instructions, as C source and
//! as Rust source.

use vstd::prelude::*;

use crate::syntax::{Ast, Dir, Ir};

verus! {

/// The language that source text is emitted in.
#[derive(Clone, Copy, PartialEq, Eq, Debug, Structural)]
pub enum Target {
    C,
    Rust,
}

/// What stands before the statements of a C program.
pub const C_PROLOGUE: &'static str =
    "#include <stdio.h>\n#include <stdint.h>\n#include <stdlib.h>\n\nint main(int argc, char **argv) {\nuint8_t mem[65536] = {0};\nuint32_t p = 0;\n";

/// What stands before the statements of a Rust program.
pub const RUST_PROLOGUE: &'static str =
    "#![allow(unstable)]\n\n/// Reads a `char` from `stdin`.\nfn read_char() -> char {\nmatch std::io::stdin().read_char() {\nOk(c)  => c,\nErr(e) => panic!(\"{}\", e),\n}\n}\n\n/// Writes a `char` to `stdout`.\nfn write_char(c: char) {\nmatch std::io::stdout().write_char(c) {\nOk(_)  => {},\nErr(e) => panic!(\"{}\", e),\n}\n}\n\nfn main() {\nlet mut mem = [0u8; 65_536us];\nlet mut p = 0us;\n\n";

/// What stands behind the statements of a program.
pub const EPILOGUE: &'static str = "}";

/// The numeral of a digit.
pub open spec fn digit(d: int) -> Seq<char> {
    if d == 0 {
        "0"@
    } else if d == 1 {
        "1"@
    } else if d == 2 {
        "2"@
    } else if d == 3 {
        "3"@
    } else if d == 4 {
        "4"@
    } else if d == 5 {
        "5"@
    } else if d == 6 {
        "6"@
    } else if d == 7 {
        "7"@
    } else if d == 8 {
        "8"@
    } else {
        "9"@
    }
}

/// The decimal numeral of a natural number.
pub open spec fn decimal(n: nat) -> Seq<char>
    decreases n,
{
    if n < 10 {
        digit(n as int)
    } else {
        decimal(n / 10) + digit((n % 10) as int)
    }
}

/// The decimal numeral of an integer.
pub open spec fn signed(i: int) -> Seq<char> {
    if i < 0 {
        "-"@ + decimal((-i) as nat)
    } else {
        decimal(i as nat)
    }
}

/// The name of a direction.
pub open spec fn dir_name(dir: Dir) -> Seq<char> {
    match dir {
        Dir::Left => "Left"@,
        Dir::Right => "Right"@,
    }
}

/// The sign by which source text moves in a direction.
pub open spec fn dir_sign(dir: Dir) -> Seq<char> {
    match dir {
        Dir::Left => "-"@,
        Dir::Right => "+"@,
    }
}

/// An instruction as a listing shows it: its name and, in brackets, its
/// operands.
pub open spec fn listed(ir: Ir) -> Seq<char> {
    match ir {
        Ir::Add(n) => "Add("@ + decimal(n as nat) + ")"@,
        Ir::Sub(n) => "Sub("@ + decimal(n as nat) + ")"@,
        Ir::Shift(dir, steps) => "Shift("@ + dir_name(dir) + ", "@ + decimal(steps as nat) + ")"@,
        Ir::Read => "Read"@,
        Ir::Write => "Write"@,
        Ir::Open => "Open"@,
        Ir::Close => "Close"@,
        Ir::Clear => "Clear"@,
        Ir::Copy(dir, steps) => "Copy("@ + dir_name(dir) + ", "@ + decimal(steps as nat) + ")"@,
        Ir::Mul(dir, steps, factor) => "Mul("@ + dir_name(dir) + ", "@ + decimal(steps as nat)
            + ", "@ + signed(factor as int) + ")"@,
        Ir::Scan(dir) => "Scan("@ + dir_name(dir) + ")"@,
    }
}

/// The statement that does in the target language what an instruction does.
pub open spec fn statement(target: Target, ir: Ir) -> Seq<char> {
    match ir {
        Ir::Add(n) => "mem[p] += "@ + decimal(n as nat) + ";"@,
        Ir::Sub(n) => "mem[p] -= "@ + decimal(n as nat) + ";"@,
        Ir::Shift(dir, steps) => "p "@ + dir_sign(dir) + "= "@ + decimal(steps as nat) + ";"@,
        Ir::Read => match target {
            Target::C => "mem[p] = getchar();"@,
            Target::Rust => "mem[p] = read_char() as u8;"@,
        },
        Ir::Write => match target {
            Target::C => "putchar(mem[p]);"@,
            Target::Rust => "write_char(mem[p] as char);"@,
        },
        Ir::Open => match target {
            Target::C => "while (mem[p] != 0) {"@,
            Target::Rust => "while mem[p] != 0 {"@,
        },
        Ir::Close => "}"@,
        Ir::Clear => "mem[p] = 0;"@,
        Ir::Scan(dir) => (match target {
            Target::C => "while (mem[p] != 0) { p "@,
            Target::Rust => "while mem[p] != 0 { p "@,
        }) + dir_sign(dir) + "= 1; }"@,
        Ir::Copy(dir, steps) => "mem[p "@ + dir_sign(dir) + " "@ + decimal(steps as nat)
            + "] += mem[p];"@,
        Ir::Mul(dir, steps, factor) => "mem[p "@ + dir_sign(dir) + " "@ + decimal(steps as nat)
            + "] += mem[p] * "@ + signed(factor as int) + ";"@,
    }
}

/// The listing of a program: one instruction to a line.
pub open spec fn listing(s: Seq<Ir>) -> Seq<char>
    decreases s.len(),
{
    if s.len() == 0 {
        Seq::empty()
    } else {
        listing(s.drop_last()) + listed(s.last()) + "\n"@
    }
}

/// The statements of a program: one to a line.
pub open spec fn statements(target: Target, s: Seq<Ir>) -> Seq<char>
    decreases s.len(),
{
    if s.len() == 0 {
        Seq::empty()
    } else {
        statements(target, s.drop_last()) + statement(target, s.last()) + "\n"@
    }
}

/// What stands before the statements of a program in the target language.
pub open spec fn prologue(target: Target) -> Seq<char> {
    match target {
        Target::C => C_PROLOGUE@,
        Target::Rust => RUST_PROLOGUE@,
    }
}

/// The source text of a program in the target language.
pub open spec fn source(target: Target, s: Seq<Ir>) -> Seq<char> {
    prologue(target) + statements(target, s) + EPILOGUE@
}

/// Gives the numeral of a digit.
fn digit_str(d: usize) -> (s: &'static str)
    requires
        d < 10,
    ensures
        s@ == digit(d as int),
{
    if d == 0 {
        "0"
    } else if d == 1 {
        "1"
    } else if d == 2 {
        "2"
    } else if d == 3 {
        "3"
    } else if d == 4 {
        "4"
    } else if d == 5 {
        "5"
    } else if d == 6 {
        "6"
    } else if d == 7 {
        "7"
    } else if d == 8 {
        "8"
    } else {
        "9"
    }
}

/// Appends the decimal numeral of `n`.
fn push_decimal(out: &mut String, n: usize)
    ensures
        final(out)@ == old(out)@ + decimal(n as nat),
    decreases n,
{
    if n >= 10 {
        push_decimal(out, n / 10);
    }
    out.append(digit_str(n % 10));
    proof {
        if n >= 10 {
            assert(out@ =~= old(out)@ + (decimal((n / 10) as nat) + digit((n % 10) as int)));
        }
    }
}

/// Appends the decimal numeral of `factor`.
fn push_signed(out: &mut String, factor: i8)
    ensures
        final(out)@ == old(out)@ + signed(factor as int),
{
    if factor < 0 {
        out.append("-");
        push_decimal(out, (-(factor as i16)) as usize);
        proof {
            assert(out@ =~= old(out)@ + ("-"@ + decimal((-factor) as nat)));
        }
    } else {
        push_decimal(out, factor as usize);
    }
}

/// Gives the name of a direction.
fn dir_name_str(dir: Dir) -> (s: &'static str)
    ensures
        s@ == dir_name(dir),
{
    match dir {
        Dir::Left => "Left",
        Dir::Right => "Right",
    }
}

/// Gives the sign by which source text moves in a direction.
fn dir_sign_str(dir: Dir) -> (s: &'static str)
    ensures
        s@ == dir_sign(dir),
{
    match dir {
        Dir::Left => "-",
        Dir::Right => "+",
    }
}

/// Appends `open`, the name of `dir`, a comma and the numeral of `steps`.
fn push_listed_move(out: &mut String, open: &str, dir: Dir, steps: usize)
    ensures
        final(out)@ == old(out)@ + (open@ + dir_name(dir) + ", "@ + decimal(steps as nat)),
{
    out.append(open);
    out.append(dir_name_str(dir));
    out.append(", ");
    push_decimal(out, steps);
    proof {
        assert(out@ =~= old(out)@ + (open@ + dir_name(dir) + ", "@ + decimal(steps as nat)));
    }
}

/// Appends an instruction as a listing shows it.
fn push_listed(out: &mut String, ir: Ir)
    ensures
        final(out)@ == old(out)@ + listed(ir),
{
    match ir {
        Ir::Add(n) => {
            out.append("Add(");
            push_decimal(out, n as usize);
            out.append(")");
        },
        Ir::Sub(n) => {
            out.append("Sub(");
            push_decimal(out, n as usize);
            out.append(")");
        },
        Ir::Shift(dir, steps) => {
            push_listed_move(out, "Shift(", dir, steps);
            out.append(")");
        },
        Ir::Read => {
            out.append("Read");
        },
        Ir::Write => {
            out.append("Write");
        },
        Ir::Open => {
            out.append("Open");
        },
        Ir::Close => {
            out.append("Close");
        },
        Ir::Clear => {
            out.append("Clear");
        },
        Ir::Copy(dir, steps) => {
            push_listed_move(out, "Copy(", dir, steps);
            out.append(")");
        },
        Ir::Mul(dir, steps, factor) => {
            push_listed_move(out, "Mul(", dir, steps);
            out.append(", ");
            push_signed(out, factor);
            out.append(")");
        },
        Ir::Scan(dir) => {
            out.append("Scan(");
            out.append(dir_name_str(dir));
            out.append(")");
        },
    }
    proof {
        assert(out@ =~= old(out)@ + listed(ir));
    }
}

/// Appends `open`, the sign of `dir`, `middle` and the numeral of `steps`.
fn push_moved(out: &mut String, open: &str, dir: Dir, middle: &str, steps: usize)
    ensures
        final(out)@ == old(out)@ + (open@ + dir_sign(dir) + middle@ + decimal(steps as nat)),
{
    out.append(open);
    out.append(dir_sign_str(dir));
    out.append(middle);
    push_decimal(out, steps);
    proof {
        assert(out@ =~= old(out)@ + (open@ + dir_sign(dir) + middle@ + decimal(steps as nat)));
    }
}

/// Appends the statement that does what an instruction does.
fn push_statement(out: &mut String, target: Target, ir: Ir)
    ensures
        final(out)@ == old(out)@ + statement(target, ir),
{
    match ir {
        Ir::Add(n) => {
            out.append("mem[p] += ");
            push_decimal(out, n as usize);
            out.append(";");
        },
        Ir::Sub(n) => {
            out.append("mem[p] -= ");
            push_decimal(out, n as usize);
            out.append(";");
        },
        Ir::Shift(dir, steps) => {
            push_moved(out, "p ", dir, "= ", steps);
            out.append(";");
        },
        Ir::Read => match target {
            Target::C => {
                out.append("mem[p] = getchar();");
            },
            Target::Rust => {
                out.append("mem[p] = read_char() as u8;");
            },
        },
        Ir::Write => match target {
            Target::C => {
                out.append("putchar(mem[p]);");
            },
            Target::Rust => {
                out.append("write_char(mem[p] as char);");
            },
        },
        Ir::Open => match target {
            Target::C => {
                out.append("while (mem[p] != 0) {");
            },
            Target::Rust => {
                out.append("while mem[p] != 0 {");
            },
        },
        Ir::Close => {
            out.append("}");
        },
        Ir::Clear => {
            out.append("mem[p] = 0;");
        },
        Ir::Scan(dir) => {
            match target {
                Target::C => {
                    out.append("while (mem[p] != 0) { p ");
                },
                Target::Rust => {
                    out.append("while mem[p] != 0 { p ");
                },
            }
            out.append(dir_sign_str(dir));
            out.append("= 1; }");
        },
        Ir::Copy(dir, steps) => {
            push_moved(out, "mem[p ", dir, " ", steps);
            out.append("] += mem[p];");
        },
        Ir::Mul(dir, steps, factor) => {
            push_moved(out, "mem[p ", dir, " ", steps);
            out.append("] += mem[p] * ");
            push_signed(out, factor);
            out.append(";");
        },
    }
    proof {
        assert(out@ =~= old(out)@ + statement(target, ir));
    }
}

/// Gives the listing of a program: one instruction to a line.
pub fn emit_ir(ast: &Ast) -> (text: String)
    ensures
        text@ == listing(ast@),
{
    let mut text = String::new();
    let mut i: usize = 0;
    while i < ast.len()
        invariant
            i <= ast.len(),
            text@ == listing(ast@.take(i as int)),
        decreases ast.len() - i,
    {
        proof {
            assert(ast@.take(i + 1).drop_last() =~= ast@.take(i as int));
        }
        push_listed(&mut text, ast[i]);
        text.append("\n");
        i = i + 1;
    }
    proof {
        assert(ast@.take(ast.len() as int) =~= ast@);
    }
    text
}

/// Gives the source text of a program in the target language.
pub fn emit(target: Target, ast: &Ast) -> (text: String)
    ensures
        text@ == source(target, ast@),
{
    let mut text = String::new();
    match target {
        Target::C => {
            text.append(C_PROLOGUE);
        },
        Target::Rust => {
            text.append(RUST_PROLOGUE);
        },
    }
    let mut i: usize = 0;
    proof {
        assert(text@ =~= prologue(target) + statements(target, ast@.take(0)));
    }
    while i < ast.len()
        invariant
            i <= ast.len(),
            text@ == prologue(target) + statements(target, ast@.take(i as int)),
        decreases ast.len() - i,
    {
        proof {
            assert(ast@.take(i + 1).drop_last() =~= ast@.take(i as int));
        }
        let ghost before = text@;
        push_statement(&mut text, target, ast[i]);
        text.append("\n");
        proof {
            assert(text@ =~= prologue(target) + (statements(target, ast@.take(i as int))
                + statement(target, ast@[i as int]) + "\n"@));
        }
        i = i + 1;
    }
    proof {
        assert(ast@.take(ast.len() as int) =~= ast@);
    }
    text.append(EPILOGUE);
    text
}

/// Gives the C source text of a program.
pub fn emit_c(ast: &Ast) -> (text: String)
    ensures
        text@ == source(Target::C, ast@),
{
    emit(Target::C, ast)
}

/// Gives the Rust source text of a program.
pub fn emit_rust(ast: &Ast) -> (text: String)
    ensures
        text@ == source(Target::Rust, ast@),
{
    emit(Target::Rust, ast)
}

} // verus!
