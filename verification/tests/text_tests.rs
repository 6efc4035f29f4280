use bf_interp::byte_stream::ByteStream;
use bf_interp::emit::{emit, emit_c, emit_ir, emit_rust, Target, C_PROLOGUE, EPILOGUE, RUST_PROLOGUE};
use bf_interp::lexer::{classify, tokenize, Token, TokenStream};
use bf_interp::optimizer::OptLevel;
use bf_interp::options::{emissions, opt_level, Emission};
use bf_interp::parser::{decode, parse, SyntaxError};
use bf_interp::syntax::{push_range, Dir, Ir};

fn stream(text: &str) -> ByteStream {
    ByteStream::new(text.as_bytes().to_vec())
}

#[test]
fn byte_stream_gives_bytes_in_order() {
    let mut s = ByteStream::new(vec![7, 0, 255]);
    assert_eq!(s.next_byte(), Some(7));
    assert_eq!(s.next_byte(), Some(0));
    assert_eq!(s.next_byte(), Some(255));
    assert_eq!(s.next_byte(), None);
    assert_eq!(s.next_byte(), None);
    assert_eq!(ByteStream::new(vec![]).next_byte(), None);
}

#[test]
fn bytes_are_classified() {
    assert_eq!(classify(b'<'), Some(Token::Left));
    assert_eq!(classify(b'>'), Some(Token::Right));
    assert_eq!(classify(b'+'), Some(Token::Add));
    assert_eq!(classify(b'-'), Some(Token::Sub));
    assert_eq!(classify(b','), Some(Token::Read));
    assert_eq!(classify(b'.'), Some(Token::Write));
    assert_eq!(classify(b'['), Some(Token::Open));
    assert_eq!(classify(b']'), Some(Token::Close));
    assert_eq!(classify(b'a'), None);
    assert_eq!(classify(b'\n'), None);
    assert_eq!(decode(b'+'), Some(Ir::Add(1)));
    assert_eq!(decode(b'-'), Some(Ir::Sub(1)));
    assert_eq!(decode(b'<'), Some(Ir::Shift(Dir::Left, 1)));
    assert_eq!(decode(b'>'), Some(Ir::Shift(Dir::Right, 1)));
    assert_eq!(decode(b','), Some(Ir::Read));
    assert_eq!(decode(b'.'), Some(Ir::Write));
    assert_eq!(decode(b'['), Some(Ir::Open));
    assert_eq!(decode(b']'), Some(Ir::Close));
    assert_eq!(decode(b' '), None);
}

#[test]
fn tokenize_skips_comments() {
    let mut bytes = stream("a<b>c+d-e,f.g[h]i\n");
    let mut tokens = tokenize(&mut bytes);
    assert_eq!(bytes.next_byte(), None);
    let mut seen = Vec::new();
    while let Some(token) = tokens.next_token() {
        seen.push(token);
    }
    assert_eq!(
        seen,
        vec![
            Token::Left,
            Token::Right,
            Token::Add,
            Token::Sub,
            Token::Read,
            Token::Write,
            Token::Open,
            Token::Close
        ]
    );
}

#[test]
fn token_stream_moves_forward() {
    let mut tokens = TokenStream::new(Box::new(vec![Token::Add, Token::Sub]));
    assert_eq!(tokens.prev_token(), None);
    assert_eq!(tokens.peek_token(), Some(Token::Add));
    assert_eq!(tokens.peek_token(), Some(Token::Add));
    tokens.consume_token();
    assert_eq!(tokens.prev_token(), Some(Token::Add));
    assert_eq!(tokens.next_token(), Some(Token::Sub));
    assert_eq!(tokens.prev_token(), Some(Token::Sub));
    assert_eq!(tokens.peek_token(), None);
    assert_eq!(tokens.next_token(), None);
    tokens.consume_token();
    assert_eq!(tokens.prev_token(), Some(Token::Sub));
    let mut empty = TokenStream::new(Box::new(vec![]));
    assert_eq!(empty.next_token(), None);
    assert_eq!(empty.prev_token(), None);
}

#[test]
fn parse_gives_one_instruction_per_operation() {
    assert_eq!(
        parse(&mut stream("+-<>,.[] x")),
        Ok(vec![
            Ir::Add(1),
            Ir::Sub(1),
            Ir::Shift(Dir::Left, 1),
            Ir::Shift(Dir::Right, 1),
            Ir::Read,
            Ir::Write,
            Ir::Open,
            Ir::Close
        ])
    );
    assert_eq!(parse(&mut stream("")), Ok(vec![]));
    assert_eq!(parse(&mut stream("no operation")), Ok(vec![]));
}

#[test]
fn parse_refuses_brackets_without_partner() {
    assert_eq!(parse(&mut stream("[")), Err(SyntaxError::UnmatchedOpen));
    assert_eq!(parse(&mut stream("+[[-]")), Err(SyntaxError::UnmatchedOpen));
    assert_eq!(parse(&mut stream("]")), Err(SyntaxError::UnmatchedClose));
    assert_eq!(parse(&mut stream("][")), Err(SyntaxError::UnmatchedClose));
    assert_eq!(parse(&mut stream("[]]")), Err(SyntaxError::UnmatchedClose));
    assert_eq!(parse(&mut stream("[]][")), Err(SyntaxError::UnmatchedClose));
    assert_eq!(parse(&mut stream("[[]")), Err(SyntaxError::UnmatchedOpen));
}

#[test]
fn parse_reads_the_stream_to_its_end() {
    let mut s = stream("]++");
    assert_eq!(parse(&mut s), Err(SyntaxError::UnmatchedClose));
    assert_eq!(s.next_byte(), None);
}

#[test]
fn push_range_appends_a_part() {
    let mut out = vec![Ir::Read];
    push_range(&mut out, &vec![Ir::Add(1), Ir::Add(2), Ir::Add(3)], 1, 3);
    assert_eq!(out, vec![Ir::Read, Ir::Add(2), Ir::Add(3)]);
    push_range(&mut out, &vec![Ir::Add(1)], 1, 1);
    assert_eq!(out.len(), 3);
}

#[test]
fn listing_names_each_instruction() {
    let ast = vec![
        Ir::Add(1),
        Ir::Sub(255),
        Ir::Shift(Dir::Left, 10),
        Ir::Shift(Dir::Right, 65536),
        Ir::Read,
        Ir::Write,
        Ir::Open,
        Ir::Close,
        Ir::Clear,
        Ir::Copy(Dir::Right, 2),
        Ir::Mul(Dir::Left, 3, -128),
        Ir::Mul(Dir::Right, 1, 127),
        Ir::Scan(Dir::Left),
    ];
    let expected: String = ast.iter().map(|ir| format!("{:?}\n", ir)).collect();
    assert_eq!(emit_ir(&ast), expected);
    assert_eq!(
        emit_ir(&ast),
        "Add(1)\nSub(255)\nShift(Left, 10)\nShift(Right, 65536)\nRead\nWrite\nOpen\nClose\nClear\nCopy(Right, 2)\nMul(Left, 3, -128)\nMul(Right, 1, 127)\nScan(Left)\n"
    );
    assert_eq!(emit_ir(&vec![]), "");
    assert_eq!(emit_ir(&vec![Ir::Add(0)]), "Add(0)\n");
}

#[test]
fn c_source_has_one_statement_per_instruction() {
    let ast = vec![
        Ir::Add(3),
        Ir::Sub(4),
        Ir::Shift(Dir::Left, 5),
        Ir::Shift(Dir::Right, 6),
        Ir::Read,
        Ir::Write,
        Ir::Open,
        Ir::Close,
        Ir::Clear,
        Ir::Scan(Dir::Left),
        Ir::Scan(Dir::Right),
        Ir::Copy(Dir::Left, 7),
        Ir::Copy(Dir::Right, 8),
        Ir::Mul(Dir::Left, 9, 10),
        Ir::Mul(Dir::Right, 11, -12),
    ];
    let expected = "#include <stdio.h>\n#include <stdint.h>\n#include <stdlib.h>\n\nint main(int argc, char **argv) {\nuint8_t mem[65536] = {0};\nuint32_t p = 0;\n\
mem[p] += 3;\nmem[p] -= 4;\np -= 5;\np += 6;\nmem[p] = getchar();\nputchar(mem[p]);\nwhile (mem[p] != 0) {\n}\nmem[p] = 0;\n\
while (mem[p] != 0) { p -= 1; }\nwhile (mem[p] != 0) { p += 1; }\nmem[p - 7] += mem[p];\nmem[p + 8] += mem[p];\n\
mem[p - 9] += mem[p] * 10;\nmem[p + 11] += mem[p] * -12;\n}";
    assert_eq!(emit_c(&ast), expected);
    assert_eq!(emit(Target::C, &ast), expected);
    assert_eq!(emit_c(&vec![]), format!("{}{}", C_PROLOGUE, EPILOGUE));
}

#[test]
fn rust_source_has_one_statement_per_instruction() {
    let ast = vec![
        Ir::Add(3),
        Ir::Read,
        Ir::Write,
        Ir::Open,
        Ir::Close,
        Ir::Scan(Dir::Left),
        Ir::Scan(Dir::Right),
        Ir::Mul(Dir::Right, 100, 0),
    ];
    let expected = format!(
        "{}{}{}",
        RUST_PROLOGUE,
        "mem[p] += 3;\nmem[p] = read_char() as u8;\nwrite_char(mem[p] as char);\nwhile mem[p] != 0 {\n}\n\
while mem[p] != 0 { p -= 1; }\nwhile mem[p] != 0 { p += 1; }\nmem[p + 100] += mem[p] * 0;\n",
        EPILOGUE
    );
    assert_eq!(emit_rust(&ast), expected);
    assert_eq!(emit(Target::Rust, &ast), expected);
    assert!(RUST_PROLOGUE.starts_with("#![allow(unstable)]\n\n/// Reads a `char` from `stdin`.\nfn read_char() -> char {\nmatch "));
    assert!(RUST_PROLOGUE.ends_with("fn main() {\nlet mut mem = [0u8; 65_536us];\nlet mut p = 0us;\n\n"));
}

#[test]
fn levels_are_named_by_digits() {
    assert_eq!(opt_level("0"), OptLevel::No);
    assert_eq!(opt_level("1"), OptLevel::Less);
    assert_eq!(opt_level("2"), OptLevel::Default);
    assert_eq!(opt_level("3"), OptLevel::Aggressive);
    assert_eq!(opt_level(""), OptLevel::Default);
    assert_eq!(opt_level("4"), OptLevel::Default);
    assert_eq!(opt_level("03"), OptLevel::Default);
    assert_eq!(opt_level("fast"), OptLevel::Default);
}

#[test]
fn emissions_are_named_in_a_list() {
    assert_eq!(emissions(""), vec![]);
    assert_eq!(emissions("c"), vec![Emission::C]);
    assert_eq!(
        emissions("ir,c,rust,java"),
        vec![Emission::Ir, Emission::C, Emission::Rust, Emission::Java]
    );
    assert_eq!(emissions("c,,go,rust,"), vec![Emission::C, Emission::Rust]);
    assert_eq!(emissions(",c"), vec![Emission::C]);
    assert_eq!(emissions("C,rusty, ir,jav"), vec![]);
    assert_eq!(emissions("c,c"), vec![Emission::C, Emission::C]);
}
