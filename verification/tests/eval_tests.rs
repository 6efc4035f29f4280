use bf_interp::byte_stream::ByteStream;
use bf_interp::eval::{eval, Effect, EvalError, Evaluator, Status};
use bf_interp::mem::{Mem, OutOfBounds, MEM_SIZE};
use bf_interp::optimizer::{optimize, optimize_with, OptConfig, OptLevel};
use bf_interp::parser::parse;
use bf_interp::syntax::{is_balanced, scan_close, Ast, Dir, Ir};

fn parsed(text: &str) -> Ast {
    let mut stream = ByteStream::new(text.as_bytes().to_vec());
    parse(&mut stream).unwrap()
}

fn output_of(ast: &Ast, input: &[u8]) -> (Status, Vec<u8>) {
    let r = eval(ast, &input.to_vec(), 10_000_000);
    (r.status, r.output)
}

const LEVELS: [OptLevel; 4] = [
    OptLevel::No,
    OptLevel::Less,
    OptLevel::Default,
    OptLevel::Aggressive,
];

#[test]
fn cell_wraps_at_255_and_at_0() {
    let mut mem = Mem::new();
    mem.set(255);
    mem.add(1);
    assert_eq!(mem.get(), 0);
    mem.subtract(1);
    assert_eq!(mem.get(), 255);
    assert_eq!(output_of(&vec![Ir::Sub(1), Ir::Write], &[]), (Status::Halted, vec![255]));
    assert_eq!(
        output_of(&vec![Ir::Add(255), Ir::Add(1), Ir::Write], &[]),
        (Status::Halted, vec![0])
    );
}

#[test]
fn tape_starts_blank() {
    let mut mem = Mem::new();
    assert_eq!(mem.position(), 0);
    assert_eq!(mem.get(), 0);
    assert_eq!(mem.shift(Dir::Right, MEM_SIZE - 1), Ok(()));
    assert_eq!(mem.get(), 0);
    assert_eq!(MEM_SIZE, 65_536);
}

#[test]
fn shift_stays_on_the_tape() {
    let mut mem = Mem::new();
    assert_eq!(mem.shift(Dir::Left, 1), Err(OutOfBounds));
    assert_eq!(mem.position(), 0);
    assert_eq!(mem.shift(Dir::Right, MEM_SIZE), Err(OutOfBounds));
    assert_eq!(mem.position(), 0);
    assert_eq!(mem.shift(Dir::Right, usize::MAX), Err(OutOfBounds));
    assert_eq!(mem.shift(Dir::Right, 7), Ok(()));
    assert_eq!(mem.position(), 7);
    assert_eq!(mem.shift(Dir::Left, 7), Ok(()));
    assert_eq!(mem.position(), 0);
    assert_eq!(mem.shift(Dir::Left, 0), Ok(()));
}

#[test]
fn set_and_clear_work_on_the_current_cell() {
    let mut mem = Mem::new();
    mem.set(9);
    mem.shift(Dir::Right, 1).unwrap();
    mem.set(4);
    mem.clear();
    assert_eq!(mem.get(), 0);
    mem.shift(Dir::Left, 1).unwrap();
    assert_eq!(mem.get(), 9);
}

#[test]
fn scan_stops_at_the_nearest_zero() {
    let mut mem = Mem::new();
    for _ in 0..3 {
        mem.set(1);
        mem.shift(Dir::Right, 1).unwrap();
    }
    mem.shift(Dir::Left, 3).unwrap();
    assert_eq!(mem.scan(Dir::Right), Ok(()));
    assert_eq!(mem.position(), 3);
    assert_eq!(mem.scan(Dir::Right), Ok(()));
    assert_eq!(mem.position(), 3);
    mem.shift(Dir::Left, 1).unwrap();
    assert_eq!(mem.scan(Dir::Left), Err(OutOfBounds));
    assert_eq!(mem.position(), 2);
}

#[test]
fn copy_adds_the_current_cell() {
    let mut mem = Mem::new();
    mem.set(200);
    mem.shift(Dir::Right, 2).unwrap();
    mem.set(100);
    assert_eq!(mem.copy(Dir::Left, 2), Ok(()));
    assert_eq!(mem.get(), 100);
    mem.shift(Dir::Left, 2).unwrap();
    assert_eq!(mem.get(), 44);
    assert_eq!(mem.copy(Dir::Left, 1), Err(OutOfBounds));
    assert_eq!(mem.copy(Dir::Right, MEM_SIZE), Err(OutOfBounds));
    assert_eq!(mem.copy(Dir::Right, 0), Ok(()));
    assert_eq!(mem.get(), 88);
}

#[test]
fn multiply_adds_the_product() {
    let mut mem = Mem::new();
    mem.set(7);
    assert_eq!(mem.multiply(Dir::Right, 1, 10), Ok(()));
    assert_eq!(mem.multiply(Dir::Right, 2, -3), Ok(()));
    assert_eq!(mem.multiply(Dir::Right, 3, 0), Ok(()));
    assert_eq!(mem.multiply(Dir::Right, 4, -128), Ok(()));
    assert_eq!(mem.multiply(Dir::Right, 5, 127), Ok(()));
    assert_eq!(mem.multiply(Dir::Right, 6, 1), Ok(()));
    assert_eq!(mem.multiply(Dir::Right, 7, -1), Ok(()));
    let mut seen = Vec::new();
    for _ in 0..7 {
        mem.shift(Dir::Right, 1).unwrap();
        seen.push(mem.get());
    }
    assert_eq!(seen, vec![70, 235, 0, 128, 121, 7, 249]);
    assert_eq!(mem.multiply(Dir::Right, MEM_SIZE, 0), Err(OutOfBounds));
    assert_eq!(mem.multiply(Dir::Left, 8, 2), Err(OutOfBounds));
}

#[test]
fn multiply_program_prints_sixty() {
    let ast = parsed("++++++[>++++++++++<-]>.");
    assert_eq!(output_of(&ast, &[]), (Status::Halted, vec![60]));
    for level in LEVELS {
        assert_eq!(
            output_of(&optimize(level, &ast), &[]),
            (Status::Halted, vec![60])
        );
    }
}

#[test]
fn optimized_programs_write_what_the_program_writes() {
    let texts = [
        "++++++++[>++++[>++>+++>+++>+<<<<-]>+>+>->>+[<]<-]>>.>---.+++++++..+++.>>.<-.<.+++.------.--------.>>+.>++.",
        ",[.,]",
        ",>,<[->+<]>.",
        ",[->++>---<<]>.>.",
        ",[>+>+<<-]>[-<+>]<.>>.",
        "+[-][.]>,[>]<[<]>[.>]",
        "[.]+++[>+++[>+<-]<-]>>.",
        ",>,<[>[->+>+<<]>>[-<<+>>]<<<-]>>.",
        "-[>-<---]>.",
        ">,+-+[-<+>>+<]++--.<.>>.",
    ];
    let inputs: [&[u8]; 4] = [&[], &[3, 5], &[0], &[200, 100, 7, 0, 1]];
    for text in texts {
        let ast = parsed(text);
        for input in inputs {
            let expected = output_of(&ast, input);
            for level in LEVELS {
                assert_eq!(output_of(&optimize(level, &ast), input), expected);
            }
            for bits in 0..16 {
                let config = OptConfig {
                    contraction: bits & 1 != 0,
                    clear_loop: bits & 2 != 0,
                    scan_loop: bits & 4 != 0,
                    copy_mul_loop: bits & 8 != 0,
                };
                assert_eq!(output_of(&optimize_with(config, &ast), input), expected);
            }
        }
    }
}

#[test]
fn hello_world_is_printed() {
    let ast = parsed(
        "++++++++[>++++[>++>+++>+++>+<<<<-]>+>+>->>+[<]<-]>>.>---.+++++++..+++.>>.<-.<.+++.------.--------.>>+.>++.",
    );
    assert_eq!(
        output_of(&ast, &[]),
        (Status::Halted, b"Hello World!\n".to_vec())
    );
}

#[test]
fn read_takes_input_in_order() {
    assert_eq!(
        output_of(&parsed(",.,.,."), &[1, 2, 3, 4]),
        (Status::Halted, vec![1, 2, 3])
    );
}

#[test]
fn read_at_end_of_input_leaves_the_cell() {
    assert_eq!(
        output_of(&parsed("+++,."), &[]),
        (Status::Halted, vec![3])
    );
    assert_eq!(
        output_of(&parsed(",.,."), &[9]),
        (Status::Halted, vec![9, 9])
    );
}

#[test]
fn pointer_off_the_tape_is_a_fault() {
    assert_eq!(
        output_of(&parsed("+.<."), &[]),
        (Status::Fault(EvalError::OutOfBounds), vec![1])
    );
    assert_eq!(
        output_of(&vec![Ir::Shift(Dir::Right, MEM_SIZE)], &[]),
        (Status::Fault(EvalError::OutOfBounds), vec![])
    );
    assert_eq!(
        output_of(&vec![Ir::Add(1), Ir::Scan(Dir::Left)], &[]),
        (Status::Fault(EvalError::OutOfBounds), vec![])
    );
    assert_eq!(
        output_of(&vec![Ir::Copy(Dir::Left, 1)], &[]),
        (Status::Fault(EvalError::OutOfBounds), vec![])
    );
    assert_eq!(
        output_of(&vec![Ir::Mul(Dir::Right, MEM_SIZE, 0)], &[]),
        (Status::Fault(EvalError::OutOfBounds), vec![])
    );
    assert_eq!(
        output_of(&vec![Ir::Shift(Dir::Right, MEM_SIZE - 1), Ir::Add(2), Ir::Write], &[]),
        (Status::Halted, vec![2])
    );
}

#[test]
fn bracket_without_partner_is_a_fault() {
    assert_eq!(
        output_of(&vec![Ir::Add(1), Ir::Write, Ir::Close], &[]),
        (Status::Fault(EvalError::MalformedLoop), vec![1])
    );
    assert_eq!(
        output_of(&vec![Ir::Open, Ir::Add(1)], &[]),
        (Status::Fault(EvalError::MalformedLoop), vec![])
    );
    assert_eq!(
        output_of(&vec![Ir::Open, Ir::Open, Ir::Close], &[]),
        (Status::Fault(EvalError::MalformedLoop), vec![])
    );
}

#[test]
fn endless_loop_runs_out_of_fuel() {
    let r = eval(&parsed("+[.]"), &vec![], 7);
    assert_eq!(r.status, Status::OutOfFuel);
    assert_eq!(r.output, vec![1, 1]);
    let r = eval(&parsed("+"), &vec![], 0);
    assert_eq!(r.status, Status::OutOfFuel);
    let r = eval(&parsed("+"), &vec![], 1);
    assert_eq!(r.status, Status::Halted);
    let r = eval(&vec![], &vec![], 0);
    assert_eq!(r.status, Status::Halted);
}

#[test]
fn derived_instructions_run() {
    assert_eq!(
        output_of(
            &vec![
                Ir::Add(5),
                Ir::Copy(Dir::Right, 1),
                Ir::Mul(Dir::Right, 2, 3),
                Ir::Mul(Dir::Right, 3, -1),
                Ir::Clear,
                Ir::Write,
                Ir::Shift(Dir::Right, 1),
                Ir::Write,
                Ir::Scan(Dir::Right),
                Ir::Shift(Dir::Left, 1),
                Ir::Write,
                Ir::Shift(Dir::Left, 1),
                Ir::Write
            ],
            &[]
        ),
        (Status::Halted, vec![0, 5, 251, 15])
    );
}

#[test]
fn steps_follow_the_transition_table() {
    let ast = parsed("+[-],.");
    let mut evaluator = Evaluator::new();
    let silent = Effect { consumed: false, emitted: None };
    assert!(!evaluator.is_halted(&ast));
    assert!(!evaluator.wants_input(&ast));
    assert_eq!(evaluator.step(&ast, Some(9)), Ok(silent));
    assert_eq!(evaluator.step(&ast, Some(9)), Ok(silent));
    assert_eq!(evaluator.step(&ast, Some(9)), Ok(silent));
    assert!(!evaluator.wants_input(&ast));
    assert_eq!(evaluator.step(&ast, Some(9)), Ok(silent));
    assert!(evaluator.wants_input(&ast));
    assert_eq!(
        evaluator.step(&ast, Some(9)),
        Ok(Effect { consumed: true, emitted: None })
    );
    assert_eq!(
        evaluator.step(&ast, None),
        Ok(Effect { consumed: false, emitted: Some(9) })
    );
    assert!(evaluator.is_halted(&ast));
    assert_eq!(evaluator.step(&ast, None), Ok(silent));
    assert!(evaluator.is_halted(&ast));
}

#[test]
fn step_reports_faults() {
    let mut evaluator = Evaluator::new();
    assert_eq!(
        evaluator.step(&vec![Ir::Close], None),
        Err(EvalError::MalformedLoop)
    );
    assert_eq!(
        evaluator.step(&vec![Ir::Shift(Dir::Left, 1)], None),
        Err(EvalError::OutOfBounds)
    );
    assert_eq!(
        evaluator.step(&vec![Ir::Open], None),
        Err(EvalError::MalformedLoop)
    );
}

#[test]
fn brackets_are_matched() {
    let ast = parsed("+[>[-]<[->+<]]");
    assert_eq!(scan_close(&ast, 1), 13);
    assert_eq!(scan_close(&ast, 3), 5);
    assert_eq!(scan_close(&ast, 7), 12);
    assert_eq!(scan_close(&vec![Ir::Open, Ir::Open, Ir::Close], 0), 3);
    assert!(is_balanced(&ast));
    assert!(is_balanced(&vec![]));
    assert!(!is_balanced(&vec![Ir::Close, Ir::Open]));
    assert!(!is_balanced(&vec![Ir::Open]));
    assert!(!is_balanced(&vec![Ir::Open, Ir::Close, Ir::Close]));
}

#[test]
fn passes_keep_brackets_matched() {
    for text in [
        "[x]+[-][>]>,[->+<]<[[-]>[>]<[-<+>]]",
        ",[>,[-]<[>+<-]]",
        "+[[[-]]][-]",
    ] {
        let ast = parsed(text);
        for level in LEVELS {
            assert!(is_balanced(&optimize(level, &ast)));
        }
    }
}

#[test]
fn cancelled_shifts_no_longer_leave_the_tape() {
    let ast = parsed("<>+.");
    assert_eq!(
        output_of(&ast, &[]),
        (Status::Fault(EvalError::OutOfBounds), vec![])
    );
    assert_eq!(
        output_of(&optimize(OptLevel::Default, &ast), &[]),
        (Status::Halted, vec![1])
    );
}

#[test]
fn closed_form_reaches_for_its_cells_even_with_nothing_to_move() {
    let mut ast = vec![Ir::Shift(Dir::Right, MEM_SIZE - 1), Ir::Read];
    ast.extend(parsed("[->+<]+."));
    assert_eq!(output_of(&ast, &[0]), (Status::Halted, vec![1]));
    assert_eq!(
        output_of(&optimize(OptLevel::Default, &ast), &[0]),
        (Status::Halted, vec![1])
    );
    assert_eq!(
        output_of(&optimize(OptLevel::Aggressive, &ast), &[0]),
        (Status::Fault(EvalError::OutOfBounds), vec![])
    );
    assert_eq!(
        output_of(&ast, &[2]),
        (Status::Fault(EvalError::OutOfBounds), vec![])
    );
}
