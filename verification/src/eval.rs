//! The evaluator: a machine with an instruction pointer and a stack of the
//! loops that are open, which runs a program against a tape.

use vstd::prelude::*;

use crate::mem::{Mem, OutOfBounds, Tape};
use crate::syntax::{matching_close, scan_close, Ast, Ir};

verus! {

/// Why a run was given up.
#[derive(Clone, Copy, PartialEq, Eq, Debug, Structural)]
pub enum EvalError {
    /// The pointer would have left the tape.
    OutOfBounds,
    /// A bracket has no partner.
    MalformedLoop,
}

/// The state of the evaluator as a mathematical value.
pub struct Machine {
    /// The tape.
    pub tape: Tape,
    /// The index of the instruction that runs next.
    pub ip: int,
    /// The indices of the `Open` instructions of the loops that are open,
    /// the innermost last.
    pub stack: Seq<int>,
}

/// What one step did at the I/O boundary.
#[derive(Clone, Copy, PartialEq, Eq, Debug, Structural)]
pub struct Effect {
    /// Whether the step took the input byte that it was offered.
    pub consumed: bool,
    /// The byte that the step wrote, if it wrote one.
    pub emitted: Option<u8>,
}

/// The effect of a step that neither reads nor writes.
pub open spec fn silent() -> Effect {
    Effect { consumed: false, emitted: None }
}

/// What an instruction that only works on the tape makes of it; `None` where
/// the pointer would leave the tape. Instructions that do not work on the
/// tape alone leave it as it is.
pub open spec fn apply(ir: Ir, tape: Tape) -> Option<Tape> {
    match ir {
        Ir::Add(n) => Some(tape.bump(n as int)),
        Ir::Sub(n) => Some(tape.bump(-(n as int))),
        Ir::Shift(dir, steps) => tape.shift(dir, steps as int),
        Ir::Clear => Some(tape.set(0)),
        Ir::Scan(dir) => tape.scan(dir),
        Ir::Copy(dir, steps) => tape.copy(dir, steps as int),
        Ir::Mul(dir, steps, factor) => tape.multiply(dir, steps as int, factor as int),
        _ => Some(tape),
    }
}

impl Machine {
    /// The machine at the start of a run.
    pub open spec fn initial() -> Machine {
        Machine { tape: Tape::blank(), ip: 0, stack: Seq::empty() }
    }

    /// Whether the machine has run past the end of program `p`.
    pub open spec fn halted(self, p: Seq<Ir>) -> bool {
        !(0 <= self.ip < p.len())
    }

    /// The machine with tape `tape`, at the next instruction.
    pub open spec fn advance(self, tape: Tape) -> Machine {
        Machine { tape, ip: self.ip + 1, stack: self.stack }
    }

    /// One step of the machine on program `p`, with `next_input` the byte
    /// that a `Read` would get (`None` at the end of the input, which leaves
    /// the cell as it is). A machine that has halted stays as it is.
    pub open spec fn step(self, p: Seq<Ir>, next_input: Option<u8>) -> Result<
        (Machine, Effect),
        EvalError,
    > {
        if self.halted(p) {
            Ok((self, silent()))
        } else {
            match p[self.ip] {
                Ir::Read => match next_input {
                    Some(byte) => Ok(
                        (
                            self.advance(self.tape.set(byte)),
                            Effect { consumed: true, emitted: None },
                        ),
                    ),
                    None => Ok((self.advance(self.tape), silent())),
                },
                Ir::Write => Ok(
                    (
                        self.advance(self.tape),
                        Effect { consumed: false, emitted: Some(self.tape.cur()) },
                    ),
                ),
                Ir::Open => if self.tape.cur() != 0 {
                    Ok(
                        (
                            Machine {
                                tape: self.tape,
                                ip: self.ip + 1,
                                stack: self.stack.push(self.ip),
                            },
                            silent(),
                        ),
                    )
                } else if matching_close(p, self.ip) < p.len() {
                    Ok(
                        (
                            Machine {
                                tape: self.tape,
                                ip: matching_close(p, self.ip) + 1,
                                stack: self.stack,
                            },
                            silent(),
                        ),
                    )
                } else {
                    Err(EvalError::MalformedLoop)
                },
                Ir::Close => if self.stack.len() == 0 {
                    Err(EvalError::MalformedLoop)
                } else if self.tape.cur() != 0 {
                    Ok(
                        (
                            Machine {
                                tape: self.tape,
                                ip: self.stack.last(),
                                stack: self.stack.drop_last(),
                            },
                            silent(),
                        ),
                    )
                } else {
                    Ok(
                        (
                            Machine {
                                tape: self.tape,
                                ip: self.ip + 1,
                                stack: self.stack.drop_last(),
                            },
                            silent(),
                        ),
                    )
                },
                ir => match apply(ir, self.tape) {
                    Some(tape) => Ok((self.advance(tape), silent())),
                    None => Err(EvalError::OutOfBounds),
                },
            }
        }
    }
}

/// A run in progress: the machine, the input that is left and the output so
/// far.
pub struct Run {
    pub machine: Machine,
    pub input: Seq<u8>,
    pub output: Seq<u8>,
}

/// How a run ended, or did not.
#[derive(Clone, Copy, PartialEq, Eq, Debug, Structural)]
pub enum Status {
    /// The machine ran past the end of the program.
    Halted,
    /// The steps that were granted did not suffice.
    OutOfFuel,
    /// The run was given up.
    Fault(EvalError),
}

/// The first byte of `input`, if there is one.
pub open spec fn head(input: Seq<u8>) -> Option<u8> {
    if input.len() > 0 {
        Some(input[0])
    } else {
        None
    }
}

impl Run {
    /// The run of a program on `input`, before its first step.
    pub open spec fn start(input: Seq<u8>) -> Run {
        Run { machine: Machine::initial(), input, output: Seq::empty() }
    }

    /// The run after a step that led to `machine` with `effect`.
    pub open spec fn after(self, machine: Machine, effect: Effect) -> Run {
        Run {
            machine,
            input: if effect.consumed {
                self.input.skip(1)
            } else {
                self.input
            },
            output: match effect.emitted {
                Some(byte) => self.output.push(byte),
                None => self.output,
            },
        }
    }

    /// The run after at most `fuel` more steps of program `p`, and how it
    /// stands then. A run that is given up stays as it was before the step
    /// that failed.
    pub open spec fn run(self, p: Seq<Ir>, fuel: nat) -> (Status, Run)
        decreases fuel,
    {
        if self.machine.halted(p) {
            (Status::Halted, self)
        } else if fuel == 0 {
            (Status::OutOfFuel, self)
        } else {
            match self.machine.step(p, head(self.input)) {
                Ok((machine, effect)) => self.after(machine, effect).run(p, (fuel - 1) as nat),
                Err(e) => (Status::Fault(e), self),
            }
        }
    }
}

/// The state of the evaluator: the tape, the instruction pointer and the
/// stack of the loops that are open.
pub struct Evaluator {
    mem: Mem,
    ip: usize,
    stack: Vec<usize>,
}

impl View for Evaluator {
    type V = Machine;

    closed spec fn view(&self) -> Machine {
        Machine {
            tape: self.mem@,
            ip: self.ip as int,
            stack: self.stack@.map_values(|open: usize| open as int),
        }
    }
}

/// What a finished call of `eval` has to tell.
pub struct Evaluation {
    /// How the run ended.
    pub status: Status,
    /// The bytes that the program wrote.
    pub output: Vec<u8>,
}

impl Evaluator {
    /// Creates an evaluator at the start of a run.
    pub fn new() -> (evaluator: Evaluator)
        ensures
            evaluator@ == Machine::initial(),
    {
        let evaluator = Evaluator { mem: Mem::new(), ip: 0, stack: Vec::new() };
        proof {
            assert(evaluator@.stack =~= Seq::empty());
        }
        evaluator
    }

    /// Tells whether the run is over: the instruction pointer stands behind
    /// the last instruction of `ast`.
    pub fn is_halted(&self, ast: &Ast) -> (halted: bool)
        ensures
            halted == self@.halted(ast@),
    {
        self.ip >= ast.len()
    }

    /// Tells whether the instruction that runs next is a `Read`.
    pub fn wants_input(&self, ast: &Ast) -> (wanted: bool)
        ensures
            wanted == (!self@.halted(ast@) && ast@[self@.ip] == Ir::Read),
    {
        self.ip < ast.len() && ast[self.ip] == Ir::Read
    }

    /// Runs one instruction of `ast`. `next_input` is the byte that a `Read`
    /// gets, `None` at the end of the input. After an error the evaluator is
    /// as it was before.
    pub fn step(&mut self, ast: &Ast, next_input: Option<u8>) -> (r: Result<Effect, EvalError>)
        ensures
            match old(self)@.step(ast@, next_input) {
                Ok((machine, effect)) => r == Ok::<Effect, EvalError>(effect) && final(self)@
                    == machine,
                Err(e) => r == Err::<Effect, EvalError>(e) && final(self)@ == old(self)@,
            },
    {
        if self.ip >= ast.len() {
            return Ok(Effect { consumed: false, emitted: None });
        }
        let ghost before = self@;
        let mut effect = Effect { consumed: false, emitted: None };
        let moved: Result<(), OutOfBounds> = match ast[self.ip] {
            Ir::Add(n) => {
                self.mem.add(n);
                Ok(())
            },
            Ir::Sub(n) => {
                self.mem.subtract(n);
                Ok(())
            },
            Ir::Shift(dir, steps) => self.mem.shift(dir, steps),
            Ir::Read => {
                match next_input {
                    Some(byte) => {
                        self.mem.set(byte);
                        effect = Effect { consumed: true, emitted: None };
                    },
                    None => {},
                }
                Ok(())
            },
            Ir::Write => {
                effect = Effect { consumed: false, emitted: Some(self.mem.get()) };
                Ok(())
            },
            Ir::Open => {
                if self.mem.get() != 0 {
                    self.stack.push(self.ip);
                    proof {
                        assert(self@.stack =~= before.stack.push(before.ip));
                    }
                } else {
                    let close = scan_close(ast, self.ip);
                    if close >= ast.len() {
                        return Err(EvalError::MalformedLoop);
                    }
                    self.ip = close;
                }
                Ok(())
            },
            Ir::Close => {
                match self.stack.pop() {
                    Some(open) => {
                        proof {
                            assert(self@.stack =~= before.stack.drop_last());
                            assert(before.stack.last() == open);
                        }
                        if self.mem.get() != 0 {
                            self.ip = open;
                            return Ok(effect);
                        }
                    },
                    None => {
                        return Err(EvalError::MalformedLoop);
                    },
                }
                Ok(())
            },
            Ir::Clear => {
                self.mem.clear();
                Ok(())
            },
            Ir::Scan(dir) => self.mem.scan(dir),
            Ir::Copy(dir, steps) => self.mem.copy(dir, steps),
            Ir::Mul(dir, steps, factor) => self.mem.multiply(dir, steps, factor),
        };
        match moved {
            Ok(()) => {
                self.ip = self.ip + 1;
                Ok(effect)
            },
            Err(_) => Err(EvalError::OutOfBounds),
        }
    }
}

/// Runs `ast` on the input given, for at most `fuel` steps, and gives how the
/// run ended and what it wrote. The input is read from its start; a `Read`
/// behind its end leaves the cell as it is.
pub fn eval(ast: &Ast, input: &Vec<u8>, fuel: u64) -> (r: Evaluation)
    ensures
        r.status == Run::start(input@).run(ast@, fuel as nat).0,
        r.output@ == Run::start(input@).run(ast@, fuel as nat).1.output,
{
    let mut evaluator = Evaluator::new();
    let mut output: Vec<u8> = Vec::new();
    let mut taken: usize = 0;
    let mut left: u64 = fuel;
    let ghost mut now = Run::start(input@);
    proof {
        assert(input@.skip(0) =~= input@);
    }
    while left > 0 && !evaluator.is_halted(ast)
        invariant
            taken <= input.len(),
            now.machine == evaluator@,
            now.input == input@.skip(taken as int),
            now.output == output@,
            Run::start(input@).run(ast@, fuel as nat) == now.run(ast@, left as nat),
        decreases left,
    {
        let next_input = if taken < input.len() {
            Some(input[taken])
        } else {
            None
        };
        match evaluator.step(ast, next_input) {
            Ok(effect) => {
                proof {
                    now = now.after(evaluator@, effect);
                    if effect.consumed {
                        assert(input@.skip(taken as int).skip(1) =~= input@.skip(taken + 1));
                    }
                }
                if effect.consumed {
                    taken = taken + 1;
                }
                match effect.emitted {
                    Some(byte) => {
                        output.push(byte);
                    },
                    None => {},
                }
            },
            Err(e) => {
                return Evaluation { status: Status::Fault(e), output };
            },
        }
        left = left - 1;
    }
    let status = if evaluator.is_halted(ast) {
        Status::Halted
    } else {
        Status::OutOfFuel
    };
    Evaluation { status, output }
}

} // verus!
