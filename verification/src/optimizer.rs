//! The optimizer: passes that rewrite a program into a smaller one that
//! behaves the same.

use vstd::prelude::*;

use crate::optimizer::contract::{contract, contract_opt};
use crate::optimizer::copy_loop::{collapse_loops, copy_mul_div_loop_opt};
use crate::optimizer::dead_loop::{comment_loop_opt, elide, strip_leading, unused_loop_opt};
use crate::optimizer::patterns::{clear_loop_opt, clear_loops, scan_loop_opt, scan_loops};
use crate::syntax::{balanced, Ast, Ir};

pub mod contract;
pub mod copy_loop;
pub mod dead_loop;
pub mod patterns;

verus! {

/// Which of the optional passes run. The two passes that remove loops that
/// can never run are no option: they always run, and run first.
#[derive(Clone, Copy, PartialEq, Eq, Debug, Structural)]
pub struct OptConfig {
    /// Contract runs of cell updates and of pointer moves.
    pub contraction: bool,
    /// Replace the loop that empties a cell by `Clear`.
    pub clear_loop: bool,
    /// Replace the loop that looks for an empty cell by `Scan`.
    pub scan_loop: bool,
    /// Replace loops that move the value of a cell by `Copy` and `Mul`.
    pub copy_mul_loop: bool,
}

impl Default for OptConfig {
    /// Every pass runs.
    fn default() -> (config: OptConfig)
        ensures
            config == (OptConfig {
                contraction: true,
                clear_loop: true,
                scan_loop: true,
                copy_mul_loop: true,
            }),
    {
        OptConfig { contraction: true, clear_loop: true, scan_loop: true, copy_mul_loop: true }
    }
}

/// A coarse choice among sets of passes.
#[derive(Clone, Copy, PartialEq, Eq, PartialOrd, Ord, Debug, Structural)]
pub enum OptLevel {
    /// No optional pass.
    No,
    /// No optional pass either: what sets this level apart is always done.
    Less,
    /// Contraction and the two loops of one instruction.
    Default,
    /// Every pass.
    Aggressive,
}

impl OptLevel {
    /// The passes that run at this level.
    pub open spec fn preset(self) -> OptConfig {
        match self {
            OptLevel::No | OptLevel::Less => OptConfig {
                contraction: false,
                clear_loop: false,
                scan_loop: false,
                copy_mul_loop: false,
            },
            OptLevel::Default => OptConfig {
                contraction: true,
                clear_loop: true,
                scan_loop: true,
                copy_mul_loop: false,
            },
            OptLevel::Aggressive => OptConfig {
                contraction: true,
                clear_loop: true,
                scan_loop: true,
                copy_mul_loop: true,
            },
        }
    }

    /// Gives the passes that run at this level.
    pub fn config(self) -> (config: OptConfig)
        ensures
            config == self.preset(),
    {
        let basic = match self {
            OptLevel::No | OptLevel::Less => false,
            _ => true,
        };
        let all = match self {
            OptLevel::Aggressive => true,
            _ => false,
        };
        OptConfig { contraction: basic, clear_loop: basic, scan_loop: basic, copy_mul_loop: all }
    }
}

/// `s` after the two passes that always run.
pub open spec fn without_dead_loops(s: Seq<Ir>) -> Seq<Ir> {
    elide(strip_leading(s), false)
}

/// `s` after the pass, if it is switched on.
pub open spec fn contract_if(on: bool, s: Seq<Ir>) -> Seq<Ir> {
    if on {
        contract(s)
    } else {
        s
    }
}

/// `s` after the pass, if it is switched on.
pub open spec fn clear_loops_if(on: bool, s: Seq<Ir>) -> Seq<Ir> {
    if on {
        clear_loops(s)
    } else {
        s
    }
}

/// `s` after the pass, if it is switched on.
pub open spec fn scan_loops_if(on: bool, s: Seq<Ir>) -> Seq<Ir> {
    if on {
        scan_loops(s)
    } else {
        s
    }
}

/// `s` after the pass, if it is switched on.
pub open spec fn collapse_loops_if(on: bool, s: Seq<Ir>) -> Seq<Ir> {
    if on {
        collapse_loops(s)
    } else {
        s
    }
}

/// The program that the optimizer makes of `s`: the passes in their fixed
/// order, each optional one only where `config` switches it on.
pub open spec fn optimized(config: OptConfig, s: Seq<Ir>) -> Seq<Ir> {
    collapse_loops_if(
        config.copy_mul_loop,
        scan_loops_if(
            config.scan_loop,
            clear_loops_if(
                config.clear_loop,
                contract_if(config.contraction, without_dead_loops(s)),
            ),
        ),
    )
}

/// Optimizes a program with the passes that `config` switches on.
pub fn optimize_with(config: OptConfig, ast: &Ast) -> (opt: Ast)
    ensures
        opt@ == optimized(config, ast@),
        balanced(ast@) ==> balanced(opt@),
{
    let mut opt = comment_loop_opt(ast);
    opt = unused_loop_opt(&opt);
    if config.contraction {
        opt = contract_opt(&opt);
    }
    if config.clear_loop {
        opt = clear_loop_opt(&opt);
    }
    if config.scan_loop {
        opt = scan_loop_opt(&opt);
    }
    if config.copy_mul_loop {
        opt = copy_mul_div_loop_opt(&opt);
    }
    opt
}

/// Optimizes a program with the passes of the level given.
pub fn optimize(opt_level: OptLevel, ast: &Ast) -> (opt: Ast)
    ensures
        opt@ == optimized(opt_level.preset(), ast@),
        balanced(ast@) ==> balanced(opt@),
{
    optimize_with(opt_level.config(), ast)
}

} // verus!
