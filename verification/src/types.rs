//! The instruction set model: registers, operands, instructions, and the
//! configuration handed in by the host.

use vstd::prelude::*;

verus! {

/// One of the eleven storage slots of the register file: the accumulator,
/// the instruction/stack pointer slot, and nine general-purpose registers.
#[derive(Debug, PartialEq, Eq, Copy, Clone, Structural)]
pub enum Register {
    Acc,
    Isp,
    R0,
    R1,
    R2,
    R3,
    R4,
    R5,
    R6,
    R7,
    R8,
}

/// How a 16-bit value is obtained at execution time: a literal, the content
/// of a register, or the memory cell addressed by a register's content.
#[derive(Debug, PartialEq, Eq, Copy, Clone, Structural)]
pub enum Operand {
    Immediate(u16),
    Register(Register),
    Indirect(Register),
}

/// One instruction, one variant per opcode. The set is closed: the engine
/// matches it exhaustively, and variants that are modeled but not wired into
/// dispatch fault at execution time.
#[derive(Debug, PartialEq, Eq, Copy, Clone, Structural)]
pub enum Instruction {
    Add(Operand),
    Sub(Operand),
    Mul(Operand),
    Div(Operand),
    Mov(Operand, Register),
    Xor(Operand, Operand),
    And(Operand, Operand),
    Or(Operand, Operand),
    Not(Operand, Operand),
    Jmp,
    Jnz,
    Jez,
    Jgz,
    Jlz,
}

/// The host's configuration: the path of the assembly source file.
pub struct Config {
    pub path: String,
}

impl Config {
    /// Builds a `Config` from the command-line arguments: the first argument
    /// is the program name and is skipped, the second is the path.
    pub fn build(args: Vec<String>) -> (r: Result<Config, &'static str>)
        ensures
            args@.len() >= 2 ==> (r matches Ok(c) && c.path == args@[1]),
            args@.len() < 2 ==> r == Result::<Config, &'static str>::Err("Expected path"),
    {
        if args.len() >= 2 {
            let path = args[1].clone();
            Ok(Config { path })
        } else {
            Err("Expected path")
        }
    }
}

} // verus!
