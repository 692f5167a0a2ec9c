//! The instruction set of the virtual machine and the compiled program.

use vstd::prelude::*;

verus! {

/// One opcode of the virtual machine.
#[derive(Debug, PartialEq, Eq, Clone, Copy)]
pub enum Instr {
    /// Stops the machine.
    Halt,
    Drop,
    Dup,
    Rot,
    Over,
    Swap,
    /// Hands the data stack out for display.
    Debug,
    PlusI,
    MultI,
    Mod,
    /// Pointer plus offset.
    Offset,
    Lt,
    EqI,
    NEqI,
    /// Returns to the address on top of the return stack.
    Ret,
    /// Stores the low bits of a value; the payload is the width in bits.
    Write(usize),
    /// Loads a value and zero-extends it; the payload is the width in bits.
    Read(usize),
    /// Calls the function at an absolute address.
    Call(usize),
    /// Copies the cell at a depth below the top, 0 being the top.
    Bind(u32),
    PushI32(i32),
    PushPtr(usize),
    /// Jumps by an offset relative to this instruction.
    Jmp(isize),
    /// Pops a cell and jumps by the offset if the cell is zero.
    JmpIf(isize),
}

/// A compiled program.
#[derive(Debug, Clone, PartialEq, Eq)]
pub struct Bytecode {
    pub program: Vec<Instr>,
    /// The number of bytes of all static allocations.
    pub program_mem: usize,
    /// The address of the first instruction to run.
    pub entry: usize,
    /// String literals, copied to the start of the arena.
    pub strs: Vec<Vec<u8>>,
}

impl Bytecode {
    pub fn new(program: Vec<Instr>, program_mem: usize) -> (code: Self)
        ensures
            code.program@ == program@,
            code.program_mem == program_mem,
            code.entry == 0,
            code.strs@.len() == 0,
    {
        Self { program, program_mem, entry: 0, strs: Vec::new() }
    }

    /// The number of instructions.
    pub fn len(&self) -> (n: usize)
        ensures
            n == self.program@.len(),
    {
        self.program.len()
    }
}

} // verus!
