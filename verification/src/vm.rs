//! The stack virtual machine: a data stack of 64-bit cells, a return stack
//! and a byte arena, driven one instruction at a time.

use vstd::prelude::*;
use vstd::string::StringExecFns;
use crate::instructions::{Bytecode, Instr};
use crate::memory::{
    Memory, le_bytes, le_value, lemma_le_bytes_len, lemma_le_bytes_of_value, lemma_pow256_positive,
    lemma_pow256_values, pow256, spliced, zeros,
};
use crate::stack::{VMStack, CELL, show_cells, stack_text};

verus! {

/// The number of cells of the data stack.
pub const STACK_CELLS: usize = 1024;

/// The address `rel` instructions away from `addr`.
pub fn jump(addr: usize, rel: isize) -> (target: usize)
    requires
        0 <= addr + rel <= usize::MAX,
    ensures
        target == addr + rel,
{
    if rel >= 0 {
        addr + rel as usize
    } else {
        addr - ((-(rel + 1)) as usize) - 1
    }
}

/// The offset that leads from `addr` to `other`.
pub fn jump_to(addr: usize, other: usize) -> (rel: isize)
    requires
        isize::MIN <= other - addr <= isize::MAX,
    ensures
        rel == other - addr,
{
    if other >= addr {
        (other - addr) as isize
    } else {
        -((addr - other - 1) as isize) - 1
    }
}

/// Whether the address `rel` away from `addr` lies in a program of `len`
/// instructions, its end included.
pub fn jump_in_bounds(addr: usize, rel: isize, len: usize) -> (ok: bool)
    requires
        addr <= len,
    ensures
        ok == (0 <= addr + rel <= len),
{
    if rel >= 0 {
        rel as usize <= len - addr
    } else {
        ((-(rel + 1)) as usize) < addr
    }
}

/// A fatal runtime error.
#[derive(Debug, PartialEq, Eq, Clone, Copy)]
pub enum Trap {
    /// An instruction needs more cells than the data stack holds.
    StackUnderflow,
    /// A push onto a full data stack.
    StackOverflow,
    /// A read or write that does not lie in the arena.
    MemoryOutOfBounds,
    /// A read or write whose width is not 8, 16, 32 or 64 bits.
    InvalidWidth,
    /// A jump or call whose target lies outside the program.
    JumpOutOfBounds,
    /// A remainder by zero.
    DivisionByZero,
}

/// A trap, in words.
pub open spec fn trap_text(t: Trap) -> Seq<char> {
    match t {
        Trap::StackUnderflow => "pop from an empty stack"@,
        Trap::StackOverflow => "data stack overflow"@,
        Trap::MemoryOutOfBounds => "memory access out of bounds"@,
        Trap::InvalidWidth => "invalid access width"@,
        Trap::JumpOutOfBounds => "jump target out of bounds"@,
        Trap::DivisionByZero => "division by zero"@,
    }
}

impl Trap {
    /// The trap, in words.
    pub fn message(self) -> (text: &'static str)
        ensures
            text@ == trap_text(self),
    {
        match self {
            Trap::StackUnderflow => "pop from an empty stack",
            Trap::StackOverflow => "data stack overflow",
            Trap::MemoryOutOfBounds => "memory access out of bounds",
            Trap::InvalidWidth => "invalid access width",
            Trap::JumpOutOfBounds => "jump target out of bounds",
            Trap::DivisionByZero => "division by zero",
        }
    }
}

/// What one step of the machine did.
#[derive(Debug, PartialEq, Eq, Clone, Copy)]
pub enum Step {
    /// An instruction ran; the machine goes on.
    Continue,
    /// A `Debug` instruction ran: the data stack is to be shown.
    Dump,
    /// The machine has stopped; nothing changed.
    Halt,
    /// The instruction cannot run; nothing changed.
    Trap(Trap),
}

/// How a run ended.
#[derive(Debug, PartialEq, Eq, Clone, Copy)]
pub enum Outcome {
    Halted,
    Trapped(Trap),
    /// The step budget ran out before the machine stopped.
    OutOfSteps,
}

/// The state of the machine as plain values.
#[verifier::ext_equal]
pub ghost struct VmState {
    /// The address of the next instruction.
    pub ip: nat,
    /// The data stack, the bottom cell first.
    pub stack: Seq<u64>,
    /// The return stack, the oldest address first.
    pub rstack: Seq<usize>,
    /// The bytes of the arena.
    pub mem: Seq<u8>,
}

/// `n` reduced to 64 bits.
pub open spec fn wrap64(n: int) -> u64 {
    (n % 0x1_0000_0000_0000_0000) as u64
}

/// The number of bytes of an access `bits` wide, where the width is one the
/// machine knows.
pub open spec fn width_bytes(bits: usize) -> Option<nat> {
    if bits == 8 {
        Some(1nat)
    } else if bits == 16 {
        Some(2nat)
    } else if bits == 32 {
        Some(4nat)
    } else if bits == 64 {
        Some(8nat)
    } else {
        None
    }
}

/// The state after an instruction that only changes the data stack.
pub open spec fn advance(s: VmState, stack: Seq<u64>) -> (VmState, Step) {
    (VmState { ip: s.ip + 1, stack: stack, rstack: s.rstack, mem: s.mem }, Step::Continue)
}

/// The state after a jump to `target`.
pub open spec fn goto(s: VmState, stack: Seq<u64>, target: int) -> (VmState, Step) {
    (VmState { ip: target as nat, stack: stack, rstack: s.rstack, mem: s.mem }, Step::Continue)
}

/// A trap leaves the state as it was.
pub open spec fn trap(s: VmState, t: Trap) -> (VmState, Step) {
    (s, Step::Trap(t))
}

/// Pushing one cell: a trap on a full stack.
pub open spec fn push_cell(s: VmState, cap: nat, value: u64) -> (VmState, Step) {
    if s.stack.len() >= cap {
        trap(s, Trap::StackOverflow)
    } else {
        advance(s, s.stack.push(value))
    }
}

/// What a two-operand instruction leaves for the operands `a` and `b`,
/// `b` having been on top.
pub open spec fn binary_result(op: Instr, a: u64, b: u64) -> u64 {
    match op {
        Instr::PlusI => wrap64(a + b),
        Instr::Offset => wrap64(a + b),
        Instr::MultI => wrap64(a * b),
        Instr::Mod => if b == 0 {
            0
        } else {
            a % b
        },
        Instr::EqI => if a == b {
            1
        } else {
            0
        },
        Instr::NEqI => if a != b {
            1
        } else {
            0
        },
        Instr::Lt => if a < b {
            1
        } else {
            0
        },
        _ => 0,
    }
}

/// A two-operand instruction: pops `b`, then `a`, and pushes the result.
pub open spec fn binary_step(s: VmState, op: Instr) -> (VmState, Step) {
    if s.stack.len() < 2 {
        trap(s, Trap::StackUnderflow)
    } else {
        let b = s.stack.last();
        let rest = s.stack.drop_last();
        let a = rest.last();
        if op == Instr::Mod && b == 0 {
            trap(s, Trap::DivisionByZero)
        } else {
            advance(s, rest.drop_last().push(binary_result(op, a, b)))
        }
    }
}

/// The value of the `width` bytes at `ptr`, zero-extended.
pub open spec fn load(mem: Seq<u8>, ptr: int, width: nat) -> u64 {
    le_value(mem.subrange(ptr, ptr + width)) as u64
}

/// The arena with the `width` low-order bytes of `value` at `ptr`.
pub open spec fn store(mem: Seq<u8>, ptr: int, width: nat, value: u64) -> Seq<u8> {
    spliced(mem, ptr, le_bytes(value as nat, width))
}

/// One step of the machine that runs `code` with a data stack of `cap` cells.
///
/// Operands are popped right to left: the rightmost operand is on top.
pub open spec fn step_spec(code: Seq<Instr>, cap: nat, s: VmState) -> (VmState, Step) {
    if s.ip >= code.len() {
        (s, Step::Halt)
    } else {
        let op = code[s.ip as int];
        let depth = s.stack.len();
        match op {
            Instr::Halt => goto(s, s.stack, code.len() as int),
            Instr::PushI32(v) => push_cell(s, cap, v as u64),
            Instr::PushPtr(p) => push_cell(s, cap, p as u64),
            Instr::Drop => if depth < 1 {
                trap(s, Trap::StackUnderflow)
            } else {
                advance(s, s.stack.drop_last())
            },
            Instr::Dup => if depth < 1 {
                trap(s, Trap::StackUnderflow)
            } else if depth >= cap {
                trap(s, Trap::StackOverflow)
            } else {
                let a = s.stack.last();
                advance(s, s.stack.drop_last().push(a).push(a))
            },
            Instr::Swap => if depth < 2 {
                trap(s, Trap::StackUnderflow)
            } else {
                let b = s.stack.last();
                let rest = s.stack.drop_last();
                let a = rest.last();
                advance(s, rest.drop_last().push(b).push(a))
            },
            Instr::Over => if depth < 2 {
                trap(s, Trap::StackUnderflow)
            } else if depth >= cap {
                trap(s, Trap::StackOverflow)
            } else {
                let b = s.stack.last();
                let rest = s.stack.drop_last();
                let a = rest.last();
                advance(s, rest.drop_last().push(a).push(b).push(a))
            },
            Instr::Rot => if depth < 3 {
                trap(s, Trap::StackUnderflow)
            } else {
                let c = s.stack.last();
                let rest1 = s.stack.drop_last();
                let b = rest1.last();
                let rest2 = rest1.drop_last();
                let a = rest2.last();
                advance(s, rest2.drop_last().push(b).push(c).push(a))
            },
            Instr::PlusI | Instr::MultI | Instr::Mod | Instr::Offset | Instr::EqI | Instr::NEqI
            | Instr::Lt => binary_step(s, op),
            Instr::Bind(k) => if depth <= k {
                trap(s, Trap::StackUnderflow)
            } else if depth >= cap {
                trap(s, Trap::StackOverflow)
            } else {
                advance(s, s.stack.push(s.stack[depth - 1 - k]))
            },
            Instr::Jmp(rel) => if 0 <= s.ip + rel <= code.len() {
                goto(s, s.stack, s.ip + rel)
            } else {
                trap(s, Trap::JumpOutOfBounds)
            },
            Instr::JmpIf(rel) => if depth < 1 {
                trap(s, Trap::StackUnderflow)
            } else if s.stack.last() != 0 {
                advance(s, s.stack.drop_last())
            } else if 0 <= s.ip + rel <= code.len() {
                goto(s, s.stack.drop_last(), s.ip + rel)
            } else {
                trap(s, Trap::JumpOutOfBounds)
            },
            Instr::Call(addr) => if addr > code.len() {
                trap(s, Trap::JumpOutOfBounds)
            } else {
                (
                    VmState {
                        ip: addr as nat,
                        stack: s.stack,
                        rstack: s.rstack.push((s.ip + 1) as usize),
                        mem: s.mem,
                    },
                    Step::Continue,
                )
            },
            Instr::Ret => if s.rstack.len() == 0 {
                (s, Step::Halt)
            } else {
                (
                    VmState {
                        ip: s.rstack.last() as nat,
                        stack: s.stack,
                        rstack: s.rstack.drop_last(),
                        mem: s.mem,
                    },
                    Step::Continue,
                )
            },
            Instr::Read(bits) => if depth < 1 {
                trap(s, Trap::StackUnderflow)
            } else {
                let ptr = s.stack.last();
                match width_bytes(bits) {
                    None => trap(s, Trap::InvalidWidth),
                    Some(w) => if ptr + w > s.mem.len() {
                        trap(s, Trap::MemoryOutOfBounds)
                    } else {
                        advance(s, s.stack.drop_last().push(load(s.mem, ptr as int, w)))
                    },
                }
            },
            Instr::Write(bits) => if depth < 2 {
                trap(s, Trap::StackUnderflow)
            } else {
                let ptr = s.stack.last();
                let rest = s.stack.drop_last();
                let value = rest.last();
                match width_bytes(bits) {
                    None => trap(s, Trap::InvalidWidth),
                    Some(w) => if ptr + w > s.mem.len() {
                        trap(s, Trap::MemoryOutOfBounds)
                    } else {
                        (
                            VmState {
                                ip: s.ip + 1,
                                stack: rest.drop_last(),
                                rstack: s.rstack,
                                mem: store(s.mem, ptr as int, w, value),
                            },
                            Step::Continue,
                        )
                    },
                }
            },
            Instr::Debug => (
                VmState { ip: s.ip + 1, stack: s.stack, rstack: s.rstack, mem: s.mem },
                Step::Dump,
            ),
        }
    }
}

/// The bytes of all string literals, one after the other.
pub open spec fn strs_bytes(strs: Seq<Vec<u8>>) -> Seq<u8>
    decreases strs.len(),
{
    if strs.len() == 0 {
        Seq::empty()
    } else {
        strs_bytes(strs.drop_last()) + strs.last()@
    }
}

/// The number of bytes of the arena that a program asks for.
pub open spec fn arena_request(program: Bytecode) -> nat {
    strs_bytes(program.strs@).len() + program.program_mem as nat
}

/// Whether the arena that `program` asks for can be addressed.
pub fn arena_fits(program: &Bytecode) -> (fits: bool)
    ensures
        fits == (arena_request(*program) <= usize::MAX),
{
    let mut total: usize = program.program_mem;
    let mut i: usize = 0;
    let ghost strs = program.strs@;
    assert(strs.take(0) =~= Seq::<Vec<u8>>::empty());
    while i < program.strs.len()
        invariant
            i <= program.strs.len(),
            strs == program.strs@,
            total == strs_bytes(strs.take(i as int)).len() + program.program_mem,
        decreases program.strs.len() - i,
    {
        proof {
            lemma_strs_bytes_prefix(strs, i as int + 1);
        }
        total = match total.checked_add(program.strs[i].len()) {
            Some(total) => total,
            None => {
                return false;
            },
        };
        i += 1;
    }
    assert(strs.take(strs.len() as int) =~= strs);
    true
}

/// The arena at the start of a run: as many bytes as the program asks for,
/// the string literals first, then zeros.
pub open spec fn arena_of(program: Bytecode) -> Seq<u8> {
    spliced(zeros(arena_request(program)), 0, strs_bytes(program.strs@))
}

/// The state in which a run of `program` starts.
pub open spec fn initial_state(program: Bytecode) -> VmState {
    VmState {
        ip: program.entry as nat,
        stack: Seq::empty(),
        rstack: Seq::empty(),
        mem: arena_of(program),
    }
}

/// The machine after at most `fuel` steps from `s`: its state, the data
/// stacks that `Debug` instructions showed, in order, and how the run ended.
pub open spec fn run_spec(code: Seq<Instr>, cap: nat, s: VmState, fuel: nat) -> (
    VmState,
    Seq<Seq<u64>>,
    Outcome,
)
    decreases fuel,
{
    if fuel == 0 {
        (s, Seq::empty(), Outcome::OutOfSteps)
    } else {
        let (next, step) = step_spec(code, cap, s);
        match step {
            Step::Halt => (s, Seq::empty(), Outcome::Halted),
            Step::Trap(t) => (s, Seq::empty(), Outcome::Trapped(t)),
            Step::Continue => run_spec(code, cap, next, (fuel - 1) as nat),
            Step::Dump => {
                let (last, dumps, outcome) = run_spec(code, cap, next, (fuel - 1) as nat);
                (last, seq![next.stack] + dumps, outcome)
            },
        }
    }
}

/// The number of bytes of an access `bits` wide.
fn width_of(bits: usize) -> (w: Option<usize>)
    ensures
        match w {
            Some(n) => width_bytes(bits) == Some(n as nat),
            None => width_bytes(bits).is_none(),
        },
{
    if bits == 8 {
        Some(1)
    } else if bits == 16 {
        Some(2)
    } else if bits == 32 {
        Some(4)
    } else if bits == 64 {
        Some(8)
    } else {
        None
    }
}

/// A virtual machine in the middle of a run.
#[derive(Debug)]
pub struct Vm {
    code: Vec<Instr>,
    ip: usize,
    stack: VMStack<u64>,
    rstack: Vec<usize>,
    mem: Memory,
}

impl View for Vm {
    type V = VmState;

    closed spec fn view(&self) -> VmState {
        VmState { ip: self.ip as nat, stack: self.stack@, rstack: self.rstack@, mem: self.mem@ }
    }
}

impl Vm {
    /// The data stack is well formed.
    pub closed spec fn wf(&self) -> bool {
        self.stack.wf()
    }

    /// The instructions that the machine runs.
    pub closed spec fn program(&self) -> Seq<Instr> {
        self.code@
    }

    /// The number of cells of the data stack.
    pub closed spec fn capacity(&self) -> nat {
        self.stack.capacity()
    }

    /// A machine ready to run `program`: empty stacks, the arena holding the
    /// string literals and zeros.
    pub fn new(program: Bytecode) -> (vm: Self)
        requires
            arena_request(program) <= usize::MAX,
        ensures
            vm.wf(),
            vm@ == initial_state(program),
            vm.program() == program.program@,
            vm.capacity() == STACK_CELLS,
    {
        let Bytecode { program: code, program_mem, entry, strs } = program;
        let ghost all = strs_bytes(strs@);
        let mut strs_size: usize = 0;
        let mut i: usize = 0;
        assert(strs@.take(strs@.len() as int) =~= strs@);
        while i < strs.len()
            invariant
                i <= strs.len(),
                strs_size == strs_bytes(strs@.take(i as int)).len(),
                strs_bytes(strs@).len() + program_mem <= usize::MAX,
            decreases strs.len() - i,
        {
            proof {
                lemma_strs_bytes_prefix(strs@, i as int + 1);
                assert(strs@.take(i as int + 1).drop_last() =~= strs@.take(i as int));
            }
            strs_size += strs[i].len();
            i += 1;
        }
        assert(strs@.take(strs@.len() as int) =~= strs@);
        let mut mem = Memory::new(strs_size + program_mem);
        let ghost blank = mem@;
        mem.set_write_pos(0);
        let mut i: usize = 0;
        assert(mem@ =~= spliced(blank, 0, strs_bytes(strs@.take(0))));
        while i < strs.len()
            invariant
                i <= strs.len(),
                blank.len() >= strs_bytes(strs@).len(),
                mem@ == spliced(blank, 0, strs_bytes(strs@.take(i as int))),
                mem.cursor() == strs_bytes(strs@.take(i as int)).len(),
            decreases strs.len() - i,
        {
            let e = &strs[i];
            let ghost done = strs_bytes(strs@.take(i as int));
            proof {
                lemma_strs_bytes_prefix(strs@, i as int + 1);
                assert(strs@.take(i as int + 1).drop_last() =~= strs@.take(i as int));
            }
            let mut j: usize = 0;
            while j < e.len()
                invariant
                    j <= e.len(),
                    blank.len() >= done.len() + e@.len(),
                    mem@ == spliced(blank, 0, done + e@.take(j as int)),
                    mem.cursor() == done.len() + j,
                decreases e.len() - j,
            {
                mem.write_push::<u8>(e[j]);
                proof {
                    reveal_with_fuel(le_bytes, 2);
                    assert(le_bytes(e[j as int] as nat, 1) =~= seq![e[j as int]]);
                    assert(mem@ =~= spliced(blank, 0, done + e@.take(j as int + 1)));
                }
                j += 1;
            }
            assert(e@.take(e@.len() as int) =~= e@);
            i += 1;
        }
        let stack = VMStack::<u64>::new(STACK_CELLS * CELL);
        let vm = Vm { code, ip: entry, stack, rstack: Vec::new(), mem };
        proof {
            assert(vm@.mem =~= arena_of(program));
            assert(vm@.rstack =~= Seq::empty());
            assert(vm@.stack =~= Seq::empty());
        }
        vm
    }

    /// The data stack, the bottom cell first.
    pub fn stack_cells(&self) -> (cells: Vec<u64>)
        requires
            self.wf(),
        ensures
            cells@ == self@.stack,
    {
        self.stack.cells()
    }

    /// The bytes of the arena.
    pub fn memory(&self) -> (mem: &Memory)
        ensures
            mem@ == self@.mem,
    {
        &self.mem
    }

    /// The address of the next instruction.
    pub fn ip(&self) -> (ip: usize)
        ensures
            ip == self@.ip,
    {
        self.ip
    }

    /// Runs the instruction at the instruction pointer.
    ///
    /// The new state and the result are those of `step_spec`; a trap or a
    /// halt leaves the machine as it was.
    pub fn step(&mut self) -> (r: Step)
        requires
            old(self).wf(),
        ensures
            final(self).wf(),
            final(self).program() == old(self).program(),
            final(self).capacity() == old(self).capacity(),
            (final(self)@, r) == step_spec(old(self).program(), old(self).capacity(), old(self)@),
            final(self)@.mem.len() == old(self)@.mem.len(),
            final(self)@.stack.len() <= final(self).capacity(),
    {
        proof {
            self.stack.lemma_len_bound();
        }
        if self.ip >= self.code.len() {
            return Step::Halt;
        }
        let op = self.code[self.ip];
        let depth = self.stack.len();
        let room = self.stack.room();
        match op {
            Instr::Halt => {
                self.ip = self.code.len();
                Step::Continue
            },
            Instr::PushI32(v) => {
                if room == 0 {
                    return Step::Trap(Trap::StackOverflow);
                }
                self.stack.push(v as u64);
                self.ip += 1;
                Step::Continue
            },
            Instr::PushPtr(p) => {
                if room == 0 {
                    return Step::Trap(Trap::StackOverflow);
                }
                self.stack.push(p as u64);
                self.ip += 1;
                Step::Continue
            },
            Instr::Drop => {
                if depth < 1 {
                    return Step::Trap(Trap::StackUnderflow);
                }
                self.stack.pop();
                self.ip += 1;
                Step::Continue
            },
            Instr::Dup => {
                if depth < 1 {
                    return Step::Trap(Trap::StackUnderflow);
                }
                if room == 0 {
                    return Step::Trap(Trap::StackOverflow);
                }
                let a = self.stack.pop();
                self.stack.push(a);
                self.stack.push(a);
                self.ip += 1;
                Step::Continue
            },
            Instr::Swap => {
                if depth < 2 {
                    return Step::Trap(Trap::StackUnderflow);
                }
                let b = self.stack.pop();
                let a = self.stack.pop();
                self.stack.push(b);
                self.stack.push(a);
                self.ip += 1;
                Step::Continue
            },
            Instr::Over => {
                if depth < 2 {
                    return Step::Trap(Trap::StackUnderflow);
                }
                if room == 0 {
                    return Step::Trap(Trap::StackOverflow);
                }
                let b = self.stack.pop();
                let a = self.stack.pop();
                self.stack.push(a);
                self.stack.push(b);
                self.stack.push(a);
                self.ip += 1;
                Step::Continue
            },
            Instr::Rot => {
                if depth < 3 {
                    return Step::Trap(Trap::StackUnderflow);
                }
                let c = self.stack.pop();
                let b = self.stack.pop();
                let a = self.stack.pop();
                self.stack.push(b);
                self.stack.push(c);
                self.stack.push(a);
                self.ip += 1;
                Step::Continue
            },
            Instr::PlusI | Instr::MultI | Instr::Mod | Instr::Offset | Instr::EqI | Instr::NEqI
            | Instr::Lt => {
                if depth < 2 {
                    return Step::Trap(Trap::StackUnderflow);
                }
                let b = self.stack.peek(0);
                let a = self.stack.peek(1);
                let value = match op {
                    Instr::PlusI => a.wrapping_add(b),
                    Instr::Offset => a.wrapping_add(b),
                    Instr::MultI => a.wrapping_mul(b),
                    Instr::Mod => {
                        if b == 0 {
                            return Step::Trap(Trap::DivisionByZero);
                        }
                        a % b
                    },
                    Instr::EqI => if a == b {
                        1
                    } else {
                        0
                    },
                    Instr::NEqI => if a != b {
                        1
                    } else {
                        0
                    },
                    _ => if a < b {
                        1
                    } else {
                        0
                    },
                };
                self.stack.pop();
                self.stack.pop();
                self.stack.push(value);
                self.ip += 1;
                Step::Continue
            },
            Instr::Bind(k) => {
                if depth <= k as usize {
                    return Step::Trap(Trap::StackUnderflow);
                }
                if room == 0 {
                    return Step::Trap(Trap::StackOverflow);
                }
                let value = self.stack.peek(k as usize);
                self.stack.push(value);
                self.ip += 1;
                Step::Continue
            },
            Instr::Jmp(rel) => {
                if !jump_in_bounds(self.ip, rel, self.code.len()) {
                    return Step::Trap(Trap::JumpOutOfBounds);
                }
                self.ip = jump(self.ip, rel);
                Step::Continue
            },
            Instr::JmpIf(rel) => {
                if depth < 1 {
                    return Step::Trap(Trap::StackUnderflow);
                }
                let test = self.stack.peek(0);
                if test != 0 {
                    self.stack.pop();
                    self.ip += 1;
                    return Step::Continue;
                }
                if !jump_in_bounds(self.ip, rel, self.code.len()) {
                    return Step::Trap(Trap::JumpOutOfBounds);
                }
                self.stack.pop();
                self.ip = jump(self.ip, rel);
                Step::Continue
            },
            Instr::Call(addr) => {
                if addr > self.code.len() {
                    return Step::Trap(Trap::JumpOutOfBounds);
                }
                self.rstack.push(self.ip + 1);
                self.ip = addr;
                Step::Continue
            },
            Instr::Ret => {
                match self.rstack.pop() {
                    Some(addr) => {
                        self.ip = addr;
                        Step::Continue
                    },
                    None => Step::Halt,
                }
            },
            Instr::Read(bits) => {
                if depth < 1 {
                    return Step::Trap(Trap::StackUnderflow);
                }
                let ptr = self.stack.peek(0);
                let width = match width_of(bits) {
                    Some(w) => w,
                    None => {
                        return Step::Trap(Trap::InvalidWidth);
                    },
                };
                let size = self.mem.size();
                if ptr > size as u64 || size - (ptr as usize) < width {
                    return Step::Trap(Trap::MemoryOutOfBounds);
                }
                let at = ptr as usize;
                let value: u64 = if width == 1 {
                    self.mem.read::<u8>(at) as u64
                } else if width == 2 {
                    self.mem.read::<u16>(at) as u64
                } else if width == 4 {
                    self.mem.read::<u32>(at) as u64
                } else {
                    self.mem.read::<u64>(at)
                };
                proof {
                    lemma_le_bytes_of_value(
                        self.mem@.subrange(at as int, at + width),
                    );
                    lemma_pow256_values();
                }
                self.stack.pop();
                self.stack.push(value);
                self.ip += 1;
                Step::Continue
            },
            Instr::Write(bits) => {
                if depth < 2 {
                    return Step::Trap(Trap::StackUnderflow);
                }
                let ptr = self.stack.peek(0);
                let value = self.stack.peek(1);
                let width = match width_of(bits) {
                    Some(w) => w,
                    None => {
                        return Step::Trap(Trap::InvalidWidth);
                    },
                };
                let size = self.mem.size();
                if ptr > size as u64 || size - (ptr as usize) < width {
                    return Step::Trap(Trap::MemoryOutOfBounds);
                }
                let at = ptr as usize;
                proof {
                    lemma_low_bytes(value as nat, width as nat);
                    lemma_pow256_values();
                }
                if width == 1 {
                    self.mem.write::<u8>(at, (value % 0x100) as u8);
                } else if width == 2 {
                    self.mem.write::<u16>(at, (value % 0x1_0000) as u16);
                } else if width == 4 {
                    self.mem.write::<u32>(at, (value % 0x1_0000_0000) as u32);
                } else {
                    self.mem.write::<u64>(at, value);
                }
                self.stack.pop();
                self.stack.pop();
                self.ip += 1;
                Step::Continue
            },
            Instr::Debug => {
                self.ip += 1;
                Step::Dump
            },
        }
    }
}

/// The bytes of the first `n` literals end with those of literal `n - 1`.
pub proof fn lemma_strs_bytes_prefix(strs: Seq<Vec<u8>>, n: int)
    requires
        0 < n <= strs.len(),
    ensures
        strs_bytes(strs.take(n)) == strs_bytes(strs.take(n - 1)) + strs[n - 1]@,
        strs_bytes(strs.take(n)).len() <= strs_bytes(strs).len(),
    decreases strs.len() - n,
{
    assert(strs.take(n).drop_last() =~= strs.take(n - 1));
    if n < strs.len() {
        lemma_strs_bytes_prefix(strs, n + 1);
    } else {
        assert(strs.take(n) =~= strs);
    }
}

/// The low bytes of a value are those of the value reduced to that width.
pub proof fn lemma_low_bytes(value: nat, width: nat)
    ensures
        le_bytes(value % pow256(width), width) == le_bytes(value, width),
    decreases width,
{
    if width > 0 {
        let p = pow256((width - 1) as nat);
        lemma_pow256_positive((width - 1) as nat);
        lemma_low_bytes(value / 256, (width - 1) as nat);
        let r = value % (256 * p);
        vstd::arithmetic::div_mod::lemma_mod_breakdown(value as int, 256, p as int);
        let q = (value / 256) % p;
        assert(r == 256 * q + value % 256);
        vstd::arithmetic::div_mod::lemma_fundamental_div_mod_converse(
            r as int,
            256,
            q as int,
            (value % 256) as int,
        );
        lemma_low_bytes(r / 256, (width - 1) as nat);
    }
}

/// What a `Debug` instruction shows of the data stack `cells`.
pub open spec fn debug_text(cells: Seq<u64>) -> Seq<char> {
    "Debug:\nData Stack: "@ + stack_text(cells)
}

/// Writes what a `Debug` instruction shows of the data stack `cells`.
pub fn show_debug(cells: &Vec<u64>) -> (text: String)
    ensures
        text@ == debug_text(cells@),
{
    let mut text = String::from_str("Debug:\nData Stack: ");
    let shown = show_cells(cells);
    text.append(shown.as_str());
    text
}

/// What a run leaves behind.
#[derive(Debug, PartialEq, Eq)]
pub struct RunReport {
    /// How the run ended.
    pub outcome: Outcome,
    /// The data stacks that `Debug` instructions showed, in order, each with
    /// its bottom cell first.
    pub dumps: Vec<Vec<u64>>,
    /// The data stack at the end, the bottom cell first.
    pub stack: Vec<u64>,
    /// The arena at the end.
    pub memory: Vec<u8>,
}

/// The run of `program` from its start for at most `max_steps` instructions.
pub open spec fn run_of(program: Bytecode, max_steps: nat) -> (VmState, Seq<Seq<u64>>, Outcome) {
    run_spec(program.program@, STACK_CELLS as nat, initial_state(program), max_steps)
}

/// Runs `program` from its entry for at most `max_steps` instructions.
pub fn vm_run(program: Bytecode, max_steps: usize) -> (report: RunReport)
    requires
        arena_request(program) <= usize::MAX,
    ensures
        report.outcome == run_of(program, max_steps as nat).2,
        report.dumps.deep_view() == run_of(program, max_steps as nat).1,
        report.stack@ == run_of(program, max_steps as nat).0.stack,
        report.memory@ == run_of(program, max_steps as nat).0.mem,
{
    let ghost code = program.program@;
    let ghost start = initial_state(program);
    let ghost cap = STACK_CELLS as nat;
    let mut vm = Vm::new(program);
    let mut dumps: Vec<Vec<u64>> = Vec::new();
    let mut left: usize = max_steps;
    let mut outcome = Outcome::OutOfSteps;
    assert(dumps.deep_view() =~= Seq::<Seq<u64>>::empty());
    assert(dumps.deep_view() + run_spec(code, cap, vm@, left as nat).1 =~= run_spec(
        code,
        cap,
        vm@,
        left as nat,
    ).1);
    while left > 0
        invariant_except_break
            outcome == Outcome::OutOfSteps,
            run_spec(code, cap, start, max_steps as nat) == (
                run_spec(code, cap, vm@, left as nat).0,
                dumps.deep_view() + run_spec(code, cap, vm@, left as nat).1,
                run_spec(code, cap, vm@, left as nat).2,
            ),
        invariant
            vm.wf(),
            vm.program() == code,
            vm.capacity() == cap,
        ensures
            vm.wf(),
            run_spec(code, cap, start, max_steps as nat) == (vm@, dumps.deep_view(), outcome),
        decreases left,
    {
        let ghost shown = dumps.deep_view();
        let ghost held = dumps@;
        let step = vm.step();
        match step {
            Step::Continue => {
                left -= 1;
            },
            Step::Dump => {
                let cells = vm.stack_cells();
                dumps.push(cells);
                left -= 1;
                proof {
                    let rest = run_spec(code, cap, vm@, left as nat).1;
                    assert(cells.deep_view() =~= vm@.stack);
                    assert forall|i: int| 0 <= i < dumps@.len() implies dumps.deep_view()[i]
                        == shown.push(vm@.stack)[i] by {
                        if i < held.len() {
                            assert(dumps@[i] == held[i]);
                        }
                    }
                    assert(dumps.deep_view() =~= shown.push(vm@.stack));
                    assert(shown + (seq![vm@.stack] + rest) =~= dumps.deep_view() + rest);
                }
            },
            Step::Halt => {
                outcome = Outcome::Halted;
                assert(shown + Seq::<Seq<u64>>::empty() =~= shown);
                break ;
            },
            Step::Trap(t) => {
                outcome = Outcome::Trapped(t);
                assert(shown + Seq::<Seq<u64>>::empty() =~= shown);
                break ;
            },
        }
    }
    proof {
        assert(dumps.deep_view() + Seq::<Seq<u64>>::empty() =~= dumps.deep_view());
    }
    let stack = vm.stack_cells();
    let Vm { mem, .. } = vm;
    let memory = mem.into_bytes();
    RunReport { outcome, dumps, stack, memory }
}

/// A step leaves the size of the arena as it is and keeps the data stack
/// within its capacity.
pub proof fn lemma_step_keeps_bounds(code: Seq<Instr>, cap: nat, s: VmState)
    requires
        s.stack.len() <= cap,
    ensures
        step_spec(code, cap, s).0.mem.len() == s.mem.len(),
        step_spec(code, cap, s).0.stack.len() <= cap,
{
    let op = code[s.ip as int];
    match op {
        Instr::Write(bits) => {
            if s.stack.len() >= 2 && width_bytes(bits).is_some() {
                let w = width_bytes(bits).unwrap();
                let value = s.stack.drop_last().last();
                lemma_le_bytes_len(value as nat, w);
            }
        },
        _ => {},
    }
}

/// A read or write that does not trap lies in the arena.
pub proof fn lemma_access_in_arena(code: Seq<Instr>, cap: nat, s: VmState)
    requires
        s.ip < code.len(),
        code[s.ip as int] is Read || code[s.ip as int] is Write,
        !(step_spec(code, cap, s).1 is Trap),
    ensures
        s.stack.len() > 0,
        match code[s.ip as int] {
            Instr::Read(bits) => width_bytes(bits) is Some && s.stack.last() + width_bytes(
                bits,
            )->Some_0 <= s.mem.len(),
            Instr::Write(bits) => width_bytes(bits) is Some && s.stack.last() + width_bytes(
                bits,
            )->Some_0 <= s.mem.len(),
            _ => true,
        },
{
}

/// However long a run lasts, no access leaves the arena: its size never
/// changes, and the depth of the data stack stays between zero and the
/// capacity.
pub proof fn lemma_run_keeps_bounds(code: Seq<Instr>, cap: nat, s: VmState, fuel: nat)
    requires
        s.stack.len() <= cap,
    ensures
        run_spec(code, cap, s, fuel).0.mem.len() == s.mem.len(),
        0 <= run_spec(code, cap, s, fuel).0.stack.len() <= cap,
        forall|i: int|
            0 <= i < run_spec(code, cap, s, fuel).1.len() ==> (#[trigger] run_spec(
                code,
                cap,
                s,
                fuel,
            ).1[i]).len() <= cap,
    decreases fuel,
{
    if fuel > 0 {
        lemma_step_keeps_bounds(code, cap, s);
        let (next, step) = step_spec(code, cap, s);
        match step {
            Step::Continue => {
                lemma_run_keeps_bounds(code, cap, next, (fuel - 1) as nat);
            },
            Step::Dump => {
                lemma_run_keeps_bounds(code, cap, next, (fuel - 1) as nat);
            },
            _ => {},
        }
    }
}

} // verus!
