//! The compiler: an operation tree to a flat instruction stream with
//! relative jumps.

use vstd::prelude::*;
use crate::ast::{Intrinsic, Op, Operation, intrinsic_of, lemma_view_all, view_all};
use crate::instructions::{Bytecode, Instr};
use crate::names::NameMap;
use crate::vm::jump_to;

verus! {

/// Why a program cannot be compiled.
#[derive(Debug, Clone, Copy, PartialEq, Eq, Structural)]
pub enum CompileError {
    /// A symbol that names no built-in operation.
    UnknownIntrinsic,
    /// The static allocations need more bytes than can be addressed.
    MemoryTooLarge,
    /// A jump spans more instructions than an offset can hold.
    ProgramTooLarge,
}

/// Why a program cannot be compiled, in words.
pub open spec fn compile_error_text(e: CompileError) -> Seq<char> {
    match e {
        CompileError::UnknownIntrinsic => "Unknown intrinsic"@,
        CompileError::MemoryTooLarge => "Static allocations are too large"@,
        CompileError::ProgramTooLarge => "Program is too large"@,
    }
}

impl CompileError {
    /// Why a program cannot be compiled, in words.
    pub fn message(self) -> (text: &'static str)
        ensures
            text@ == compile_error_text(self),
    {
        match self {
            CompileError::UnknownIntrinsic => "Unknown intrinsic",
            CompileError::MemoryTooLarge => "Static allocations are too large",
            CompileError::ProgramTooLarge => "Program is too large",
        }
    }
}

/// What the compiler has made so far.
#[verifier::ext_equal]
pub ghost struct CompState {
    /// The instructions emitted.
    pub instr: Seq<Instr>,
    /// The entry address of each function.
    pub fn_def: Map<Seq<char>, usize>,
    /// The offset of each allocation in the arena.
    pub mem_def: Map<Seq<char>, usize>,
    /// The number of bytes allocated.
    pub mem_size: usize,
}

/// The state before the first operation.
pub open spec fn empty_state() -> CompState {
    CompState { instr: Seq::empty(), fn_def: Map::empty(), mem_def: Map::empty(), mem_size: 0 }
}

/// `st` with one more instruction.
pub open spec fn emitted(st: CompState, i: Instr) -> CompState {
    CompState {
        instr: st.instr.push(i),
        fn_def: st.fn_def,
        mem_def: st.mem_def,
        mem_size: st.mem_size,
    }
}

/// `st` with the instruction at `at` replaced.
pub open spec fn patched(st: CompState, at: int, i: Instr) -> CompState {
    CompState {
        instr: st.instr.update(at, i),
        fn_def: st.fn_def,
        mem_def: st.mem_def,
        mem_size: st.mem_size,
    }
}

/// Whether an offset can be held by a jump.
pub open spec fn fits(offset: int) -> bool {
    -(isize::MAX as int) <= offset <= isize::MAX as int
}

/// The opcode of a built-in operation.
pub open spec fn opcode(op: Intrinsic) -> Instr {
    match op {
        Intrinsic::Plus => Instr::PlusI,
        Intrinsic::Mult => Instr::MultI,
        Intrinsic::Mod => Instr::Mod,
        Intrinsic::Equal => Instr::EqI,
        Intrinsic::NotEqual => Instr::NEqI,
        Intrinsic::Less => Instr::Lt,
        Intrinsic::Drop => Instr::Drop,
        Intrinsic::Dup => Instr::Dup,
        Intrinsic::Over => Instr::Over,
        Intrinsic::Rot => Instr::Rot,
        Intrinsic::Swap => Instr::Swap,
    }
}

/// The state after the code for one operation is emitted.
///
/// A jump is first emitted as a placeholder and given its offset when the
/// code it jumps over is there. Offsets count from the jump itself.
pub open spec fn emit(st: CompState, op: Op) -> Result<CompState, CompileError>
    decreases op,
{
    let at = st.instr.len() as int;
    match op {
        Op::PushI(i) => Ok(emitted(st, Instr::PushI32(i))),
        Op::Debug => Ok(emitted(st, Instr::Debug)),
        Op::Read(bits) => Ok(emitted(st, Instr::Read(bits))),
        Op::Write(bits) => Ok(emitted(st, Instr::Write(bits))),
        Op::Bind(depth) => Ok(emitted(st, Instr::Bind(depth))),
        Op::Intrinsic(symbol) => match intrinsic_of(symbol) {
            None => Err(CompileError::UnknownIntrinsic),
            Some(i) => Ok(emitted(st, opcode(i))),
        },
        Op::Alloc(name, size) => if st.mem_size + size > usize::MAX {
            Err(CompileError::MemoryTooLarge)
        } else {
            Ok(
                CompState {
                    instr: st.instr,
                    fn_def: st.fn_def,
                    mem_def: st.mem_def.insert(name, st.mem_size),
                    mem_size: (st.mem_size + size) as usize,
                },
            )
        },
        Op::Word(name) => if st.fn_def.contains_key(name) {
            Ok(emitted(st, Instr::Call(st.fn_def[name])))
        } else if st.mem_def.contains_key(name) {
            Ok(emitted(st, Instr::PushPtr(st.mem_def[name])))
        } else {
            Ok(st)
        },
        Op::If(body) => match emit_all(emitted(st, Instr::JmpIf(0)), body) {
            Err(e) => Err(e),
            Ok(done) => {
                let skip = done.instr.len() - at;
                if !fits(skip) {
                    Err(CompileError::ProgramTooLarge)
                } else {
                    Ok(patched(done, at, Instr::JmpIf(skip as isize)))
                }
            },
        },
        Op::IfElse(then, other) => match emit_all(emitted(st, Instr::Halt), then) {
            Err(e) => Err(e),
            Ok(done_then) => {
                let at2 = done_then.instr.len() as int;
                let skip = at2 - at + 1;
                if !fits(skip) {
                    Err(CompileError::ProgramTooLarge)
                } else {
                    let ready = patched(
                        emitted(done_then, Instr::Jmp(0)),
                        at,
                        Instr::JmpIf(skip as isize),
                    );
                    match emit_all(ready, other) {
                        Err(e) => Err(e),
                        Ok(done) => {
                            let skip2 = done.instr.len() - at2;
                            if !fits(skip2) {
                                Err(CompileError::ProgramTooLarge)
                            } else {
                                Ok(patched(done, at2, Instr::Jmp(skip2 as isize)))
                            }
                        },
                    }
                }
            },
        },
        Op::While(cond, body) => match emit_all(st, cond) {
            Err(e) => Err(e),
            Ok(tested) => {
                let test = tested.instr.len() as int;
                match emit_all(emitted(tested, Instr::JmpIf(0)), body) {
                    Err(e) => Err(e),
                    Ok(done) => {
                        let back = at - done.instr.len();
                        let skip = done.instr.len() + 1 - test;
                        if !fits(back) || !fits(skip) {
                            Err(CompileError::ProgramTooLarge)
                        } else {
                            Ok(
                                patched(
                                    emitted(done, Instr::Jmp(back as isize)),
                                    test,
                                    Instr::JmpIf(skip as isize),
                                ),
                            )
                        }
                    },
                }
            },
        },
        Op::Fn(name, _, _, _, body) => if at + 1 > usize::MAX {
            Err(CompileError::ProgramTooLarge)
        } else {
            let entered = CompState {
                instr: st.instr.push(Instr::Jmp(0)),
                fn_def: st.fn_def.insert(name, (at + 1) as usize),
                mem_def: st.mem_def,
                mem_size: st.mem_size,
            };
            match emit_all(entered, body) {
                Err(e) => Err(e),
                Ok(done) => {
                    let skip = done.instr.len() + 1 - at;
                    if !fits(skip) {
                        Err(CompileError::ProgramTooLarge)
                    } else {
                        Ok(patched(emitted(done, Instr::Ret), at, Instr::Jmp(skip as isize)))
                    }
                },
            }
        },
    }
}

/// The state after the code for a sequence of operations is emitted.
pub open spec fn emit_all(st: CompState, ops: Seq<Op>) -> Result<CompState, CompileError>
    decreases ops,
{
    if ops.len() == 0 {
        Ok(st)
    } else {
        match emit(st, ops[0]) {
            Err(e) => Err(e),
            Ok(next) => emit_all(next, ops.skip(1)),
        }
    }
}

/// The instructions of a program and the bytes that its allocations need.
pub open spec fn compile_spec(ops: Seq<Op>) -> Result<(Seq<Instr>, usize), CompileError> {
    match emit_all(empty_state(), ops) {
        Err(e) => Err(e),
        Ok(done) => Ok((done.instr, done.mem_size)),
    }
}

/// The compiler leaves the instructions that are there as they are.
pub proof fn lemma_emit_keeps(st: CompState, op: Op)
    requires
        emit(st, op) is Ok,
    ensures
        emit(st, op)->Ok_0.instr.len() >= st.instr.len(),
        emit(st, op)->Ok_0.instr.subrange(0, st.instr.len() as int) == st.instr,
    decreases op, 0int,
{
    let at = st.instr.len() as int;
    let done = emit(st, op)->Ok_0;
    match op {
        Op::If(body) => {
            let start = emitted(st, Instr::JmpIf(0));
            lemma_emit_all_keeps(start, body);
            let inner = emit_all(start, body)->Ok_0;
            assert forall|i: int| 0 <= i < at implies done.instr[i] == st.instr[i] by {
                assert(inner.instr.subrange(0, at + 1)[i] == start.instr[i]);
            }
        },
        Op::IfElse(then, other) => {
            let start = emitted(st, Instr::Halt);
            lemma_emit_all_keeps(start, then);
            let done_then = emit_all(start, then)->Ok_0;
            let at2 = done_then.instr.len() as int;
            let ready = patched(
                emitted(done_then, Instr::Jmp(0)),
                at,
                Instr::JmpIf((at2 - at + 1) as isize),
            );
            lemma_emit_all_keeps(ready, other);
            let inner = emit_all(ready, other)->Ok_0;
            assert forall|i: int| 0 <= i < at implies done.instr[i] == st.instr[i] by {
                assert(done_then.instr.subrange(0, at + 1)[i] == start.instr[i]);
                assert(inner.instr.subrange(0, at2 + 1)[i] == ready.instr[i]);
            }
        },
        Op::While(cond, body) => {
            lemma_emit_all_keeps(st, cond);
            let tested = emit_all(st, cond)->Ok_0;
            let test = tested.instr.len() as int;
            let start = emitted(tested, Instr::JmpIf(0));
            lemma_emit_all_keeps(start, body);
            let inner = emit_all(start, body)->Ok_0;
            assert forall|i: int| 0 <= i < at implies done.instr[i] == st.instr[i] by {
                assert(tested.instr.subrange(0, at)[i] == st.instr[i]);
                assert(inner.instr.subrange(0, test + 1)[i] == start.instr[i]);
            }
        },
        Op::Fn(name, _, _, _, body) => {
            let entered = CompState {
                instr: st.instr.push(Instr::Jmp(0)),
                fn_def: st.fn_def.insert(name, (at + 1) as usize),
                mem_def: st.mem_def,
                mem_size: st.mem_size,
            };
            lemma_emit_all_keeps(entered, body);
            let inner = emit_all(entered, body)->Ok_0;
            assert forall|i: int| 0 <= i < at implies done.instr[i] == st.instr[i] by {
                assert(inner.instr.subrange(0, at + 1)[i] == entered.instr[i]);
            }
        },
        _ => {},
    }
    assert(done.instr.subrange(0, at) =~= st.instr);
}

/// The compiler leaves the instructions that are there as they are.
pub proof fn lemma_emit_all_keeps(st: CompState, ops: Seq<Op>)
    requires
        emit_all(st, ops) is Ok,
    ensures
        emit_all(st, ops)->Ok_0.instr.len() >= st.instr.len(),
        emit_all(st, ops)->Ok_0.instr.subrange(0, st.instr.len() as int) == st.instr,
    decreases ops, 1int,
{
    if ops.len() > 0 {
        lemma_emit_keeps(st, ops[0]);
        let next = emit(st, ops[0])->Ok_0;
        lemma_emit_all_keeps(next, ops.skip(1));
        let done = emit_all(st, ops)->Ok_0;
        assert forall|i: int| 0 <= i < st.instr.len() implies done.instr[i] == st.instr[i] by {
            assert(done.instr.subrange(0, next.instr.len() as int)[i] == next.instr[i]);
            assert(next.instr.subrange(0, st.instr.len() as int)[i] == st.instr[i]);
        }
        assert(done.instr.subrange(0, st.instr.len() as int) =~= st.instr);
    } else {
        assert(st.instr.subrange(0, st.instr.len() as int) =~= st.instr);
    }
}

/// Whether the instruction at `i` leads into the program: a jump leads to an
/// instruction or to the end, and a call to the entry of a function, which
/// is the instruction after the jump over the function.
pub open spec fn leads_in(st: CompState, i: int) -> bool {
    match st.instr[i] {
        Instr::Jmp(rel) => 0 <= i + rel <= st.instr.len(),
        Instr::JmpIf(rel) => 0 <= i + rel <= st.instr.len(),
        Instr::Call(addr) => is_entry(st.instr, addr as int),
        _ => true,
    }
}

/// Whether `addr` is the entry of a function: it follows a jump.
pub open spec fn is_entry(instr: Seq<Instr>, addr: int) -> bool {
    0 < addr <= instr.len() && instr[addr - 1] is Jmp
}

/// Whether every jump and call leads into the program, and every function
/// that is known has an entry.
pub open spec fn well_linked(st: CompState) -> bool {
    &&& forall|i: int| 0 <= i < st.instr.len() ==> leads_in(st, i)
    &&& forall|name: Seq<char>| #[trigger]
        st.fn_def.contains_key(name) ==> is_entry(st.instr, st.fn_def[name] as int)
}

/// One more instruction, which is no jump and no call, leaves a state well
/// linked.
pub proof fn lemma_emitted_linked(st: CompState, i: Instr)
    requires
        well_linked(st),
        !(i is Jmp) || i == Instr::Jmp(0),
        !(i is JmpIf) || i == Instr::JmpIf(0),
        i is Call ==> is_entry(st.instr, i->Call_0 as int),
    ensures
        well_linked(emitted(st, i)),
{
    let next = emitted(st, i);
    assert forall|k: int| 0 <= k < next.instr.len() implies leads_in(next, k) by {
        if k < st.instr.len() {
            assert(leads_in(st, k));
        }
    }
    assert forall|name: Seq<char>| #[trigger] next.fn_def.contains_key(name) implies is_entry(
        next.instr,
        next.fn_def[name] as int,
    ) by {
        assert(is_entry(st.instr, st.fn_def[name] as int));
    }
}

/// A jump that is given an offset into the program leaves a state well
/// linked.
pub proof fn lemma_patched_linked(st: CompState, at: int, i: Instr)
    requires
        well_linked(st),
        0 <= at < st.instr.len(),
        st.instr[at] is Jmp || st.instr[at] is JmpIf || st.instr[at] is Halt,
        i is Jmp || i is JmpIf,
        i is Jmp ==> 0 <= at + i->Jmp_0 <= st.instr.len(),
        i is JmpIf ==> 0 <= at + i->JmpIf_0 <= st.instr.len(),
        st.instr[at] is Jmp ==> i is Jmp,
    ensures
        well_linked(patched(st, at, i)),
{
    let next = patched(st, at, i);
    assert forall|k: int| 0 <= k < next.instr.len() implies leads_in(next, k) by {
        assert(leads_in(st, k));
        if k != at {
            match st.instr[k] {
                Instr::Call(addr) => {
                    assert(is_entry(st.instr, addr as int));
                },
                _ => {},
            }
        }
    }
    assert forall|name: Seq<char>| #[trigger] next.fn_def.contains_key(name) implies is_entry(
        next.instr,
        next.fn_def[name] as int,
    ) by {
        assert(is_entry(st.instr, st.fn_def[name] as int));
    }
}

/// The compiler keeps a state well linked.
pub proof fn lemma_emit_linked(st: CompState, op: Op)
    requires
        well_linked(st),
        emit(st, op) is Ok,
    ensures
        well_linked(emit(st, op)->Ok_0),
    decreases op, 0int,
{
    let at = st.instr.len() as int;
    match op {
        Op::PushI(i) => {
            lemma_emitted_linked(st, Instr::PushI32(i));
        },
        Op::Debug => {
            lemma_emitted_linked(st, Instr::Debug);
        },
        Op::Read(bits) => {
            lemma_emitted_linked(st, Instr::Read(bits));
        },
        Op::Write(bits) => {
            lemma_emitted_linked(st, Instr::Write(bits));
        },
        Op::Bind(depth) => {
            lemma_emitted_linked(st, Instr::Bind(depth));
        },
        Op::Intrinsic(symbol) => {
            lemma_emitted_linked(st, opcode(intrinsic_of(symbol)->Some_0));
        },
        Op::Alloc(name, size) => {
            let next = emit(st, op)->Ok_0;
            assert forall|k: int| 0 <= k < next.instr.len() implies leads_in(next, k) by {
                assert(leads_in(st, k));
            }
        },
        Op::Word(name) => {
            if st.fn_def.contains_key(name) {
                lemma_emitted_linked(st, Instr::Call(st.fn_def[name]));
            } else if st.mem_def.contains_key(name) {
                lemma_emitted_linked(st, Instr::PushPtr(st.mem_def[name]));
            }
        },
        Op::If(body) => {
            let start = emitted(st, Instr::JmpIf(0));
            lemma_emitted_linked(st, Instr::JmpIf(0));
            lemma_emit_all_linked(start, body);
            lemma_emit_all_keeps(start, body);
            let done = emit_all(start, body)->Ok_0;
            assert(done.instr.subrange(0, at + 1)[at] == start.instr[at]);
            lemma_patched_linked(done, at, Instr::JmpIf((done.instr.len() - at) as isize));
        },
        Op::IfElse(then, other) => {
            let start = emitted(st, Instr::Halt);
            lemma_emitted_linked(st, Instr::Halt);
            lemma_emit_all_linked(start, then);
            lemma_emit_all_keeps(start, then);
            let done_then = emit_all(start, then)->Ok_0;
            let at2 = done_then.instr.len() as int;
            assert(done_then.instr.subrange(0, at + 1)[at] == start.instr[at]);
            let jumped = emitted(done_then, Instr::Jmp(0));
            lemma_emitted_linked(done_then, Instr::Jmp(0));
            let ready = patched(jumped, at, Instr::JmpIf((at2 - at + 1) as isize));
            lemma_patched_linked(jumped, at, Instr::JmpIf((at2 - at + 1) as isize));
            lemma_emit_all_linked(ready, other);
            lemma_emit_all_keeps(ready, other);
            let done = emit_all(ready, other)->Ok_0;
            assert(done.instr.subrange(0, at2 + 1)[at2] == ready.instr[at2]);
            lemma_patched_linked(done, at2, Instr::Jmp((done.instr.len() - at2) as isize));
        },
        Op::While(cond, body) => {
            lemma_emit_all_linked(st, cond);
            lemma_emit_all_keeps(st, cond);
            let tested = emit_all(st, cond)->Ok_0;
            let test = tested.instr.len() as int;
            let start = emitted(tested, Instr::JmpIf(0));
            lemma_emitted_linked(tested, Instr::JmpIf(0));
            lemma_emit_all_linked(start, body);
            lemma_emit_all_keeps(start, body);
            let done = emit_all(start, body)->Ok_0;
            let back = at - done.instr.len();
            let jumped = emitted(done, Instr::Jmp(back as isize));
            assert(well_linked(jumped)) by {
                assert forall|k: int| 0 <= k < jumped.instr.len() implies leads_in(jumped, k) by {
                    if k < done.instr.len() {
                        assert(leads_in(done, k));
                    }
                }
                assert forall|name: Seq<char>| #[trigger]
                    jumped.fn_def.contains_key(name) implies is_entry(
                    jumped.instr,
                    jumped.fn_def[name] as int,
                ) by {
                    assert(is_entry(done.instr, done.fn_def[name] as int));
                }
            }
            assert(done.instr.subrange(0, test + 1)[test] == start.instr[test]);
            lemma_patched_linked(jumped, test, Instr::JmpIf((done.instr.len() + 1 - test) as isize));
        },
        Op::Fn(name, _, _, _, body) => {
            let entered = CompState {
                instr: st.instr.push(Instr::Jmp(0)),
                fn_def: st.fn_def.insert(name, (at + 1) as usize),
                mem_def: st.mem_def,
                mem_size: st.mem_size,
            };
            assert(well_linked(entered)) by {
                assert forall|k: int| 0 <= k < entered.instr.len() implies leads_in(
                    entered,
                    k,
                ) by {
                    if k < at {
                        assert(leads_in(st, k));
                    }
                }
                assert forall|other: Seq<char>| #[trigger]
                    entered.fn_def.contains_key(other) implies is_entry(
                    entered.instr,
                    entered.fn_def[other] as int,
                ) by {
                    if other != name {
                        assert(is_entry(st.instr, st.fn_def[other] as int));
                    }
                }
            }
            lemma_emit_all_linked(entered, body);
            lemma_emit_all_keeps(entered, body);
            let done = emit_all(entered, body)->Ok_0;
            assert(done.instr.subrange(0, at + 1)[at] == entered.instr[at]);
            let returned = emitted(done, Instr::Ret);
            lemma_emitted_linked(done, Instr::Ret);
            lemma_patched_linked(returned, at, Instr::Jmp((done.instr.len() + 1 - at) as isize));
        },
    }
}

/// The compiler keeps a state well linked.
pub proof fn lemma_emit_all_linked(st: CompState, ops: Seq<Op>)
    requires
        well_linked(st),
        emit_all(st, ops) is Ok,
    ensures
        well_linked(emit_all(st, ops)->Ok_0),
    decreases ops, 1int,
{
    if ops.len() > 0 {
        lemma_emit_linked(st, ops[0]);
        lemma_emit_all_linked(emit(st, ops[0])->Ok_0, ops.skip(1));
    }
}

/// In a compiled program every jump leads to an instruction or to the end
/// of the program, and every call to the entry of a function.
pub proof fn lemma_compiled_is_linked(ops: Seq<Op>)
    requires
        compile_spec(ops) is Ok,
    ensures
        forall|i: int|
            0 <= i < compile_spec(ops)->Ok_0.0.len() ==> match #[trigger] compile_spec(
                ops,
            )->Ok_0.0[i] {
                Instr::Jmp(rel) => 0 <= i + rel <= compile_spec(ops)->Ok_0.0.len(),
                Instr::JmpIf(rel) => 0 <= i + rel <= compile_spec(ops)->Ok_0.0.len(),
                Instr::Call(addr) => is_entry(compile_spec(ops)->Ok_0.0, addr as int),
                _ => true,
            },
{
    lemma_emit_all_linked(empty_state(), ops);
    let done = emit_all(empty_state(), ops)->Ok_0;
    assert forall|i: int| 0 <= i < done.instr.len() implies match #[trigger] done.instr[i] {
        Instr::Jmp(rel) => 0 <= i + rel <= done.instr.len(),
        Instr::JmpIf(rel) => 0 <= i + rel <= done.instr.len(),
        Instr::Call(addr) => is_entry(done.instr, addr as int),
        _ => true,
    } by {
        assert(leads_in(done, i));
    }
}

/// The state of the compiler.
#[derive(Debug)]
pub struct CompCtx {
    instr: Vec<Instr>,
    fn_def: NameMap<usize>,
    mem_def: NameMap<usize>,
    mem_size: usize,
}

impl View for CompCtx {
    type V = CompState;

    closed spec fn view(&self) -> CompState {
        CompState {
            instr: self.instr@,
            fn_def: self.fn_def@,
            mem_def: self.mem_def@,
            mem_size: self.mem_size,
        }
    }
}

/// The offset from `from` to `to`, where a jump can hold it.
fn offset(from: usize, to: usize) -> (r: Result<isize, CompileError>)
    ensures
        match r {
            Ok(d) => fits(to - from) && d == to - from,
            Err(e) => !fits(to - from) && e == CompileError::ProgramTooLarge,
        },
{
    if to >= from {
        if to - from > isize::MAX as usize {
            return Err(CompileError::ProgramTooLarge);
        }
    } else {
        if from - to > isize::MAX as usize {
            return Err(CompileError::ProgramTooLarge);
        }
    }
    Ok(jump_to(from, to))
}

/// The opcode of a built-in operation.
fn opcode_of(op: Intrinsic) -> (i: Instr)
    ensures
        i == opcode(op),
{
    match op {
        Intrinsic::Plus => Instr::PlusI,
        Intrinsic::Mult => Instr::MultI,
        Intrinsic::Mod => Instr::Mod,
        Intrinsic::Equal => Instr::EqI,
        Intrinsic::NotEqual => Instr::NEqI,
        Intrinsic::Less => Instr::Lt,
        Intrinsic::Drop => Instr::Drop,
        Intrinsic::Dup => Instr::Dup,
        Intrinsic::Over => Instr::Over,
        Intrinsic::Rot => Instr::Rot,
        Intrinsic::Swap => Instr::Swap,
    }
}

impl CompCtx {
    /// The state before the first operation.
    pub fn new() -> (ctx: Self)
        ensures
            ctx@ == empty_state(),
    {
        CompCtx { instr: Vec::new(), fn_def: NameMap::new(), mem_def: NameMap::new(), mem_size: 0 }
    }

    /// Emits the code for the operations of `ops`, in order.
    pub fn compile_all(&mut self, ops: &Vec<Operation>) -> (r: Result<(), CompileError>)
        ensures
            match emit_all(old(self)@, view_all(ops@)) {
                Ok(after) => r is Ok && final(self)@ == after && after.instr.len() >= old(
                    self,
                )@.instr.len(),
                Err(e) => r == Err::<(), CompileError>(e),
            },
        decreases ops, 1int,
    {
        let ghost all = view_all(ops@);
        let ghost start = self@;
        let mut i: usize = 0;
        proof {
            lemma_view_all(ops@);
            assert(all.skip(0) =~= all);
        }
        while i < ops.len()
            invariant
                i <= ops.len(),
                start == old(self)@,
                all == view_all(ops@),
                all.len() == ops@.len(),
                forall|k: int| 0 <= k < all.len() ==> (#[trigger] all[k]) == ops@[k]@,
                emit_all(start, all) == emit_all(self@, all.skip(i as int)),
                self@.instr.len() >= start.instr.len(),
            decreases ops.len() - i,
        {
            let ghost here = self@;
            let ghost rest = all.skip(i as int);
            proof {
                assert(rest[0] == all[i as int]);
                assert(rest.skip(1) =~= all.skip(i as int + 1));
                assert(emit_all(here, rest) == match emit(here, rest[0]) {
                    Err(e) => Err(e),
                    Ok(next) => emit_all(next, rest.skip(1)),
                });
            }
            match compile_op(self, &ops[i]) {
                Ok(()) => {},
                Err(e) => {
                    return Err(e);
                },
            }
            i += 1;
        }
        Ok(())
    }
}

/// Emits the code for one operation.
pub fn compile_op(ctx: &mut CompCtx, op: &Operation) -> (r: Result<(), CompileError>)
    ensures
        match emit(old(ctx)@, op@) {
            Ok(after) => r is Ok && final(ctx)@ == after && after.instr.len() >= old(
                ctx,
            )@.instr.len(),
            Err(e) => r == Err::<(), CompileError>(e),
        },
    decreases op, 0int,
{
    match op {
        Operation::PushI(i) => {
            ctx.instr.push(Instr::PushI32(*i));
        },
        Operation::Debug => {
            ctx.instr.push(Instr::Debug);
        },
        Operation::Alloc(name, size) => {
            let total = match ctx.mem_size.checked_add(*size) {
                Some(total) => total,
                None => {
                    return Err(CompileError::MemoryTooLarge);
                },
            };
            ctx.mem_def.insert(name.clone(), ctx.mem_size);
            ctx.mem_size = total;
        },
        Operation::If(body) => {
            let offset_at = ctx.instr.len();
            ctx.instr.push(Instr::JmpIf(0));
            match ctx.compile_all(body) {
                Ok(()) => {},
                Err(e) => {
                    return Err(e);
                },
            }
            let curr_len = ctx.instr.len();
            let skip = match offset(offset_at, curr_len) {
                Ok(skip) => skip,
                Err(e) => {
                    return Err(e);
                },
            };
            ctx.instr.set(offset_at, Instr::JmpIf(skip));
        },
        Operation::IfElse(ifbody, elsebody) => {
            let place_holder = ctx.instr.len();
            ctx.instr.push(Instr::Halt);
            match ctx.compile_all(ifbody) {
                Ok(()) => {},
                Err(e) => {
                    return Err(e);
                },
            }
            let offset2 = ctx.instr.len();
            ctx.instr.push(Instr::Jmp(0));
            let skip = match offset(place_holder, ctx.instr.len()) {
                Ok(skip) => skip,
                Err(e) => {
                    return Err(e);
                },
            };
            ctx.instr.set(place_holder, Instr::JmpIf(skip));
            match ctx.compile_all(elsebody) {
                Ok(()) => {},
                Err(e) => {
                    return Err(e);
                },
            }
            let curr_len = ctx.instr.len();
            let skip2 = match offset(offset2, curr_len) {
                Ok(skip2) => skip2,
                Err(e) => {
                    return Err(e);
                },
            };
            ctx.instr.set(offset2, Instr::Jmp(skip2));
        },
        Operation::While(cond, body) => {
            let whileaddrs = ctx.instr.len();
            match ctx.compile_all(cond) {
                Ok(()) => {},
                Err(e) => {
                    return Err(e);
                },
            }
            let ifaddrs = ctx.instr.len();
            ctx.instr.push(Instr::JmpIf(0));
            match ctx.compile_all(body) {
                Ok(()) => {},
                Err(e) => {
                    return Err(e);
                },
            }
            let curr_len = ctx.instr.len();
            let back = match offset(curr_len, whileaddrs) {
                Ok(back) => back,
                Err(e) => {
                    return Err(e);
                },
            };
            ctx.instr.push(Instr::Jmp(back));
            let skip = match offset(ifaddrs, ctx.instr.len()) {
                Ok(skip) => skip,
                Err(e) => {
                    return Err(e);
                },
            };
            ctx.instr.set(ifaddrs, Instr::JmpIf(skip));
        },
        Operation::Bind(n) => {
            ctx.instr.push(Instr::Bind(*n));
        },
        Operation::Intrinsic(a) => {
            match Intrinsic::from_symbol(a) {
                Some(i) => {
                    ctx.instr.push(opcode_of(i));
                },
                None => {
                    return Err(CompileError::UnknownIntrinsic);
                },
            }
        },
        Operation::Write(a) => {
            ctx.instr.push(Instr::Write(*a));
        },
        Operation::Read(a) => {
            ctx.instr.push(Instr::Read(*a));
        },
        Operation::Fn(name, _args, _, _, body) => {
            let addrs = ctx.instr.len();
            if addrs == usize::MAX {
                return Err(CompileError::ProgramTooLarge);
            }
            ctx.instr.push(Instr::Jmp(0));
            let curr_len = ctx.instr.len();
            ctx.fn_def.insert(name.clone(), curr_len);
            match ctx.compile_all(body) {
                Ok(()) => {},
                Err(e) => {
                    return Err(e);
                },
            }
            ctx.instr.push(Instr::Ret);
            let skip = match offset(addrs, ctx.instr.len()) {
                Ok(skip) => skip,
                Err(e) => {
                    return Err(e);
                },
            };
            ctx.instr.set(addrs, Instr::Jmp(skip));
        },
        Operation::Word(name) => {
            let target = match ctx.fn_def.get(name) {
                Some(addr) => Some(Instr::Call(*addr)),
                None => match ctx.mem_def.get(name) {
                    Some(at) => Some(Instr::PushPtr(*at)),
                    None => None,
                },
            };
            match target {
                Some(i) => {
                    ctx.instr.push(i);
                },
                None => {},
            }
        },
    }
    Ok(())
}

/// Compiles a program. Execution starts at the first instruction.
pub fn compile(ops: Vec<Operation>) -> (r: Result<Bytecode, CompileError>)
    ensures
        match compile_spec(view_all(ops@)) {
            Ok((code, mem)) => r is Ok && r->Ok_0.program@ == code && r->Ok_0.program_mem == mem
                && r->Ok_0.entry == 0 && r->Ok_0.strs@.len() == 0,
            Err(e) => r == Err::<Bytecode, CompileError>(e),
        },
{
    let mut ctx = CompCtx::new();
    match ctx.compile_all(&ops) {
        Ok(()) => {},
        Err(e) => {
            return Err(e);
        },
    }
    Ok(Bytecode::new(ctx.instr, ctx.mem_size))
}

} // verus!
