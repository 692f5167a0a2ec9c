use chs::ast::Operation;
use chs::compiler::{compile, compile_op, CompCtx, CompileError};
use chs::instructions::{Bytecode, Instr};
use chs::parser::parse_file;

fn ops(src: &str) -> Vec<Operation> {
    parse_file(src.as_bytes().to_vec(), "test.chs".to_string()).unwrap()
}

fn code(src: &str) -> Vec<Instr> {
    compile(ops(src)).unwrap().program
}

#[test]
fn lowers_literals_and_intrinsics_one_to_one() {
    assert_eq!(
        code("1 2 + debug"),
        vec![Instr::PushI32(1), Instr::PushI32(2), Instr::PlusI, Instr::Debug]
    );
    assert_eq!(
        code("+ * mod == != < drop dup over rot swap"),
        vec![
            Instr::PlusI,
            Instr::MultI,
            Instr::Mod,
            Instr::EqI,
            Instr::NEqI,
            Instr::Lt,
            Instr::Drop,
            Instr::Dup,
            Instr::Over,
            Instr::Rot,
            Instr::Swap,
        ]
    );
    assert_eq!(code("& 3 @ 16 ! 32"), vec![Instr::Bind(3), Instr::Read(16), Instr::Write(32)]);
}

#[test]
fn an_empty_program_has_no_code() {
    assert_eq!(compile(vec![]), Ok(Bytecode::new(vec![], 0)));
}

#[test]
fn if_jumps_over_its_body() {
    assert_eq!(
        code("1 if { 2 3 } 4"),
        vec![
            Instr::PushI32(1),
            Instr::JmpIf(3),
            Instr::PushI32(2),
            Instr::PushI32(3),
            Instr::PushI32(4),
        ]
    );
    assert_eq!(code("if { }"), vec![Instr::JmpIf(1)]);
}

#[test]
fn if_else_jumps_to_the_else_body_and_over_it() {
    assert_eq!(
        code("1 1 != if { 100 } else { 200 } debug"),
        vec![
            Instr::PushI32(1),
            Instr::PushI32(1),
            Instr::NEqI,
            Instr::JmpIf(3),
            Instr::PushI32(100),
            Instr::Jmp(2),
            Instr::PushI32(200),
            Instr::Debug,
        ]
    );
    assert_eq!(code("if { } else { }"), vec![Instr::JmpIf(2), Instr::Jmp(1)]);
}

#[test]
fn while_jumps_back_to_its_condition() {
    assert_eq!(
        code("0 while dup 3 != { dup 1 + } debug"),
        vec![
            Instr::PushI32(0),
            Instr::Dup,
            Instr::PushI32(3),
            Instr::NEqI,
            Instr::JmpIf(5),
            Instr::Dup,
            Instr::PushI32(1),
            Instr::PlusI,
            Instr::Jmp(-7),
            Instr::Debug,
        ]
    );
    assert_eq!(code("while { }"), vec![Instr::JmpIf(2), Instr::Jmp(-1)]);
}

#[test]
fn a_function_is_jumped_over_and_called_by_address() {
    assert_eq!(
        code("fn add a b : int int -> int { & 1 & 1 + } 3 4 add debug"),
        vec![
            Instr::Jmp(5),
            Instr::Bind(1),
            Instr::Bind(1),
            Instr::PlusI,
            Instr::Ret,
            Instr::PushI32(3),
            Instr::PushI32(4),
            Instr::Call(1),
            Instr::Debug,
        ]
    );
}

#[test]
fn a_second_function_starts_after_the_first() {
    assert_eq!(
        code("fn f : -> { } 7 fn g : -> { 1 } g f"),
        vec![
            Instr::Jmp(2),
            Instr::Ret,
            Instr::PushI32(7),
            Instr::Jmp(3),
            Instr::PushI32(1),
            Instr::Ret,
            Instr::Call(4),
            Instr::Call(1),
        ]
    );
}

#[test]
fn allocations_get_consecutive_offsets() {
    let bytecode = compile(ops("alloc 8 : = a alloc 3 : = b alloc 5 : = c a b c b")).unwrap();
    assert_eq!(
        bytecode.program,
        vec![Instr::PushPtr(0), Instr::PushPtr(8), Instr::PushPtr(11), Instr::PushPtr(8)]
    );
    assert_eq!(bytecode.program_mem, 16);
    assert_eq!(bytecode.entry, 0);
    assert_eq!(bytecode.strs, Vec::<Vec<u8>>::new());
}

#[test]
fn a_function_name_wins_over_an_allocation() {
    assert_eq!(
        code("alloc 1 : = x fn x : -> { } x"),
        vec![Instr::Jmp(2), Instr::Ret, Instr::Call(1)]
    );
}

#[test]
fn an_unknown_word_emits_nothing() {
    assert_eq!(code("1 nothing 2"), vec![Instr::PushI32(1), Instr::PushI32(2)]);
    assert_eq!(code("x alloc 4 : = x"), vec![]);
}

#[test]
fn nested_control_flow_keeps_relative_offsets() {
    assert_eq!(
        code("while 1 { if { 2 } else { while 3 { } } }"),
        vec![
            Instr::PushI32(1),
            Instr::JmpIf(8),
            Instr::JmpIf(3),
            Instr::PushI32(2),
            Instr::Jmp(4),
            Instr::PushI32(3),
            Instr::JmpIf(2),
            Instr::Jmp(-2),
            Instr::Jmp(-8),
        ]
    );
}

#[test]
fn unknown_intrinsics_cannot_be_compiled() {
    assert_eq!(compile(ops("-")), Err(CompileError::UnknownIntrinsic));
    assert_eq!(compile(ops("1 if { > }")), Err(CompileError::UnknownIntrinsic));
}

#[test]
fn allocations_must_fit_the_address_space() {
    let big = Operation::Alloc("a".to_string(), usize::MAX);
    let one = Operation::Alloc("b".to_string(), 1);
    assert_eq!(compile(vec![big.clone()]).map(|b| b.program_mem), Ok(usize::MAX));
    assert_eq!(compile(vec![big, one]), Err(CompileError::MemoryTooLarge));
}

#[test]
fn compile_op_adds_to_the_context() {
    let mut ctx = CompCtx::new();
    assert_eq!(compile_op(&mut ctx, &Operation::PushI(5)), Ok(()));
    assert_eq!(compile_op(&mut ctx, &Operation::If(vec![Operation::Debug])), Ok(()));
    assert_eq!(ctx.compile_all(&vec![Operation::Bind(0)]), Ok(()));
    assert_eq!(
        compile_op(&mut ctx, &Operation::Intrinsic("?".to_string())),
        Err(CompileError::UnknownIntrinsic)
    );
}

#[test]
fn bytecode_new_and_len() {
    let bytecode = Bytecode::new(vec![Instr::Halt, Instr::Ret], 24);
    assert_eq!(bytecode.len(), 2);
    assert_eq!(bytecode.program_mem, 24);
    assert_eq!(bytecode.entry, 0);
    assert!(bytecode.strs.is_empty());
}

#[test]
fn every_compile_error_has_its_words() {
    assert_eq!(CompileError::UnknownIntrinsic.message(), "Unknown intrinsic");
    assert_eq!(CompileError::MemoryTooLarge.message(), "Static allocations are too large");
    assert_eq!(CompileError::ProgramTooLarge.message(), "Program is too large");
}

#[test]
fn every_jump_of_a_compiled_program_leads_into_the_program() {
    let src = "fn f a : int -> int { dup 0 < if { 1 + } else { while dup 9 < { 1 + } } } \
               alloc 8 : = m 0 while dup 3 != { dup f drop 1 + } if { m @ 8 drop } f";
    let program = code(src);
    let len = program.len() as isize;
    let mut jumps = 0;
    for (i, instr) in program.iter().enumerate() {
        match instr {
            Instr::Jmp(rel) | Instr::JmpIf(rel) => {
                let target = i as isize + rel;
                assert!(0 <= target && target <= len);
                jumps += 1;
            }
            Instr::Call(addr) => {
                assert!(0 < *addr && *addr <= program.len());
                assert!(matches!(program[*addr - 1], Instr::Jmp(_)));
                jumps += 1;
            }
            _ => {}
        }
    }
    assert_eq!(jumps, 10);
}
