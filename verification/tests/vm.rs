use chs::compiler::compile;
use chs::instructions::{Bytecode, Instr};
use chs::parser::parse_file;
use chs::vm::{jump, jump_in_bounds, jump_to, vm_run, Outcome, RunReport, Step, Trap, Vm, STACK_CELLS};

fn run_code(code: Vec<Instr>) -> RunReport {
    vm_run(Bytecode::new(code, 16), 100_000)
}

fn run_source(src: &str) -> RunReport {
    let ops = parse_file(src.as_bytes().to_vec(), "test.chs".to_string()).unwrap();
    vm_run(compile(ops).unwrap(), 100_000)
}

fn stack_after(code: Vec<Instr>) -> Vec<u64> {
    let report = run_code(code);
    assert_eq!(report.outcome, Outcome::Halted);
    report.stack
}

fn trap_of(code: Vec<Instr>) -> Trap {
    match run_code(code).outcome {
        Outcome::Trapped(t) => t,
        other => panic!("no trap: {:?}", other),
    }
}

fn push(values: &[i32]) -> Vec<Instr> {
    values.iter().map(|v| Instr::PushI32(*v)).collect()
}

fn with(values: &[i32], rest: &[Instr]) -> Vec<Instr> {
    let mut code = push(values);
    code.extend_from_slice(rest);
    code
}

#[test]
fn adds_two_numbers() {
    let report = run_source("1 2 + debug");
    assert_eq!(report.outcome, Outcome::Halted);
    assert_eq!(report.dumps, vec![vec![3]]);
    assert_eq!(report.stack, vec![3]);
}

#[test]
fn rot_brings_the_third_value_to_the_top() {
    let report = run_source("1 2 3 rot debug");
    assert_eq!(report.dumps, vec![vec![2, 3, 1]]);
}

#[test]
fn a_function_adds_its_two_arguments() {
    let report = run_source("fn add a b : int int -> int { & 1 & 1 + } 3 4 add debug");
    assert_eq!(report.outcome, Outcome::Halted);
    assert_eq!(report.dumps, vec![vec![3, 4, 7]]);
    assert_eq!(report.dumps[0].last(), Some(&7));
}

#[test]
fn a_value_written_to_an_allocation_is_read_back() {
    let report = run_source("alloc 8 : = buf  42 buf ! 64 buf @ 64 debug");
    assert_eq!(report.outcome, Outcome::Halted);
    assert_eq!(report.dumps, vec![vec![42]]);
    assert_eq!(&report.memory[..8], &[42, 0, 0, 0, 0, 0, 0, 0]);
    assert_eq!(report.memory.len(), 8);
}

#[test]
fn a_loop_counts_up() {
    let report = run_source("0 while dup 3 != { dup 1 + } debug");
    assert_eq!(report.outcome, Outcome::Halted);
    assert_eq!(report.dumps, vec![vec![0, 1, 2, 3]]);
}

#[test]
fn the_else_branch_runs_when_the_test_is_false() {
    let report = run_source("1 1 != if { 100 } else { 200 } debug");
    assert_eq!(report.dumps, vec![vec![200]]);
    let report = run_source("1 1 == if { 100 } else { 200 } debug");
    assert_eq!(report.dumps, vec![vec![100]]);
}

#[test]
fn if_skips_its_body_when_the_test_is_false() {
    assert_eq!(run_source("5 1 2 == if { 1 + } 1 1 == if { 10 + }").stack, vec![15]);
}

#[test]
fn every_debug_shows_the_stack_of_its_moment() {
    let report = run_source("debug 1 debug 2 debug drop drop debug");
    assert_eq!(report.dumps, vec![vec![], vec![1], vec![1, 2], vec![]]);
}

#[test]
fn calls_return_to_the_instruction_after_the_call() {
    let report = run_source("fn two : -> int { 2 } fn four : -> int int { 2 2 } two four two debug");
    assert_eq!(report.stack, vec![2, 2, 2, 2]);
    assert_eq!(report.outcome, Outcome::Halted);
}

#[test]
fn literals_are_sign_extended() {
    assert_eq!(stack_after(push(&[-1, i32::MIN, i32::MAX])), vec![
        u64::MAX,
        0xFFFF_FFFF_8000_0000,
        0x7FFF_FFFF
    ]);
}

#[test]
fn pointers_are_pushed_as_they_are() {
    assert_eq!(stack_after(vec![Instr::PushPtr(0), Instr::PushPtr(12345)]), vec![0, 12345]);
}

#[test]
fn stack_instructions_pop_right_to_left() {
    assert_eq!(stack_after(with(&[1, 2], &[Instr::Drop])), vec![1]);
    assert_eq!(stack_after(with(&[1, 2], &[Instr::Dup])), vec![1, 2, 2]);
    assert_eq!(stack_after(with(&[1, 2], &[Instr::Swap])), vec![2, 1]);
    assert_eq!(stack_after(with(&[1, 2], &[Instr::Over])), vec![1, 2, 1]);
    assert_eq!(stack_after(with(&[0, 1, 2, 3], &[Instr::Rot])), vec![0, 2, 3, 1]);
}

#[test]
fn arithmetic_pops_b_then_a() {
    assert_eq!(stack_after(with(&[9, 7, 5], &[Instr::PlusI])), vec![9, 12]);
    assert_eq!(stack_after(with(&[9, 7, 5], &[Instr::MultI])), vec![9, 35]);
    assert_eq!(stack_after(with(&[9, 7, 5], &[Instr::Mod])), vec![9, 2]);
    assert_eq!(stack_after(with(&[9, 5, 7], &[Instr::Mod])), vec![9, 5]);
    assert_eq!(stack_after(with(&[9, 7, 5], &[Instr::Offset])), vec![9, 12]);
}

#[test]
fn arithmetic_wraps_at_64_bits() {
    assert_eq!(stack_after(with(&[-1, 1], &[Instr::PlusI])), vec![0]);
    assert_eq!(stack_after(with(&[-1, -1], &[Instr::PlusI])), vec![u64::MAX - 1]);
    assert_eq!(stack_after(with(&[-1, 2], &[Instr::MultI])), vec![u64::MAX - 1]);
    assert_eq!(stack_after(with(&[-1, -1], &[Instr::MultI])), vec![1]);
    assert_eq!(stack_after(with(&[-1, 1], &[Instr::Offset])), vec![0]);
}

#[test]
fn comparisons_push_one_or_zero() {
    assert_eq!(stack_after(with(&[3, 3], &[Instr::EqI])), vec![1]);
    assert_eq!(stack_after(with(&[3, 4], &[Instr::EqI])), vec![0]);
    assert_eq!(stack_after(with(&[3, 3], &[Instr::NEqI])), vec![0]);
    assert_eq!(stack_after(with(&[3, 4], &[Instr::NEqI])), vec![1]);
    assert_eq!(stack_after(with(&[3, 4], &[Instr::Lt])), vec![1]);
    assert_eq!(stack_after(with(&[4, 3], &[Instr::Lt])), vec![0]);
    assert_eq!(stack_after(with(&[3, 3], &[Instr::Lt])), vec![0]);
    assert_eq!(stack_after(with(&[1, -1], &[Instr::Lt])), vec![1]);
}

#[test]
fn bind_copies_the_cell_at_a_depth() {
    assert_eq!(stack_after(with(&[5, 6, 7], &[Instr::Bind(0)])), vec![5, 6, 7, 7]);
    assert_eq!(stack_after(with(&[5, 6, 7], &[Instr::Bind(1)])), vec![5, 6, 7, 6]);
    assert_eq!(stack_after(with(&[5, 6, 7], &[Instr::Bind(2)])), vec![5, 6, 7, 5]);
    assert_eq!(trap_of(with(&[5, 6, 7], &[Instr::Bind(3)])), Trap::StackUnderflow);
    assert_eq!(trap_of(vec![Instr::Bind(0)]), Trap::StackUnderflow);
}

#[test]
fn jumps_are_relative_to_the_jump() {
    assert_eq!(
        stack_after(vec![Instr::Jmp(2), Instr::PushI32(1), Instr::PushI32(2)]),
        vec![2]
    );
    assert_eq!(stack_after(vec![Instr::PushI32(1), Instr::Jmp(1)]), vec![1]);
    assert_eq!(
        stack_after(vec![
            Instr::Jmp(3),
            Instr::PushI32(1),
            Instr::Halt,
            Instr::Jmp(-2),
            Instr::PushI32(2)
        ]),
        vec![1]
    );
}

#[test]
fn jmp_if_jumps_on_zero() {
    let code = |test: i32| {
        vec![Instr::PushI32(test), Instr::JmpIf(2), Instr::PushI32(10), Instr::PushI32(20)]
    };
    assert_eq!(stack_after(code(0)), vec![20]);
    assert_eq!(stack_after(code(1)), vec![10, 20]);
    assert_eq!(stack_after(code(-5)), vec![10, 20]);
}

#[test]
fn halt_stops_the_machine() {
    assert_eq!(stack_after(vec![Instr::PushI32(1), Instr::Halt, Instr::PushI32(2)]), vec![1]);
}

#[test]
fn ret_with_an_empty_return_stack_stops_the_machine() {
    assert_eq!(stack_after(vec![Instr::PushI32(1), Instr::Ret, Instr::PushI32(2)]), vec![1]);
}

#[test]
fn call_and_ret() {
    assert_eq!(
        stack_after(vec![
            Instr::Call(3),
            Instr::PushI32(2),
            Instr::Halt,
            Instr::PushI32(1),
            Instr::Ret
        ]),
        vec![1, 2]
    );
}

#[test]
fn reads_zero_extend() {
    let prepare = vec![Instr::PushI32(-2), Instr::PushPtr(0), Instr::Write(64)];
    let read = |bits: usize| {
        let mut code = prepare.clone();
        code.extend_from_slice(&[Instr::PushPtr(0), Instr::Read(bits)]);
        stack_after(code)
    };
    assert_eq!(read(8), vec![0xFE]);
    assert_eq!(read(16), vec![0xFFFE]);
    assert_eq!(read(32), vec![0xFFFF_FFFE]);
    assert_eq!(read(64), vec![u64::MAX - 1]);
}

#[test]
fn writes_store_the_low_bits() {
    let write = |bits: usize| {
        let report = run_code(vec![
            Instr::PushI32(-1),
            Instr::PushPtr(2),
            Instr::Write(64),
            Instr::PushI32(0x01020304),
            Instr::PushPtr(3),
            Instr::Write(bits),
        ]);
        assert_eq!(report.outcome, Outcome::Halted);
        assert_eq!(report.stack, Vec::<u64>::new());
        report.memory[..12].to_vec()
    };
    assert_eq!(write(8), vec![0, 0, 0xff, 4, 0xff, 0xff, 0xff, 0xff, 0xff, 0xff, 0, 0]);
    assert_eq!(write(16), vec![0, 0, 0xff, 4, 3, 0xff, 0xff, 0xff, 0xff, 0xff, 0, 0]);
    assert_eq!(write(32), vec![0, 0, 0xff, 4, 3, 2, 1, 0xff, 0xff, 0xff, 0, 0]);
    assert_eq!(write(64), vec![0, 0, 0xff, 4, 3, 2, 1, 0, 0, 0, 0, 0]);
}

#[test]
fn a_read_of_the_last_byte_succeeds_and_one_past_it_traps() {
    for size in [1usize, 8, 15, 16, 40] {
        let bytecode =
            |ptr: usize| Bytecode::new(vec![Instr::PushPtr(ptr), Instr::Read(8)], size);
        let last = vm_run(bytecode(size - 1), 10);
        assert_eq!(last.outcome, Outcome::Halted);
        assert_eq!(last.stack, vec![0]);
        assert_eq!(last.memory.len(), size);
        let past = vm_run(bytecode(size), 10);
        assert_eq!(past.outcome, Outcome::Trapped(Trap::MemoryOutOfBounds));
        assert_eq!(past.stack, vec![size as u64]);
    }
}

#[test]
fn wide_accesses_must_end_in_the_arena() {
    let read = |ptr: usize, bits: usize| {
        vm_run(Bytecode::new(vec![Instr::PushPtr(ptr), Instr::Read(bits)], 40), 10).outcome
    };
    assert_eq!(read(32, 64), Outcome::Halted);
    assert_eq!(read(33, 64), Outcome::Trapped(Trap::MemoryOutOfBounds));
    assert_eq!(read(36, 32), Outcome::Halted);
    assert_eq!(read(37, 32), Outcome::Trapped(Trap::MemoryOutOfBounds));
    assert_eq!(read(38, 16), Outcome::Halted);
    assert_eq!(read(39, 16), Outcome::Trapped(Trap::MemoryOutOfBounds));
    assert_eq!(read(usize::MAX, 8), Outcome::Trapped(Trap::MemoryOutOfBounds));
    let write = |ptr: usize, bits: usize| {
        vm_run(
            Bytecode::new(vec![Instr::PushI32(1), Instr::PushPtr(ptr), Instr::Write(bits)], 40),
            10,
        )
        .outcome
    };
    assert_eq!(write(39, 8), Outcome::Halted);
    assert_eq!(write(40, 8), Outcome::Trapped(Trap::MemoryOutOfBounds));
    assert_eq!(write(32, 64), Outcome::Halted);
    assert_eq!(write(33, 64), Outcome::Trapped(Trap::MemoryOutOfBounds));
}

#[test]
fn the_arena_holds_the_strings_and_the_allocations() {
    let mut bytecode = Bytecode::new(vec![Instr::PushPtr(1), Instr::Read(16)], 20);
    bytecode.strs = vec![vec![1, 2, 3], vec![], vec![4]];
    let report = vm_run(bytecode, 10);
    assert_eq!(report.stack, vec![0x0302]);
    assert_eq!(report.memory.len(), 24);
    assert_eq!(&report.memory[..6], &[1, 2, 3, 4, 0, 0]);
}

#[test]
fn the_arena_has_exactly_the_size_asked_for() {
    let report = vm_run(Bytecode::new(vec![], 3), 10);
    assert_eq!(report.memory, vec![0u8; 3]);
    assert_eq!(report.outcome, Outcome::Halted);
    let report = vm_run(Bytecode::new(vec![], 0), 10);
    assert_eq!(report.memory, Vec::<u8>::new());
    let mut bytecode = Bytecode::new(vec![], 2);
    bytecode.strs = vec![vec![9, 8, 7]];
    assert_eq!(vm_run(bytecode, 10).memory, vec![9, 8, 7, 0, 0]);
}

#[test]
fn a_read_at_the_size_of_a_small_arena_traps() {
    let program = vec![Instr::PushPtr(8), Instr::Read(8), Instr::Debug];
    let report = vm_run(Bytecode::new(program, 8), 10);
    assert_eq!(report.outcome, Outcome::Trapped(Trap::MemoryOutOfBounds));
    assert_eq!(report.dumps, Vec::<Vec<u64>>::new());
    assert_eq!(report.stack, vec![8]);
    assert_eq!(report.memory, vec![0u8; 8]);
    let program = vec![Instr::PushPtr(7), Instr::Read(8), Instr::Debug];
    let report = vm_run(Bytecode::new(program, 8), 10);
    assert_eq!(report.outcome, Outcome::Halted);
    assert_eq!(report.dumps, vec![vec![0]]);
}

#[test]
fn no_access_reaches_past_a_small_arena() {
    for asked in 0..16usize {
        for ptr in 0..20usize {
            for (bits, bytes) in [(8usize, 1usize), (16, 2), (32, 4), (64, 8)] {
                let inside = ptr + bytes <= asked;
                let read = vm_run(
                    Bytecode::new(vec![Instr::PushPtr(ptr), Instr::Read(bits)], asked),
                    10,
                );
                let write = vm_run(
                    Bytecode::new(
                        vec![Instr::PushI32(-1), Instr::PushPtr(ptr), Instr::Write(bits)],
                        asked,
                    ),
                    10,
                );
                let expected = if inside {
                    Outcome::Halted
                } else {
                    Outcome::Trapped(Trap::MemoryOutOfBounds)
                };
                assert_eq!(read.outcome, expected);
                assert_eq!(write.outcome, expected);
                assert_eq!(read.memory.len(), asked);
                assert_eq!(write.memory.len(), asked);
                if !inside {
                    assert_eq!(write.memory, vec![0u8; asked]);
                }
            }
        }
    }
}

#[test]
fn an_instruction_without_its_operands_traps() {
    for op in [
        Instr::Drop,
        Instr::Dup,
        Instr::JmpIf(1),
        Instr::Read(8),
    ] {
        assert_eq!(trap_of(vec![op]), Trap::StackUnderflow);
    }
    for op in [
        Instr::Swap,
        Instr::Over,
        Instr::PlusI,
        Instr::MultI,
        Instr::Mod,
        Instr::Offset,
        Instr::Lt,
        Instr::EqI,
        Instr::NEqI,
        Instr::Write(8),
    ] {
        assert_eq!(trap_of(vec![Instr::PushI32(1), op]), Trap::StackUnderflow);
    }
    assert_eq!(trap_of(with(&[1, 2], &[Instr::Rot])), Trap::StackUnderflow);
}

#[test]
fn a_trap_leaves_the_stack_as_it_was() {
    let report = run_code(with(&[1, 2], &[Instr::Rot]));
    assert_eq!(report.stack, vec![1, 2]);
    let report = run_code(with(&[7, 0], &[Instr::Mod]));
    assert_eq!(report.outcome, Outcome::Trapped(Trap::DivisionByZero));
    assert_eq!(report.stack, vec![7, 0]);
}

#[test]
fn the_data_stack_holds_1024_cells() {
    assert_eq!(STACK_CELLS, 1024);
    let full = vec![Instr::PushI32(1); 1024];
    assert_eq!(stack_after(full.clone()).len(), 1024);
    for op in [Instr::PushI32(1), Instr::PushPtr(0), Instr::Dup, Instr::Over, Instr::Bind(0)] {
        let mut code = full.clone();
        code.push(op);
        assert_eq!(trap_of(code), Trap::StackOverflow);
    }
    let mut code = full;
    code.extend_from_slice(&[Instr::Swap, Instr::Rot, Instr::PlusI, Instr::Dup]);
    assert_eq!(stack_after(code).len(), 1024);
}

#[test]
fn an_unknown_width_traps() {
    assert_eq!(trap_of(vec![Instr::PushPtr(0), Instr::Read(7)]), Trap::InvalidWidth);
    assert_eq!(trap_of(vec![Instr::PushPtr(0), Instr::Read(0)]), Trap::InvalidWidth);
    assert_eq!(trap_of(vec![Instr::PushPtr(0), Instr::Read(128)]), Trap::InvalidWidth);
    assert_eq!(
        trap_of(vec![Instr::PushI32(1), Instr::PushPtr(0), Instr::Write(24)]),
        Trap::InvalidWidth
    );
}

#[test]
fn a_jump_out_of_the_program_traps() {
    assert_eq!(trap_of(vec![Instr::Jmp(-1)]), Trap::JumpOutOfBounds);
    assert_eq!(trap_of(vec![Instr::Jmp(2)]), Trap::JumpOutOfBounds);
    assert_eq!(trap_of(vec![Instr::Jmp(isize::MAX)]), Trap::JumpOutOfBounds);
    assert_eq!(trap_of(vec![Instr::Jmp(isize::MIN)]), Trap::JumpOutOfBounds);
    assert_eq!(trap_of(vec![Instr::PushI32(0), Instr::JmpIf(-2)]), Trap::JumpOutOfBounds);
    assert_eq!(trap_of(vec![Instr::PushI32(0), Instr::JmpIf(2)]), Trap::JumpOutOfBounds);
    assert_eq!(trap_of(vec![Instr::Call(2)]), Trap::JumpOutOfBounds);
    assert_eq!(stack_after(vec![Instr::PushI32(1), Instr::JmpIf(-9)]), Vec::<u64>::new());
    assert_eq!(stack_after(vec![Instr::Jmp(1)]), Vec::<u64>::new());
    assert_eq!(stack_after(vec![Instr::Call(1)]), Vec::<u64>::new());
}

#[test]
fn a_remainder_by_zero_traps() {
    assert_eq!(trap_of(with(&[1, 0], &[Instr::Mod])), Trap::DivisionByZero);
}

#[test]
fn a_run_stops_when_its_steps_are_used_up() {
    let report = vm_run(Bytecode::new(vec![Instr::Debug, Instr::Jmp(-1)], 0), 7);
    assert_eq!(report.outcome, Outcome::OutOfSteps);
    assert_eq!(report.dumps.len(), 4);
    let report = vm_run(Bytecode::new(vec![Instr::PushI32(1)], 0), 1);
    assert_eq!(report.outcome, Outcome::OutOfSteps);
    assert_eq!(report.stack, vec![1]);
    let report = vm_run(Bytecode::new(vec![Instr::PushI32(1)], 0), 2);
    assert_eq!(report.outcome, Outcome::Halted);
    let report = vm_run(Bytecode::new(vec![], 0), 0);
    assert_eq!(report.outcome, Outcome::OutOfSteps);
}

#[test]
fn a_run_starts_at_the_entry() {
    let mut bytecode = Bytecode::new(vec![Instr::PushI32(1), Instr::PushI32(2)], 0);
    bytecode.entry = 1;
    assert_eq!(vm_run(bytecode, 10).stack, vec![2]);
}

#[test]
fn the_machine_can_be_stepped_by_hand() {
    let mut vm = Vm::new(Bytecode::new(
        vec![Instr::PushI32(4), Instr::Debug, Instr::Drop, Instr::Drop],
        0,
    ));
    assert_eq!(vm.ip(), 0);
    assert_eq!(vm.step(), Step::Continue);
    assert_eq!(vm.step(), Step::Dump);
    assert_eq!(vm.stack_cells(), vec![4]);
    assert_eq!(vm.ip(), 2);
    assert_eq!(vm.step(), Step::Continue);
    assert_eq!(vm.step(), Step::Trap(Trap::StackUnderflow));
    assert_eq!(vm.step(), Step::Trap(Trap::StackUnderflow));
    assert_eq!(vm.ip(), 3);
    assert_eq!(vm.memory().size(), 0);
    let mut vm = Vm::new(Bytecode::new(vec![], 0));
    assert_eq!(vm.step(), Step::Halt);
    assert_eq!(vm.step(), Step::Halt);
}

#[test]
fn jump_adds_an_offset_to_an_address() {
    assert_eq!(jump(10, 5), 15);
    assert_eq!(jump(10, -10), 0);
    assert_eq!(jump(10, 0), 10);
    assert_eq!(jump(0, isize::MAX), isize::MAX as usize);
    assert_eq!(jump(usize::MAX, isize::MIN), usize::MAX - (1usize << (usize::BITS - 1)));
}

#[test]
fn jump_to_is_the_offset_between_two_addresses() {
    assert_eq!(jump_to(10, 15), 5);
    assert_eq!(jump_to(15, 10), -5);
    assert_eq!(jump_to(3, 3), 0);
    assert_eq!(jump_to(0, isize::MAX as usize), isize::MAX);
    assert_eq!(jump_to(1usize << (usize::BITS - 1), 0), isize::MIN);
    assert_eq!(jump(7, jump_to(7, 1000)), 1000);
    assert_eq!(jump(1000, jump_to(1000, 7)), 7);
}

#[test]
fn jump_in_bounds_allows_the_end_of_the_program() {
    assert!(jump_in_bounds(2, 3, 5));
    assert!(!jump_in_bounds(2, 4, 5));
    assert!(jump_in_bounds(2, -2, 5));
    assert!(!jump_in_bounds(2, -3, 5));
    assert!(!jump_in_bounds(0, isize::MIN, 5));
    assert!(!jump_in_bounds(0, isize::MAX, 5));
}

#[test]
fn a_dump_is_shown_with_its_heading() {
    let report = run_source("1 2 + debug");
    assert_eq!(chs::vm::show_debug(&report.dumps[0]), "Debug:\nData Stack: [ 3 ]");
    let report = run_source("0 while dup 3 != { dup 1 + } debug");
    assert_eq!(chs::vm::show_debug(&report.dumps[0]), "Debug:\nData Stack: [ 0  1  2  3 ]");
    assert_eq!(chs::vm::show_debug(&vec![]), "Debug:\nData Stack: []");
}

#[test]
fn the_body_of_an_accepted_function_replaces_its_inputs_by_its_outputs() {
    let f = "fn f a b : int int -> int bool { over over < rot rot + swap }";
    let ops = parse_file(f.as_bytes().to_vec(), "test.chs".to_string()).unwrap();
    assert_eq!(chs::type_check::check_program(&ops), Ok(()));
    let src = format!("{f} 9 3 4 f");
    let ops = parse_file(src.as_bytes().to_vec(), "test.chs".to_string()).unwrap();
    let report = vm_run(compile(ops).unwrap(), 1000);
    assert_eq!(report.outcome, Outcome::Halted);
    assert_eq!(report.stack, vec![9, 7, 1]);
}

#[test]
fn a_run_keeps_the_size_of_the_arena_and_the_stack_in_its_bounds() {
    let src = "alloc 24 : = a 1 a ! 64 a @ 8 a @ 16 a @ 32 a @ 64 0 while dup 2000 < { dup 1 + }";
    let ops = parse_file(src.as_bytes().to_vec(), "test.chs".to_string()).unwrap();
    let report = vm_run(compile(ops).unwrap(), 1_000_000);
    assert_eq!(report.outcome, Outcome::Trapped(Trap::StackOverflow));
    assert_eq!(report.memory.len(), 24);
    assert_eq!(report.stack.len(), 1024);
}

#[test]
fn every_trap_has_its_words() {
    assert_eq!(Trap::StackUnderflow.message(), "pop from an empty stack");
    assert_eq!(Trap::StackOverflow.message(), "data stack overflow");
    assert_eq!(Trap::MemoryOutOfBounds.message(), "memory access out of bounds");
    assert_eq!(Trap::InvalidWidth.message(), "invalid access width");
    assert_eq!(Trap::JumpOutOfBounds.message(), "jump target out of bounds");
    assert_eq!(Trap::DivisionByZero.message(), "division by zero");
}

#[test]
fn accepted_programs_never_pop_from_an_empty_stack() {
    let sources = [
        "",
        "1 2 + drop",
        "fn sq a : int -> int { dup * } 0 while dup 50 < { 1 + dup sq drop } drop",
        "alloc 16 : = m 7 m ! 64 m @ 64 m @ 8 == if { m @ 16 drop } else { 1 2 + drop }",
        "fn max a b : int int -> int { over over < if { swap } drop } 3 9 max 9 max drop",
        "fn f : -> { } fn g a : bool -> { if { 1 drop } } f 1 1 != g f",
        "1 0 mod drop",
        "alloc 1 : = a alloc 1 : = b alloc 1 : = c c @ 64 drop",
        "fn deep : -> int int int int { 1 2 3 4 } deep rot + * mod drop",
    ];
    for src in sources {
        let ops = parse_file(src.as_bytes().to_vec(), "test.chs".to_string()).unwrap();
        assert_eq!(chs::type_check::check_program(&ops), Ok(()), "{}", src);
        let report = vm_run(compile(ops).unwrap(), 200_000);
        assert!(
            !matches!(
                report.outcome,
                Outcome::Trapped(Trap::StackUnderflow) | Outcome::Trapped(Trap::JumpOutOfBounds)
            ),
            "{}: {:?}",
            src,
            report.outcome
        );
    }
}

#[test]
fn an_arena_fits_when_its_size_can_be_counted() {
    let mut bytecode = Bytecode::new(vec![], usize::MAX - 3);
    assert!(chs::vm::arena_fits(&bytecode));
    bytecode.strs = vec![vec![1, 2], vec![3]];
    assert!(chs::vm::arena_fits(&bytecode));
    bytecode.strs.push(vec![4]);
    assert!(!chs::vm::arena_fits(&bytecode));
    assert!(chs::vm::arena_fits(&Bytecode::new(vec![], 0)));
}
