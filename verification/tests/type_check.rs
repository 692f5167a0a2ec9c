use chs::ast::{copy_types, DataType, Operation};
use chs::parser::parse_file;
use chs::type_check::{
    check_intrinsic, check_program, check_program_ops, same_types, TypeContext, TypeError,
};

use chs::ast::DataType::{Bool, Int, Ptr};

fn ops(src: &str) -> Vec<Operation> {
    parse_file(src.as_bytes().to_vec(), "test.chs".to_string()).unwrap()
}

/// The stack that `src` leaves when it runs from the stack `start`.
fn run_from(start: &[DataType], src: &str) -> Result<Vec<DataType>, TypeError> {
    let mut ctx = TypeContext::for_fn(&start.to_vec());
    check_program_ops(&mut ctx, &ops(src))?;
    Ok(ctx.stack().clone())
}

fn run(src: &str) -> Result<Vec<DataType>, TypeError> {
    let mut ctx = TypeContext::new();
    check_program_ops(&mut ctx, &ops(src))?;
    Ok(ctx.stack().clone())
}

#[test]
fn a_literal_pushes_an_int() {
    assert_eq!(run("1 2"), Ok(vec![Int, Int]));
}

#[test]
fn debug_changes_nothing() {
    assert_eq!(run("1 debug"), Ok(vec![Int]));
    assert_eq!(check_program(&ops("debug")), Ok(()));
}

#[test]
fn arithmetic_takes_two_ints_and_gives_one() {
    for op in ["+", "*", "mod"] {
        assert_eq!(run_from(&[Bool, Int, Int], op), Ok(vec![Bool, Int]));
        assert_eq!(run_from(&[Int], op), Err(TypeError::StackUnderflow));
        assert_eq!(run_from(&[Int, Bool], op), Err(TypeError::TypeMismatch));
        assert_eq!(run_from(&[Ptr, Int], op), Err(TypeError::TypeMismatch));
    }
}

#[test]
fn comparisons_take_two_ints_and_give_a_bool() {
    for op in ["<", "!=", "=="] {
        assert_eq!(run_from(&[Ptr, Int, Int], op), Ok(vec![Ptr, Bool]));
        assert_eq!(run_from(&[], op), Err(TypeError::StackUnderflow));
        assert_eq!(run_from(&[Int, Ptr], op), Err(TypeError::TypeMismatch));
        assert_eq!(run_from(&[Bool, Int], op), Err(TypeError::TypeMismatch));
    }
}

#[test]
fn stack_intrinsics_shuffle_types() {
    assert_eq!(run_from(&[Int, Bool], "dup"), Ok(vec![Int, Bool, Bool]));
    assert_eq!(run_from(&[Int, Bool], "drop"), Ok(vec![Int]));
    assert_eq!(run_from(&[Int, Bool], "swap"), Ok(vec![Bool, Int]));
    assert_eq!(run_from(&[Int, Bool], "over"), Ok(vec![Int, Bool, Int]));
    assert_eq!(run_from(&[Int, Bool, Ptr], "rot"), Ok(vec![Bool, Ptr, Int]));
}

#[test]
fn stack_intrinsics_need_their_operands() {
    assert_eq!(run_from(&[], "dup"), Err(TypeError::StackUnderflow));
    assert_eq!(run_from(&[], "drop"), Err(TypeError::StackUnderflow));
    assert_eq!(run_from(&[Int], "swap"), Err(TypeError::StackUnderflow));
    assert_eq!(run_from(&[Int], "over"), Err(TypeError::StackUnderflow));
    assert_eq!(run_from(&[Int, Int], "rot"), Err(TypeError::StackUnderflow));
}

#[test]
fn unknown_symbols_are_rejected() {
    for op in ["-", ">", "$"] {
        assert_eq!(run_from(&[Int, Int], op), Err(TypeError::UnknownIntrinsic));
    }
}

#[test]
fn check_intrinsic_works_on_the_context() {
    let mut ctx = TypeContext::for_fn(&vec![Int, Int]);
    assert_eq!(check_intrinsic(&"<".to_string(), &mut ctx), Ok(()));
    assert_eq!(ctx.stack(), &vec![Bool]);
    assert_eq!(check_intrinsic(&"+".to_string(), &mut ctx), Err(TypeError::StackUnderflow));
    assert_eq!(check_intrinsic(&"nop".to_string(), &mut ctx), Err(TypeError::UnknownIntrinsic));
}

#[test]
fn read_takes_a_pointer_and_gives_an_int() {
    assert_eq!(run_from(&[Bool, Ptr], "@ 8"), Ok(vec![Bool, Int]));
    assert_eq!(run_from(&[], "@ 8"), Err(TypeError::StackUnderflow));
    assert_eq!(run_from(&[Int], "@ 8"), Err(TypeError::TypeMismatch));
}

#[test]
fn write_takes_an_int_and_a_pointer() {
    assert_eq!(run_from(&[Bool, Int, Ptr], "! 8"), Ok(vec![Bool]));
    assert_eq!(run_from(&[Ptr], "! 8"), Err(TypeError::StackUnderflow));
    assert_eq!(run_from(&[Ptr, Int], "! 8"), Err(TypeError::TypeMismatch));
    assert_eq!(run_from(&[Ptr, Ptr], "! 8"), Err(TypeError::TypeMismatch));
}

#[test]
fn bind_copies_the_value_at_a_depth() {
    assert_eq!(run_from(&[Ptr, Bool, Int], "& 0"), Ok(vec![Ptr, Bool, Int, Int]));
    assert_eq!(run_from(&[Ptr, Bool, Int], "& 1"), Ok(vec![Ptr, Bool, Int, Bool]));
}

#[test]
fn bind_reaches_the_bottom_and_no_further() {
    assert_eq!(run_from(&[Ptr, Bool, Int], "& 2"), Ok(vec![Ptr, Bool, Int, Ptr]));
    assert_eq!(run_from(&[Ptr, Bool, Int], "& 3"), Err(TypeError::StackUnderflow));
    assert_eq!(run_from(&[Ptr, Bool, Int], "& 4"), Err(TypeError::StackUnderflow));
    assert_eq!(run_from(&[], "& 0"), Err(TypeError::StackUnderflow));
}

#[test]
fn an_allocation_names_a_pointer() {
    assert_eq!(run("alloc 8 : = buf buf"), Ok(vec![Ptr]));
    assert_eq!(run("buf alloc 8 : = buf"), Err(TypeError::UnknownWord));
}

#[test]
fn a_call_replaces_the_inputs_by_the_outputs() {
    let f = "fn f a b : int bool -> int int { drop dup } ";
    assert_eq!(run_from(&[Bool, Int, Bool], &format!("{f} f")), Ok(vec![Bool, Int, Int]));
    assert_eq!(run_from(&[Bool], &format!("{f} f")), Err(TypeError::StackUnderflow));
    assert_eq!(run_from(&[Bool, Int], &format!("{f} f")), Err(TypeError::TypeMismatch));
    assert_eq!(run_from(&[Int, Int, Bool], &format!("{f} f f")), Err(TypeError::TypeMismatch));
    assert_eq!(
        run_from(&[Int, Bool], &format!("{f} f drop drop f")),
        Err(TypeError::StackUnderflow)
    );
}

#[test]
fn a_function_without_inputs_can_be_called_on_any_stack() {
    assert_eq!(run_from(&[Bool], "fn one : -> int { 1 } one one"), Ok(vec![Bool, Int, Int]));
}

#[test]
fn a_function_body_must_leave_the_outputs() {
    assert_eq!(run("fn f a : int -> int { 1 + }"), Ok(vec![]));
    assert_eq!(run("fn f a : int -> int { }"), Ok(vec![]));
    assert_eq!(run("fn f a : int -> int { 1 }"), Err(TypeError::UnhandledData));
    assert_eq!(run("fn f a : int -> { }"), Err(TypeError::UnhandledData));
    assert_eq!(run("fn f a : int -> bool { }"), Err(TypeError::TypeMismatch));
    assert_eq!(run("fn f a : int -> int { + }"), Err(TypeError::StackUnderflow));
}

#[test]
fn a_function_body_is_checked_in_a_fresh_context() {
    assert_eq!(run("alloc 8 : = buf fn f : -> ptr { buf }"), Err(TypeError::UnknownWord));
    assert_eq!(run("fn g : -> { } fn f : -> { g }"), Err(TypeError::UnknownWord));
    assert_eq!(run("fn f : -> { f }"), Err(TypeError::UnknownWord));
}

#[test]
fn a_function_cannot_be_defined_twice() {
    assert_eq!(run("fn f : -> { } fn f : -> { }"), Err(TypeError::Redefinition));
    assert_eq!(run("fn f : -> { } fn g : -> { }"), Ok(vec![]));
}

#[test]
fn unknown_words_are_rejected() {
    assert_eq!(run("nothing"), Err(TypeError::UnknownWord));
}

#[test]
fn if_needs_a_bool_and_a_body_that_keeps_the_stack() {
    assert_eq!(run_from(&[Int, Bool], "if { 1 + }"), Ok(vec![Int]));
    assert_eq!(run_from(&[Int, Bool], "if { }"), Ok(vec![Int]));
    assert_eq!(run_from(&[], "if { }"), Err(TypeError::StackUnderflow));
    assert_eq!(run_from(&[Int], "if { }"), Err(TypeError::TypeMismatch));
    assert_eq!(run_from(&[Int, Bool], "if { 1 }"), Err(TypeError::BranchMismatch));
    assert_eq!(run_from(&[Int, Bool], "if { drop }"), Err(TypeError::BranchMismatch));
    assert_eq!(run_from(&[Int, Bool], "if { 1 1 == swap drop }"), Err(TypeError::BranchMismatch));
    assert_eq!(run_from(&[Int, Bool], "if { + }"), Err(TypeError::StackUnderflow));
}

#[test]
fn if_else_needs_branches_that_agree() {
    assert_eq!(run_from(&[Bool], "if { 100 } else { 200 }"), Ok(vec![Int]));
    assert_eq!(run_from(&[Int, Bool], "if { drop } else { drop }"), Ok(vec![]));
    assert_eq!(run_from(&[Bool], "if { 1 } else { }"), Err(TypeError::BranchMismatch));
    assert_eq!(run_from(&[Bool], "if { 1 } else { 1 1 == }"), Err(TypeError::BranchMismatch));
    assert_eq!(run_from(&[], "if { } else { }"), Err(TypeError::StackUnderflow));
    assert_eq!(run_from(&[Ptr], "if { } else { }"), Err(TypeError::TypeMismatch));
    assert_eq!(run_from(&[Bool], "if { } else { + }"), Err(TypeError::StackUnderflow));
    assert_eq!(run_from(&[Bool], "if { nope } else { }"), Err(TypeError::UnknownWord));
}

#[test]
fn if_else_with_empty_bodies_is_accepted() {
    assert_eq!(run_from(&[Bool], "if { } else { }"), Ok(vec![]));
    assert_eq!(check_program(&ops("1 1 == if { } else { }")), Ok(()));
    assert_eq!(run_from(&[Int, Bool], "if { } else { }"), Ok(vec![Int]));
}

#[test]
fn each_branch_of_if_else_starts_from_the_same_stack() {
    assert_eq!(run_from(&[Int, Bool], "if { 1 + } else { 2 * }"), Ok(vec![Int]));
    assert_eq!(run_from(&[Int, Bool], "if { drop 1 1 == } else { 1 < }"), Ok(vec![Bool]));
}

#[test]
fn while_needs_a_condition_that_adds_a_bool_and_a_body_that_keeps_the_stack() {
    assert_eq!(run_from(&[Int], "while dup 3 != { 1 + }"), Ok(vec![Int]));
    assert_eq!(run_from(&[], "while 1 1 == { }"), Ok(vec![]));
    assert_eq!(run_from(&[], "while { }"), Err(TypeError::StackUnderflow));
    assert_eq!(run_from(&[], "while 1 { }"), Err(TypeError::TypeMismatch));
    assert_eq!(run_from(&[Int], "while dup 3 != { dup 1 + }"), Err(TypeError::BranchMismatch));
    assert_eq!(run_from(&[Int], "while dup 3 != { drop }"), Err(TypeError::BranchMismatch));
    assert_eq!(run_from(&[Int], "while dup 3 != { 1 < }"), Err(TypeError::BranchMismatch));
}

#[test]
fn a_while_condition_that_leaves_more_than_a_bool_is_rejected() {
    assert_eq!(run_from(&[], "while 1 1 1 == { }"), Err(TypeError::BranchMismatch));
    assert_eq!(run_from(&[], "while 1 1 1 == { drop }"), Err(TypeError::BranchMismatch));
    assert_eq!(run_from(&[Int], "while 1 < 1 1 == { }"), Err(TypeError::BranchMismatch));
    assert_eq!(run_from(&[Int, Bool], "while { }"), Err(TypeError::BranchMismatch));
}

#[test]
fn a_program_must_leave_the_stack_empty() {
    assert_eq!(check_program(&ops("")), Ok(()));
    assert_eq!(check_program(&ops("1 drop")), Ok(()));
    assert_eq!(check_program(&ops("1 2 + debug")), Err(TypeError::UnhandledData));
    assert_eq!(check_program(&ops("1 +")), Err(TypeError::StackUnderflow));
}

#[test]
fn checking_twice_gives_the_same_answer() {
    for src in [
        "1 2 + drop",
        "fn f a : int -> int { 1 + } 1 f drop",
        "1 if { }",
        "alloc 8 : = buf 42 buf ! 64 buf @ 64 drop",
        "while 1 1 == { 1 }",
    ] {
        let program = ops(src);
        let first = check_program(&program);
        let second = check_program(&program);
        assert_eq!(first, second);
        assert_eq!(check_program(&ops(src)), first);
    }
}

#[test]
fn calls_see_functions_inside_control_flow() {
    assert_eq!(
        run_from(&[Int], "fn inc a : int -> int { 1 + } 1 1 == if { inc } while dup 9 < { inc }"),
        Ok(vec![Int])
    );
}

#[test]
fn same_types_and_copy_types() {
    assert!(same_types(&vec![Int, Ptr], &vec![Int, Ptr]));
    assert!(!same_types(&vec![Int, Ptr], &vec![Int, Bool]));
    assert!(!same_types(&vec![Int], &vec![Int, Int]));
    assert!(same_types(&vec![], &vec![]));
    assert_eq!(copy_types(&vec![Bool, Int]), vec![Bool, Int]);
}

#[test]
fn every_type_error_has_its_words() {
    assert_eq!(TypeError::StackUnderflow.message(), "Not enough data on the stack");
    assert_eq!(TypeError::TypeMismatch.message(), "Unexpected type on the stack");
    assert_eq!(TypeError::BranchMismatch.message(), "Branches leave different stacks");
    assert_eq!(TypeError::Redefinition.message(), "Redefinition of a function");
    assert_eq!(TypeError::UnknownWord.message(), "Unknown word");
    assert_eq!(TypeError::UnknownIntrinsic.message(), "Unknown intrinsic");
    assert_eq!(TypeError::UnhandledData.message(), "Unhandled data on the stack");
}

#[test]
fn the_else_body_does_not_see_what_the_then_body_defines() {
    let define = Operation::Alloc("m".to_string(), 1);
    let use_it = vec![Operation::Word("m".to_string()), Operation::Intrinsic("drop".to_string())];
    let program = vec![Operation::IfElse(vec![define], use_it.clone())];
    let mut ctx = TypeContext::for_fn(&vec![Bool]);
    assert_eq!(check_program_ops(&mut ctx, &program), Err(TypeError::UnknownWord));
    let define = Operation::Alloc("m".to_string(), 1);
    let program = vec![define, Operation::IfElse(vec![], use_it)];
    let mut ctx = TypeContext::for_fn(&vec![Bool]);
    assert_eq!(check_program_ops(&mut ctx, &program), Ok(()));
    assert_eq!(ctx.stack(), &Vec::<DataType>::new());
}

#[test]
fn a_forked_context_goes_its_own_way() {
    let mut ctx = TypeContext::for_fn(&vec![Int]);
    assert_eq!(check_program_ops(&mut ctx, &ops("fn f : -> { } alloc 1 : = m")), Ok(()));
    let mut fork = ctx.fork();
    assert_eq!(fork.stack(), &vec![Int]);
    assert_eq!(check_program_ops(&mut fork, &ops("f m drop drop")), Ok(()));
    assert_eq!(fork.stack(), &Vec::<DataType>::new());
    assert_eq!(ctx.stack(), &vec![Int]);
    assert_eq!(check_program_ops(&mut fork, &ops("alloc 1 : = n n drop")), Ok(()));
    assert_eq!(check_program_ops(&mut ctx, &ops("n")), Err(TypeError::UnknownWord));
    assert_eq!(check_program_ops(&mut ctx, &ops("m")), Ok(()));
}
