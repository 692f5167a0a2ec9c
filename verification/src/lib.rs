//! A toolchain for a small stack-oriented, statically typed, concatenative
//! language: lexer, parser, type checker, bytecode compiler and stack
//! machine.
//!
//! A source text goes through the stages in order: `parser::parse_file`
//! turns it into a sequence of operations, `type_check::check_program`
//! accepts or rejects them, `compiler::compile` lowers them to bytecode, and
//! `vm::vm_run`, or a loop over `vm::Vm::step`, runs the bytecode.
//!
//! Every stage has a mathematical model that its functions are proved to
//! follow: `lexer::scan`, `parser::parse_spec`, `type_check::check_ops`,
//! `compiler::emit_all` and `vm::step_spec`. The laws that tie the stages
//! together stand in `render` (lexing is the inverse of writing tokens out),
//! in `soundness` (the compiled body of an accepted function turns its
//! inputs into its outputs) and in `safety` (an accepted program never pops
//! from an empty stack and never jumps out of the program).

pub mod ast;
pub mod compiler;
pub mod instructions;
pub mod lexer;
pub mod memory;
pub mod names;
pub mod number;
pub mod parser;
pub mod render;
pub mod safety;
pub mod soundness;
pub mod stack;
pub mod text;
pub mod type_check;
pub mod vm;
