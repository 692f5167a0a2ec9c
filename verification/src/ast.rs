//! The operation tree that the parser builds and the later stages read.

use vstd::prelude::*;
use crate::text::text_is;

verus! {

/// The type of a value on the stack.
#[derive(Debug, Clone, Copy, PartialEq, Eq, Structural)]
pub enum DataType {
    Int,
    Ptr,
    Bool,
}

/// A node of the operation tree.
#[derive(Debug, PartialEq, Eq)]
pub enum Operation {
    /// Hands the data stack out for display.
    Debug,
    /// A static allocation: name and size in bytes.
    Alloc(String, usize),
    /// A load; the payload is the width in bits.
    Read(usize),
    /// A store; the payload is the width in bits.
    Write(usize),
    /// The name of a function or of an allocation.
    Word(String),
    /// A built-in operation, by its symbol.
    Intrinsic(String),
    /// An integer literal.
    PushI(i32),
    /// `if` with its body.
    If(Vec<Operation>),
    /// `if` with its two bodies.
    IfElse(Vec<Operation>, Vec<Operation>),
    /// `while` with its condition and its body.
    While(Vec<Operation>, Vec<Operation>),
    /// A copy of the value at a depth below the top, 0 being the top.
    Bind(u32),
    /// A function: name, parameter names, input types, output types, body.
    Fn(String, Vec<String>, Vec<DataType>, Vec<DataType>, Vec<Operation>),
}

/// An operation tree as a mathematical value.
pub ghost enum Op {
    Debug,
    Alloc(Seq<char>, usize),
    Read(usize),
    Write(usize),
    Word(Seq<char>),
    Intrinsic(Seq<char>),
    PushI(i32),
    If(Seq<Op>),
    IfElse(Seq<Op>, Seq<Op>),
    While(Seq<Op>, Seq<Op>),
    Bind(u32),
    Fn(Seq<char>, Seq<Seq<char>>, Seq<DataType>, Seq<DataType>, Seq<Op>),
}

impl View for Operation {
    type V = Op;

    open spec fn view(&self) -> Op
        decreases self,
    {
        match self {
            Operation::Debug => Op::Debug,
            Operation::Alloc(name, size) => Op::Alloc(name@, *size),
            Operation::Read(bits) => Op::Read(*bits),
            Operation::Write(bits) => Op::Write(*bits),
            Operation::Word(name) => Op::Word(name@),
            Operation::Intrinsic(symbol) => Op::Intrinsic(symbol@),
            Operation::PushI(value) => Op::PushI(*value),
            Operation::If(body) => Op::If(view_all(body@)),
            Operation::IfElse(then, other) => Op::IfElse(view_all(then@), view_all(other@)),
            Operation::While(cond, body) => Op::While(view_all(cond@), view_all(body@)),
            Operation::Bind(depth) => Op::Bind(*depth),
            Operation::Fn(name, args, ins, outs, body) => Op::Fn(
                name@,
                names_view(args@),
                ins@,
                outs@,
                view_all(body@),
            ),
        }
    }
}

/// The texts of a list of names.
pub open spec fn names_view(names: Seq<String>) -> Seq<Seq<char>> {
    Seq::new(names.len(), |i: int| names[i]@)
}

/// The trees of a list of operations.
pub open spec fn view_all(ops: Seq<Operation>) -> Seq<Op>
    decreases ops,
{
    if ops.len() == 0 {
        Seq::empty()
    } else {
        view_all(ops.drop_last()).push(ops.last().view())
    }
}

/// The trees of a list stand in the order of the list.
pub proof fn lemma_view_all(ops: Seq<Operation>)
    ensures
        view_all(ops).len() == ops.len(),
        forall|i: int| 0 <= i < ops.len() ==> (#[trigger] view_all(ops)[i]) == ops[i]@,
    decreases ops.len(),
{
    if ops.len() > 0 {
        lemma_view_all(ops.drop_last());
        assert(view_all(ops) == view_all(ops.drop_last()).push(ops.last().view()));
        assert(view_all(ops).len() == ops.len());
        assert forall|i: int| 0 <= i < ops.len() implies (#[trigger] view_all(ops)[i])
            == ops[i]@ by {
            if i < ops.len() - 1 {
                assert(view_all(ops)[i] == view_all(ops.drop_last())[i]);
                assert(ops.drop_last()[i] == ops[i]);
            }
        }
    } else {
        assert(view_all(ops) =~= Seq::empty());
    }
}

/// Whether an operation holds no definition: no function and no allocation,
/// at any depth. Function bodies are such operations.
pub open spec fn no_defs(op: Op) -> bool
    decreases op,
{
    match op {
        Op::Fn(_, _, _, _, _) => false,
        Op::Alloc(_, _) => false,
        Op::If(body) => no_defs_all(body),
        Op::IfElse(then, other) => no_defs_all(then) && no_defs_all(other),
        Op::While(cond, body) => no_defs_all(cond) && no_defs_all(body),
        _ => true,
    }
}

/// Whether a sequence of operations holds no definition.
pub open spec fn no_defs_all(ops: Seq<Op>) -> bool
    decreases ops,
{
    if ops.len() == 0 {
        true
    } else {
        no_defs(ops[0]) && no_defs_all(ops.skip(1))
    }
}

/// Whether an operation may stand at the top of a program: a function
/// whose body holds no definition, an allocation, or an operation that holds
/// no definition.
pub open spec fn top_level(op: Op) -> bool {
    match op {
        Op::Fn(_, _, _, _, body) => no_defs_all(body),
        Op::Alloc(_, _) => true,
        _ => no_defs(op),
    }
}

/// Whether a program is well formed: functions and allocations stand at the
/// top only.
pub open spec fn well_formed(ops: Seq<Op>) -> bool {
    forall|i: int| 0 <= i < ops.len() ==> top_level(#[trigger] ops[i])
}

/// A sequence holds no definition where its first operation and the rest
/// hold none.
pub proof fn lemma_no_defs_cons(op: Op, ops: Seq<Op>)
    requires
        no_defs(op),
        no_defs_all(ops),
    ensures
        no_defs_all(seq![op] + ops),
{
    let all = seq![op] + ops;
    assert(all[0] == op);
    assert(all.skip(1) =~= ops);
}

/// A built-in operation.
#[derive(Debug, Clone, Copy, PartialEq, Eq, Structural)]
pub enum Intrinsic {
    Plus,
    Mult,
    Mod,
    Equal,
    NotEqual,
    Less,
    Dup,
    Drop,
    Swap,
    Over,
    Rot,
}

/// The built-in operation that a symbol names.
pub open spec fn intrinsic_of(symbol: Seq<char>) -> Option<Intrinsic> {
    if symbol == "+"@ {
        Some(Intrinsic::Plus)
    } else if symbol == "*"@ {
        Some(Intrinsic::Mult)
    } else if symbol == "mod"@ {
        Some(Intrinsic::Mod)
    } else if symbol == "=="@ {
        Some(Intrinsic::Equal)
    } else if symbol == "!="@ {
        Some(Intrinsic::NotEqual)
    } else if symbol == "<"@ {
        Some(Intrinsic::Less)
    } else if symbol == "dup"@ {
        Some(Intrinsic::Dup)
    } else if symbol == "drop"@ {
        Some(Intrinsic::Drop)
    } else if symbol == "swap"@ {
        Some(Intrinsic::Swap)
    } else if symbol == "over"@ {
        Some(Intrinsic::Over)
    } else if symbol == "rot"@ {
        Some(Intrinsic::Rot)
    } else {
        None
    }
}

impl Intrinsic {
    /// The built-in operation that `symbol` names.
    pub fn from_symbol(symbol: &String) -> (found: Option<Intrinsic>)
        ensures
            found == intrinsic_of(symbol@),
    {
        if text_is(symbol, "+") {
            Some(Intrinsic::Plus)
        } else if text_is(symbol, "*") {
            Some(Intrinsic::Mult)
        } else if text_is(symbol, "mod") {
            Some(Intrinsic::Mod)
        } else if text_is(symbol, "==") {
            Some(Intrinsic::Equal)
        } else if text_is(symbol, "!=") {
            Some(Intrinsic::NotEqual)
        } else if text_is(symbol, "<") {
            Some(Intrinsic::Less)
        } else if text_is(symbol, "dup") {
            Some(Intrinsic::Dup)
        } else if text_is(symbol, "drop") {
            Some(Intrinsic::Drop)
        } else if text_is(symbol, "swap") {
            Some(Intrinsic::Swap)
        } else if text_is(symbol, "over") {
            Some(Intrinsic::Over)
        } else if text_is(symbol, "rot") {
            Some(Intrinsic::Rot)
        } else {
            None
        }
    }
}

/// A copy of a list of names.
fn clone_names(names: &Vec<String>) -> (res: Vec<String>)
    ensures
        names_view(res@) == names_view(names@),
{
    let mut res: Vec<String> = Vec::new();
    let mut i: usize = 0;
    while i < names.len()
        invariant
            i <= names.len(),
            res@.len() == i,
            forall|k: int| 0 <= k < i ==> res@[k]@ == names@[k]@,
        decreases names.len() - i,
    {
        res.push(names[i].clone());
        i += 1;
    }
    assert(names_view(res@) =~= names_view(names@));
    res
}

/// A copy of a list of types.
pub fn copy_types(types: &Vec<DataType>) -> (res: Vec<DataType>)
    ensures
        res@ == types@,
{
    let mut res: Vec<DataType> = Vec::new();
    let mut i: usize = 0;
    while i < types.len()
        invariant
            i <= types.len(),
            res@ == types@.subrange(0, i as int),
        decreases types.len() - i,
    {
        res.push(types[i]);
        i += 1;
        assert(res@ =~= types@.subrange(0, i as int));
    }
    assert(res@ =~= types@);
    res
}

/// A copy of a list of operations.
fn clone_all(ops: &Vec<Operation>) -> (res: Vec<Operation>)
    ensures
        view_all(res@) == view_all(ops@),
    decreases ops, 1int,
{
    let mut res: Vec<Operation> = Vec::new();
    let mut i: usize = 0;
    while i < ops.len()
        invariant
            i <= ops.len(),
            res@.len() == i,
            forall|k: int| 0 <= k < i ==> res@[k]@ == ops@[k]@,
        decreases ops.len() - i,
    {
        res.push(ops[i].clone());
        i += 1;
    }
    proof {
        lemma_view_all(res@);
        lemma_view_all(ops@);
        assert(view_all(res@) =~= view_all(ops@));
    }
    res
}

impl Clone for Operation {
    fn clone(&self) -> (res: Self)
        ensures
            res@ == self@,
        decreases self, 0int,
    {
        match self {
            Operation::Debug => Operation::Debug,
            Operation::Alloc(name, size) => Operation::Alloc(name.clone(), *size),
            Operation::Read(bits) => Operation::Read(*bits),
            Operation::Write(bits) => Operation::Write(*bits),
            Operation::Word(name) => Operation::Word(name.clone()),
            Operation::Intrinsic(symbol) => Operation::Intrinsic(symbol.clone()),
            Operation::PushI(value) => Operation::PushI(*value),
            Operation::If(body) => Operation::If(clone_all(body)),
            Operation::IfElse(then, other) => Operation::IfElse(clone_all(then), clone_all(other)),
            Operation::While(cond, body) => Operation::While(clone_all(cond), clone_all(body)),
            Operation::Bind(depth) => Operation::Bind(*depth),
            Operation::Fn(name, args, ins, outs, body) => Operation::Fn(
                name.clone(),
                clone_names(args),
                copy_types(ins),
                copy_types(outs),
                clone_all(body),
            ),
        }
    }
}

} // verus!
