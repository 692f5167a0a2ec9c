//! The type checker: an abstract interpreter that runs an operation tree
//! over a stack of types.

use vstd::prelude::*;
use crate::ast::{
    DataType, Intrinsic, Op, Operation, copy_types, intrinsic_of, lemma_view_all, view_all,
};
use crate::names::{Duplicate, NameMap};

verus! {

/// Why a program is rejected.
#[derive(Debug, Clone, Copy, PartialEq, Eq, Structural)]
pub enum TypeError {
    /// An operation needs more values than the stack holds.
    StackUnderflow,
    /// A value on the stack has another type than the operation takes.
    TypeMismatch,
    /// The bodies of a control structure do not leave the stack they must.
    BranchMismatch,
    /// A function of that name exists already.
    Redefinition,
    /// A word that names no function and no allocation.
    UnknownWord,
    /// A symbol that names no built-in operation.
    UnknownIntrinsic,
    /// Values are left on the stack at the end of the program, or a function
    /// leaves another number of values than it declares.
    UnhandledData,
}

/// Why a program is rejected, in words.
pub open spec fn type_error_text(e: TypeError) -> Seq<char> {
    match e {
        TypeError::StackUnderflow => "Not enough data on the stack"@,
        TypeError::TypeMismatch => "Unexpected type on the stack"@,
        TypeError::BranchMismatch => "Branches leave different stacks"@,
        TypeError::Redefinition => "Redefinition of a function"@,
        TypeError::UnknownWord => "Unknown word"@,
        TypeError::UnknownIntrinsic => "Unknown intrinsic"@,
        TypeError::UnhandledData => "Unhandled data on the stack"@,
    }
}

impl TypeError {
    /// Why a program is rejected, in words.
    pub fn message(self) -> (text: &'static str)
        ensures
            text@ == type_error_text(self),
    {
        match self {
            TypeError::StackUnderflow => "Not enough data on the stack",
            TypeError::TypeMismatch => "Unexpected type on the stack",
            TypeError::BranchMismatch => "Branches leave different stacks",
            TypeError::Redefinition => "Redefinition of a function",
            TypeError::UnknownWord => "Unknown word",
            TypeError::UnknownIntrinsic => "Unknown intrinsic",
            TypeError::UnhandledData => "Unhandled data on the stack",
        }
    }
}

/// The stack effect of a function.
#[verifier::ext_equal]
pub ghost struct FnType {
    pub ins: Seq<DataType>,
    pub outs: Seq<DataType>,
}

/// What the type checker knows at a point of the program.
#[verifier::ext_equal]
pub ghost struct Ctx {
    /// The types on the stack, the bottom first.
    pub stack: Seq<DataType>,
    /// The functions defined so far.
    pub fns: Map<Seq<char>, FnType>,
    /// The allocations made so far.
    pub mems: Set<Seq<char>>,
}

/// The context before the first operation of a program.
pub open spec fn empty_ctx() -> Ctx {
    Ctx { stack: Seq::empty(), fns: Map::empty(), mems: Set::empty() }
}

/// The context in which the body of a function with the inputs `ins` is checked.
pub open spec fn fn_ctx(ins: Seq<DataType>) -> Ctx {
    Ctx { stack: ins, fns: Map::empty(), mems: Set::empty() }
}

/// `ctx` with another stack.
pub open spec fn with_stack(ctx: Ctx, stack: Seq<DataType>) -> Ctx {
    Ctx { stack: stack, fns: ctx.fns, mems: ctx.mems }
}

/// `Int Int -> out`.
pub open spec fn check_arith(stack: Seq<DataType>, out: DataType) -> Result<
    Seq<DataType>,
    TypeError,
> {
    if stack.len() < 2 {
        Err(TypeError::StackUnderflow)
    } else if stack[stack.len() - 1] != DataType::Int {
        Err(TypeError::TypeMismatch)
    } else if stack[stack.len() - 2] != DataType::Int {
        Err(TypeError::TypeMismatch)
    } else {
        Ok(stack.drop_last().drop_last().push(out))
    }
}

/// The stack after a built-in operation, or why it cannot run.
pub open spec fn check_intrinsic_spec(stack: Seq<DataType>, op: Intrinsic) -> Result<
    Seq<DataType>,
    TypeError,
> {
    match op {
        Intrinsic::Plus | Intrinsic::Mult | Intrinsic::Mod => check_arith(stack, DataType::Int),
        Intrinsic::Equal | Intrinsic::NotEqual | Intrinsic::Less => check_arith(
            stack,
            DataType::Bool,
        ),
        Intrinsic::Drop => if stack.len() < 1 {
            Err(TypeError::StackUnderflow)
        } else {
            Ok(stack.drop_last())
        },
        Intrinsic::Dup => if stack.len() < 1 {
            Err(TypeError::StackUnderflow)
        } else {
            let a = stack.last();
            Ok(stack.drop_last().push(a).push(a))
        },
        Intrinsic::Swap => if stack.len() < 2 {
            Err(TypeError::StackUnderflow)
        } else {
            let b = stack.last();
            let rest = stack.drop_last();
            let a = rest.last();
            Ok(rest.drop_last().push(b).push(a))
        },
        Intrinsic::Over => if stack.len() < 2 {
            Err(TypeError::StackUnderflow)
        } else {
            let b = stack.last();
            let rest = stack.drop_last();
            let a = rest.last();
            Ok(rest.drop_last().push(a).push(b).push(a))
        },
        Intrinsic::Rot => if stack.len() < 3 {
            Err(TypeError::StackUnderflow)
        } else {
            let c = stack.last();
            let rest1 = stack.drop_last();
            let b = rest1.last();
            let rest2 = rest1.drop_last();
            let a = rest2.last();
            Ok(rest2.drop_last().push(b).push(c).push(a))
        },
    }
}

/// The stack after the built-in operation that `symbol` names.
pub open spec fn check_symbol(stack: Seq<DataType>, symbol: Seq<char>) -> Result<
    Seq<DataType>,
    TypeError,
> {
    match intrinsic_of(symbol) {
        None => Err(TypeError::UnknownIntrinsic),
        Some(op) => check_intrinsic_spec(stack, op),
    }
}

/// The stack after a call of a function of type `ft`: the inputs must be on
/// top, the last input topmost; the outputs take their place.
pub open spec fn apply_fn(stack: Seq<DataType>, ft: FnType) -> Result<Seq<DataType>, TypeError> {
    if ft.ins.len() > stack.len() {
        Err(TypeError::StackUnderflow)
    } else {
        let base = stack.len() - ft.ins.len();
        if stack.subrange(base, stack.len() as int) != ft.ins {
            Err(TypeError::TypeMismatch)
        } else {
            Ok(stack.subrange(0, base) + ft.outs)
        }
    }
}

/// The stack with the condition of an `if` taken off.
pub open spec fn pop_bool(stack: Seq<DataType>) -> Result<Seq<DataType>, TypeError> {
    if stack.len() == 0 {
        Err(TypeError::StackUnderflow)
    } else if stack.last() != DataType::Bool {
        Err(TypeError::TypeMismatch)
    } else {
        Ok(stack.drop_last())
    }
}

/// The context after one operation, or why the operation is rejected.
///
/// The two bodies of an `if`-`else` are each checked from the same state,
/// the one below the condition; the construct leaves what the second body
/// leaves, whose stack is that of the first.
pub open spec fn check_op(ctx: Ctx, op: Op) -> Result<Ctx, TypeError>
    decreases op,
{
    match op {
        Op::Debug => Ok(ctx),
        Op::Alloc(name, _) => Ok(
            Ctx { stack: ctx.stack, fns: ctx.fns, mems: ctx.mems.insert(name) },
        ),
        Op::PushI(_) => Ok(with_stack(ctx, ctx.stack.push(DataType::Int))),
        Op::Intrinsic(symbol) => match check_symbol(ctx.stack, symbol) {
            Err(e) => Err(e),
            Ok(stack) => Ok(with_stack(ctx, stack)),
        },
        Op::Read(_) => if ctx.stack.len() < 1 {
            Err(TypeError::StackUnderflow)
        } else if ctx.stack.last() != DataType::Ptr {
            Err(TypeError::TypeMismatch)
        } else {
            Ok(with_stack(ctx, ctx.stack.drop_last().push(DataType::Int)))
        },
        Op::Write(_) => if ctx.stack.len() < 2 {
            Err(TypeError::StackUnderflow)
        } else if ctx.stack[ctx.stack.len() - 1] != DataType::Ptr {
            Err(TypeError::TypeMismatch)
        } else if ctx.stack[ctx.stack.len() - 2] != DataType::Int {
            Err(TypeError::TypeMismatch)
        } else {
            Ok(with_stack(ctx, ctx.stack.drop_last().drop_last()))
        },
        Op::Bind(depth) => if ctx.stack.len() <= depth {
            Err(TypeError::StackUnderflow)
        } else {
            Ok(with_stack(ctx, ctx.stack.push(ctx.stack[ctx.stack.len() - 1 - depth])))
        },
        Op::Word(name) => if ctx.fns.contains_key(name) {
            match apply_fn(ctx.stack, ctx.fns[name]) {
                Err(e) => Err(e),
                Ok(stack) => Ok(with_stack(ctx, stack)),
            }
        } else if ctx.mems.contains(name) {
            Ok(with_stack(ctx, ctx.stack.push(DataType::Ptr)))
        } else {
            Err(TypeError::UnknownWord)
        },
        Op::If(body) => match pop_bool(ctx.stack) {
            Err(e) => Err(e),
            Ok(inner) => match check_ops(with_stack(ctx, inner), body) {
                Err(e) => Err(e),
                Ok(after) => if after.stack != inner {
                    Err(TypeError::BranchMismatch)
                } else {
                    Ok(after)
                },
            },
        },
        Op::IfElse(then, other) => match pop_bool(ctx.stack) {
            Err(e) => Err(e),
            Ok(inner) => match check_ops(with_stack(ctx, inner), then) {
                Err(e) => Err(e),
                Ok(after_then) => match check_ops(with_stack(ctx, inner), other) {
                    Err(e) => Err(e),
                    Ok(after) => if after.stack != after_then.stack {
                        Err(TypeError::BranchMismatch)
                    } else {
                        Ok(after)
                    },
                },
            },
        },
        Op::While(cond, body) => match check_ops(ctx, cond) {
            Err(e) => Err(e),
            Ok(tested) => match pop_bool(tested.stack) {
                Err(e) => Err(e),
                Ok(inner) => if inner != ctx.stack {
                    Err(TypeError::BranchMismatch)
                } else {
                    match check_ops(with_stack(tested, inner), body) {
                        Err(e) => Err(e),
                        Ok(after) => if after.stack != ctx.stack {
                            Err(TypeError::BranchMismatch)
                        } else {
                            Ok(after)
                        },
                    }
                },
            },
        },
        Op::Fn(name, _, ins, outs, body) => if ctx.fns.contains_key(name) {
            Err(TypeError::Redefinition)
        } else {
            match check_ops(fn_ctx(ins), body) {
                Err(e) => Err(e),
                Ok(after) => if after.stack.len() != outs.len() {
                    Err(TypeError::UnhandledData)
                } else if after.stack != outs {
                    Err(TypeError::TypeMismatch)
                } else {
                    Ok(
                        Ctx {
                            stack: ctx.stack,
                            fns: ctx.fns.insert(name, FnType { ins: ins, outs: outs }),
                            mems: ctx.mems,
                        },
                    )
                },
            }
        },
    }
}

/// The context after a sequence of operations, or the first rejection.
pub open spec fn check_ops(ctx: Ctx, ops: Seq<Op>) -> Result<Ctx, TypeError>
    decreases ops,
{
    if ops.len() == 0 {
        Ok(ctx)
    } else {
        match check_op(ctx, ops[0]) {
            Err(e) => Err(e),
            Ok(next) => check_ops(next, ops.skip(1)),
        }
    }
}

/// Whether a whole program is accepted: every operation is, and the stack is
/// empty at the end.
pub open spec fn check_program_spec(ops: Seq<Op>) -> Result<(), TypeError> {
    match check_ops(empty_ctx(), ops) {
        Err(e) => Err(e),
        Ok(after) => if after.stack.len() != 0 {
            Err(TypeError::UnhandledData)
        } else {
            Ok(())
        },
    }
}

/// The stack effect of a function, as the type checker keeps it.
#[derive(Debug)]
pub struct FnSig {
    pub ins: Vec<DataType>,
    pub outs: Vec<DataType>,
}

impl View for FnSig {
    type V = FnType;

    open spec fn view(&self) -> FnType {
        FnType { ins: self.ins@, outs: self.outs@ }
    }
}

/// The state of the type checker.
#[derive(Debug)]
pub struct TypeContext {
    stack: Vec<DataType>,
    fndefs: NameMap<FnSig>,
    memdefs: NameMap<usize>,
}

impl Duplicate for FnSig {
    fn duplicate(&self) -> (copy: Self) {
        FnSig { ins: copy_types(&self.ins), outs: copy_types(&self.outs) }
    }
}

impl View for TypeContext {
    type V = Ctx;

    closed spec fn view(&self) -> Ctx {
        Ctx { stack: self.stack@, fns: self.fndefs@, mems: self.memdefs@.dom() }
    }
}

/// Whether two lists hold the same types.
pub fn same_types(a: &Vec<DataType>, b: &Vec<DataType>) -> (same: bool)
    ensures
        same == (a@ == b@),
{
    if a.len() != b.len() {
        return false;
    }
    let mut i: usize = 0;
    while i < a.len()
        invariant
            i <= a.len(),
            a.len() == b.len(),
            forall|j: int| 0 <= j < i ==> a@[j] == b@[j],
        decreases a.len() - i,
    {
        if a[i] != b[i] {
            return false;
        }
        i += 1;
    }
    assert(a@ =~= b@);
    true
}

impl TypeContext {
    /// The context before the first operation of a program.
    pub fn new() -> (ctx: Self)
        ensures
            ctx@ == empty_ctx(),
    {
        let ctx = TypeContext { stack: Vec::new(), fndefs: NameMap::new(), memdefs: NameMap::new() };
        assert(ctx@.mems =~= Set::empty());
        assert(ctx@.stack =~= Seq::empty());
        ctx
    }

    /// The context in which the body of a function with the inputs `ins` is checked.
    pub fn for_fn(ins: &Vec<DataType>) -> (ctx: Self)
        ensures
            ctx@ == fn_ctx(ins@),
    {
        let ctx = TypeContext {
            stack: copy_types(ins),
            fndefs: NameMap::new(),
            memdefs: NameMap::new(),
        };
        assert(ctx@.mems =~= Set::empty());
        ctx
    }

    /// A copy of the context.
    pub fn fork(&self) -> (copy: Self)
        ensures
            copy@ == self@,
    {
        TypeContext {
            stack: copy_types(&self.stack),
            fndefs: self.fndefs.duplicate(),
            memdefs: self.memdefs.duplicate(),
        }
    }

    /// The types on the stack, the bottom first.
    pub fn stack(&self) -> (stack: &Vec<DataType>)
        ensures
            stack@ == self@.stack,
    {
        &self.stack
    }

    /// Takes the condition of an `if` off the stack.
    fn pop_bool(&mut self) -> (r: Result<(), TypeError>)
        ensures
            match pop_bool(old(self)@.stack) {
                Ok(stack) => r is Ok && final(self)@ == with_stack(old(self)@, stack),
                Err(e) => r == Err::<(), TypeError>(e),
            },
    {
        let n = self.stack.len();
        if n == 0 {
            return Err(TypeError::StackUnderflow);
        }
        if self.stack[n - 1] != DataType::Bool {
            return Err(TypeError::TypeMismatch);
        }
        self.stack.pop();
        Ok(())
    }

    /// Checks `Int Int -> out`.
    fn arith(&mut self, out: DataType) -> (r: Result<(), TypeError>)
        ensures
            match check_arith(old(self)@.stack, out) {
                Ok(stack) => r is Ok && final(self)@ == with_stack(old(self)@, stack),
                Err(e) => r == Err::<(), TypeError>(e),
            },
    {
        let n = self.stack.len();
        if n < 2 {
            return Err(TypeError::StackUnderflow);
        }
        if self.stack[n - 1] != DataType::Int {
            return Err(TypeError::TypeMismatch);
        }
        if self.stack[n - 2] != DataType::Int {
            return Err(TypeError::TypeMismatch);
        }
        self.stack.pop();
        self.stack.pop();
        self.stack.push(out);
        Ok(())
    }

    /// Checks a call of a function with the stack effect `sig`.
    fn call(&mut self, ins: &Vec<DataType>, outs: &Vec<DataType>) -> (r: Result<(), TypeError>)
        ensures
            match apply_fn(old(self)@.stack, FnType { ins: ins@, outs: outs@ }) {
                Ok(stack) => r is Ok && final(self)@ == with_stack(old(self)@, stack),
                Err(e) => r == Err::<(), TypeError>(e),
            },
    {
        let n = self.stack.len();
        if ins.len() > n {
            return Err(TypeError::StackUnderflow);
        }
        let base = n - ins.len();
        let mut j: usize = 0;
        while j < ins.len()
            invariant
                j <= ins.len(),
                base + ins.len() == n,
                n == self.stack.len(),
                self.stack@ == old(self).stack@,
                forall|k: int| 0 <= k < j ==> self.stack@[base + k] == ins@[k],
            decreases ins.len() - j,
        {
            if self.stack[base + j] != ins[j] {
                proof {
                    let top = self.stack@.subrange(base as int, n as int);
                    assert(top[j as int] != ins@[j as int]);
                }
                return Err(TypeError::TypeMismatch);
            }
            j += 1;
        }
        assert(self.stack@.subrange(base as int, n as int) =~= ins@);
        self.stack.truncate(base);
        let mut j: usize = 0;
        while j < outs.len()
            invariant
                j <= outs.len(),
                self.fndefs == old(self).fndefs,
                self.memdefs == old(self).memdefs,
                self.stack@ == old(self).stack@.subrange(0, base as int) + outs@.subrange(
                    0,
                    j as int,
                ),
            decreases outs.len() - j,
        {
            self.stack.push(outs[j]);
            j += 1;
            assert(self.stack@ =~= old(self).stack@.subrange(0, base as int) + outs@.subrange(
                0,
                j as int,
            ));
        }
        assert(outs@.subrange(0, outs@.len() as int) =~= outs@);
        Ok(())
    }
}

/// Checks the built-in operation that `s` names against the stack of `ctx`.
pub fn check_intrinsic(s: &String, ctx: &mut TypeContext) -> (r: Result<(), TypeError>)
    ensures
        match check_symbol(old(ctx)@.stack, s@) {
            Ok(stack) => r is Ok && final(ctx)@ == with_stack(old(ctx)@, stack),
            Err(e) => r == Err::<(), TypeError>(e),
        },
{
    let op = match Intrinsic::from_symbol(s) {
        Some(op) => op,
        None => {
            return Err(TypeError::UnknownIntrinsic);
        },
    };
    let n = ctx.stack.len();
    match op {
        Intrinsic::Plus | Intrinsic::Mult | Intrinsic::Mod => ctx.arith(DataType::Int),
        Intrinsic::Equal | Intrinsic::NotEqual | Intrinsic::Less => ctx.arith(DataType::Bool),
        Intrinsic::Drop => {
            if n < 1 {
                return Err(TypeError::StackUnderflow);
            }
            ctx.stack.pop();
            Ok(())
        },
        Intrinsic::Dup => {
            if n < 1 {
                return Err(TypeError::StackUnderflow);
            }
            let a = ctx.stack.pop().unwrap();
            ctx.stack.push(a);
            ctx.stack.push(a);
            Ok(())
        },
        Intrinsic::Swap => {
            if n < 2 {
                return Err(TypeError::StackUnderflow);
            }
            let b = ctx.stack.pop().unwrap();
            let a = ctx.stack.pop().unwrap();
            ctx.stack.push(b);
            ctx.stack.push(a);
            Ok(())
        },
        Intrinsic::Over => {
            if n < 2 {
                return Err(TypeError::StackUnderflow);
            }
            let b = ctx.stack.pop().unwrap();
            let a = ctx.stack.pop().unwrap();
            ctx.stack.push(a);
            ctx.stack.push(b);
            ctx.stack.push(a);
            Ok(())
        },
        Intrinsic::Rot => {
            if n < 3 {
                return Err(TypeError::StackUnderflow);
            }
            let c = ctx.stack.pop().unwrap();
            let b = ctx.stack.pop().unwrap();
            let a = ctx.stack.pop().unwrap();
            ctx.stack.push(b);
            ctx.stack.push(c);
            ctx.stack.push(a);
            Ok(())
        },
    }
}

/// Checks the operations of `program` in order, from the context `ctx`.
///
/// On success `ctx` is the context after the last operation.
pub fn check_program_ops(ctx: &mut TypeContext, program: &Vec<Operation>) -> (r: Result<
    (),
    TypeError,
>)
    ensures
        match check_ops(old(ctx)@, view_all(program@)) {
            Ok(after) => r is Ok && final(ctx)@ == after,
            Err(e) => r == Err::<(), TypeError>(e),
        },
    decreases program,
{
    let ghost ops = view_all(program@);
    let ghost start = ctx@;
    let mut ip: usize = 0;
    proof {
        lemma_view_all(program@);
        assert(ops.skip(0) =~= ops);
    }
    while ip < program.len()
        invariant
            ip <= program.len(),
            start == old(ctx)@,
            ops == view_all(program@),
            ops.len() == program@.len(),
            forall|i: int| 0 <= i < ops.len() ==> (#[trigger] ops[i]) == program@[i]@,
            check_ops(start, ops) == check_ops(ctx@, ops.skip(ip as int)),
        decreases program.len() - ip,
    {
        let ghost here = ctx@;
        let ghost rest = ops.skip(ip as int);
        proof {
            assert(rest[0] == ops[ip as int]);
            assert(rest.skip(1) =~= ops.skip(ip as int + 1));
            assert(check_ops(here, rest) == match check_op(here, rest[0]) {
                Err(e) => Err(e),
                Ok(next) => check_ops(next, rest.skip(1)),
            });
        }
        let ghost op = ops[ip as int];
        match &program[ip] {
            Operation::Debug => {},
            Operation::Alloc(name, _) => {
                ctx.memdefs.insert(name.clone(), 0);
                assert(ctx@.mems =~= here.mems.insert(name@));
            },
            Operation::Word(name) => {
                let found = match ctx.fndefs.get(name) {
                    Some(sig) => Some((copy_types(&sig.ins), copy_types(&sig.outs))),
                    None => None,
                };
                match found {
                    Some((ins, outs)) => {
                        match ctx.call(&ins, &outs) {
                            Ok(()) => {},
                            Err(e) => {
                                return Err(e);
                            },
                        }
                    },
                    None => {
                        if ctx.memdefs.contains(name) {
                            ctx.stack.push(DataType::Ptr);
                        } else {
                            return Err(TypeError::UnknownWord);
                        }
                    },
                }
            },
            Operation::Intrinsic(s) => {
                match check_intrinsic(s, ctx) {
                    Ok(()) => {},
                    Err(e) => {
                        return Err(e);
                    },
                }
            },
            Operation::PushI(_) => {
                ctx.stack.push(DataType::Int);
            },
            Operation::Write(_) => {
                let n = ctx.stack.len();
                if n < 2 {
                    return Err(TypeError::StackUnderflow);
                }
                if ctx.stack[n - 1] != DataType::Ptr {
                    return Err(TypeError::TypeMismatch);
                }
                if ctx.stack[n - 2] != DataType::Int {
                    return Err(TypeError::TypeMismatch);
                }
                ctx.stack.pop();
                ctx.stack.pop();
            },
            Operation::Read(_) => {
                let n = ctx.stack.len();
                if n < 1 {
                    return Err(TypeError::StackUnderflow);
                }
                if ctx.stack[n - 1] != DataType::Ptr {
                    return Err(TypeError::TypeMismatch);
                }
                ctx.stack.pop();
                ctx.stack.push(DataType::Int);
            },
            Operation::Bind(i) => {
                let n = ctx.stack.len();
                if n <= *i as usize {
                    return Err(TypeError::StackUnderflow);
                }
                let a = ctx.stack[n - 1 - *i as usize];
                ctx.stack.push(a);
            },
            Operation::If(then) => {
                match ctx.pop_bool() {
                    Ok(()) => {},
                    Err(e) => {
                        return Err(e);
                    },
                }
                let inner = copy_types(&ctx.stack);
                match check_program_ops(ctx, then) {
                    Ok(()) => {},
                    Err(e) => {
                        return Err(e);
                    },
                }
                if !same_types(&ctx.stack, &inner) {
                    return Err(TypeError::BranchMismatch);
                }
            },
            Operation::IfElse(then, else_) => {
                match ctx.pop_bool() {
                    Ok(()) => {},
                    Err(e) => {
                        return Err(e);
                    },
                }
                let mut fork = ctx.fork();
                match check_program_ops(&mut fork, then) {
                    Ok(()) => {},
                    Err(e) => {
                        return Err(e);
                    },
                }
                match check_program_ops(ctx, else_) {
                    Ok(()) => {},
                    Err(e) => {
                        return Err(e);
                    },
                }
                if !same_types(&ctx.stack, &fork.stack) {
                    return Err(TypeError::BranchMismatch);
                }
            },
            Operation::While(cond, body) => {
                let before = copy_types(&ctx.stack);
                match check_program_ops(ctx, cond) {
                    Ok(()) => {},
                    Err(e) => {
                        return Err(e);
                    },
                }
                match ctx.pop_bool() {
                    Ok(()) => {},
                    Err(e) => {
                        return Err(e);
                    },
                }
                if !same_types(&ctx.stack, &before) {
                    return Err(TypeError::BranchMismatch);
                }
                match check_program_ops(ctx, body) {
                    Ok(()) => {},
                    Err(e) => {
                        return Err(e);
                    },
                }
                if !same_types(&ctx.stack, &before) {
                    return Err(TypeError::BranchMismatch);
                }
            },
            Operation::Fn(name, _, ins, outs, body) => {
                if ctx.fndefs.contains(name) {
                    return Err(TypeError::Redefinition);
                }
                let mut inner = TypeContext::for_fn(ins);
                match check_program_ops(&mut inner, body) {
                    Ok(()) => {},
                    Err(e) => {
                        return Err(e);
                    },
                }
                if inner.stack.len() != outs.len() {
                    return Err(TypeError::UnhandledData);
                }
                if !same_types(&inner.stack, outs) {
                    return Err(TypeError::TypeMismatch);
                }
                let sig = FnSig { ins: copy_types(ins), outs: copy_types(outs) };
                ctx.fndefs.insert(name.clone(), sig);
            },
        }
        assert(check_op(here, op) == Ok::<Ctx, TypeError>(ctx@));
        ip += 1;
    }
    Ok(())
}

/// Checks a whole program: every operation must be accepted, and the stack
/// must be empty at the end.
pub fn check_program(program: &Vec<Operation>) -> (r: Result<(), TypeError>)
    ensures
        r == check_program_spec(view_all(program@)),
{
    let mut ctx = TypeContext::new();
    match check_program_ops(&mut ctx, program) {
        Ok(()) => {},
        Err(e) => {
            return Err(e);
        },
    }
    if ctx.stack.len() != 0 {
        return Err(TypeError::UnhandledData);
    }
    Ok(())
}

/// An accepted `if` takes the condition off and leaves the rest of the stack
/// as it was: its body is accepted from that stack and changes nothing of it.
pub proof fn lemma_if_keeps_stack(ctx: Ctx, body: Seq<Op>)
    requires
        check_op(ctx, Op::If(body)) is Ok,
    ensures
        ctx.stack.len() > 0,
        ctx.stack.last() == DataType::Bool,
        check_ops(with_stack(ctx, ctx.stack.drop_last()), body) is Ok,
        check_ops(with_stack(ctx, ctx.stack.drop_last()), body)->Ok_0.stack
            == ctx.stack.drop_last(),
        check_op(ctx, Op::If(body))->Ok_0.stack == ctx.stack.drop_last(),
        check_op(ctx, Op::If(body))->Ok_0.stack.len() == ctx.stack.len() - 1,
{
}

/// An accepted `if`-`else` takes the condition off; both bodies are accepted
/// from the same state, the one below the condition, and both leave the
/// stack that the construct leaves.
pub proof fn lemma_if_else_branches_agree(ctx: Ctx, then: Seq<Op>, other: Seq<Op>)
    requires
        check_op(ctx, Op::IfElse(then, other)) is Ok,
    ensures
        ctx.stack.len() > 0,
        ctx.stack.last() == DataType::Bool,
        check_ops(with_stack(ctx, ctx.stack.drop_last()), then) is Ok,
        check_ops(with_stack(ctx, ctx.stack.drop_last()), other) is Ok,
        check_ops(with_stack(ctx, ctx.stack.drop_last()), then)->Ok_0.stack == check_op(
            ctx,
            Op::IfElse(then, other),
        )->Ok_0.stack,
        check_ops(with_stack(ctx, ctx.stack.drop_last()), other)->Ok_0.stack == check_op(
            ctx,
            Op::IfElse(then, other),
        )->Ok_0.stack,
{
}

/// An accepted `while` leaves the stack as it found it: the condition adds
/// one `Bool` and nothing else, and the body, which runs without that `Bool`,
/// changes nothing.
pub proof fn lemma_while_keeps_stack(ctx: Ctx, cond: Seq<Op>, body: Seq<Op>)
    requires
        check_op(ctx, Op::While(cond, body)) is Ok,
    ensures
        check_ops(ctx, cond) is Ok,
        check_ops(ctx, cond)->Ok_0.stack == ctx.stack.push(DataType::Bool),
        check_ops(with_stack(check_ops(ctx, cond)->Ok_0, ctx.stack), body) is Ok,
        check_ops(with_stack(check_ops(ctx, cond)->Ok_0, ctx.stack), body)->Ok_0.stack
            == ctx.stack,
        check_op(ctx, Op::While(cond, body))->Ok_0.stack == ctx.stack,
{
    let tested = check_ops(ctx, cond)->Ok_0;
    assert(tested.stack =~= tested.stack.drop_last().push(tested.stack.last()));
}

/// The body of an accepted function turns a stack of the inputs into a
/// stack of the outputs, whatever was defined before.
pub proof fn lemma_fn_body_gives_outputs(
    ctx: Ctx,
    name: Seq<char>,
    args: Seq<Seq<char>>,
    ins: Seq<DataType>,
    outs: Seq<DataType>,
    body: Seq<Op>,
)
    requires
        check_op(ctx, Op::Fn(name, args, ins, outs, body)) is Ok,
    ensures
        check_ops(fn_ctx(ins), body) is Ok,
        check_ops(fn_ctx(ins), body)->Ok_0.stack == outs,
        check_op(ctx, Op::Fn(name, args, ins, outs, body))->Ok_0.stack == ctx.stack,
        check_op(ctx, Op::Fn(name, args, ins, outs, body))->Ok_0.fns[name] == (FnType {
            ins: ins,
            outs: outs,
        }),
{
}

/// `Bind` is accepted exactly where its depth lies in the stack, the bottom
/// included, and then pushes a copy of the type at that depth.
pub proof fn lemma_bind_depth(ctx: Ctx, depth: u32)
    ensures
        check_op(ctx, Op::Bind(depth)) is Ok <==> depth < ctx.stack.len(),
        depth >= ctx.stack.len() ==> check_op(ctx, Op::Bind(depth)) == Err::<Ctx, TypeError>(
            TypeError::StackUnderflow,
        ),
        depth < ctx.stack.len() ==> check_op(ctx, Op::Bind(depth))->Ok_0.stack
            == ctx.stack.push(ctx.stack[ctx.stack.len() - 1 - depth]),
{
}

/// Checking is a function of the operation tree alone: two programs with
/// the same tree get the same verdict, and so do two runs on one program.
pub proof fn lemma_check_is_a_function(a: Seq<Operation>, b: Seq<Operation>)
    requires
        view_all(a) == view_all(b),
    ensures
        check_program_spec(view_all(a)) == check_program_spec(view_all(b)),
{
}

} // verus!
