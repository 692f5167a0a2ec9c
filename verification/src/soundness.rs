//! What type checking promises of the compiled code: the body of an accepted
//! function, run on the machine, consumes its inputs and leaves its outputs.

use vstd::prelude::*;
use crate::ast::{DataType, Intrinsic, Op, intrinsic_of, no_defs, no_defs_all, top_level};
use crate::compiler::{
    CompState, compile_spec, emit, emit_all, emitted, empty_state, lemma_compiled_is_linked,
    lemma_emit_all_keeps, opcode, patched,
};
use crate::instructions::Instr;
use crate::parser::{lemma_parse_well_formed, parse_spec};
use crate::type_check::{
    Ctx, FnType, check_op, check_ops, empty_ctx, fn_ctx, pop_bool, with_stack,
};
use crate::vm::{Step, Trap, VmState, step_spec};

verus! {

/// What the words of an expression stand for: the entry address and the
/// stack effect of each function, and the offset of each allocation.
pub ghost struct Names {
    pub fns: Map<Seq<char>, (usize, FnType)>,
    pub mems: Map<Seq<char>, usize>,
}

/// No names: what the words of a function body stand for.
pub open spec fn no_names() -> Names {
    Names { fns: Map::empty(), mems: Map::empty() }
}

/// Whether an operation holds no definition and no unknown symbol.
pub open spec fn plain(op: Op) -> bool
    decreases op,
{
    match op {
        Op::Fn(_, _, _, _, _) => false,
        Op::Alloc(_, _) => false,
        Op::Intrinsic(symbol) => intrinsic_of(symbol).is_some(),
        Op::If(body) => plain_all(body),
        Op::IfElse(then, other) => plain_all(then) && plain_all(other),
        Op::While(cond, body) => plain_all(cond) && plain_all(body),
        _ => true,
    }
}

/// Whether all operations of a sequence are plain.
pub open spec fn plain_all(ops: Seq<Op>) -> bool
    decreases ops,
{
    if ops.len() == 0 {
        true
    } else {
        plain(ops[0]) && plain_all(ops.skip(1))
    }
}

/// Whether an operation holds no word, at any depth.
pub open spec fn wordless(op: Op) -> bool
    decreases op,
{
    match op {
        Op::Word(_) => false,
        Op::If(body) => wordless_all(body),
        Op::IfElse(then, other) => wordless_all(then) && wordless_all(other),
        Op::While(cond, body) => wordless_all(cond) && wordless_all(body),
        Op::Fn(_, _, _, _, body) => wordless_all(body),
        _ => true,
    }
}

/// Whether a sequence of operations holds no word.
pub open spec fn wordless_all(ops: Seq<Op>) -> bool
    decreases ops,
{
    if ops.len() == 0 {
        true
    } else {
        wordless(ops[0]) && wordless_all(ops.skip(1))
    }
}

/// Whether the type checker in the context `ctx` takes words for what
/// `names` says, and `sig` gives each entry address the stack effect of its
/// function.
pub open spec fn typed(ctx: Ctx, names: Names, sig: Map<int, FnType>) -> bool {
    &&& ctx.fns.dom() == names.fns.dom()
    &&& ctx.mems == names.mems.dom()
    &&& forall|name: Seq<char>| #[trigger]
        names.fns.contains_key(name) ==> {
            &&& ctx.fns[name] == names.fns[name].1
            &&& sig.contains_key(names.fns[name].0 as int)
            &&& sig[names.fns[name].0 as int] == names.fns[name].1
        }
}

/// An operation that is accepted where no name is known holds no word.
pub proof fn lemma_accepted_is_wordless(ctx: Ctx, op: Op)
    requires
        no_defs(op),
        ctx.fns == Map::<Seq<char>, FnType>::empty(),
        ctx.mems == Set::<Seq<char>>::empty(),
        check_op(ctx, op) is Ok,
    ensures
        wordless(op),
    decreases op, 0int,
{
    lemma_accepted_is_plain(ctx, op);
    match op {
        Op::If(body) => {
            let inner = pop_bool(ctx.stack)->Ok_0;
            lemma_accepted_all_wordless(with_stack(ctx, inner), body);
        },
        Op::IfElse(then, other) => {
            let inner = pop_bool(ctx.stack)->Ok_0;
            lemma_accepted_all_wordless(with_stack(ctx, inner), then);
            lemma_accepted_all_wordless(with_stack(ctx, inner), other);
        },
        Op::While(cond, body) => {
            lemma_accepted_all_wordless(ctx, cond);
            lemma_accepted_all_plain(ctx, cond);
            let tested = check_ops(ctx, cond)->Ok_0;
            let inner = pop_bool(tested.stack)->Ok_0;
            lemma_accepted_all_wordless(with_stack(tested, inner), body);
        },
        _ => {},
    }
}

/// Operations that are accepted where no name is known hold no word.
pub proof fn lemma_accepted_all_wordless(ctx: Ctx, ops: Seq<Op>)
    requires
        no_defs_all(ops),
        ctx.fns == Map::<Seq<char>, FnType>::empty(),
        ctx.mems == Set::<Seq<char>>::empty(),
        check_ops(ctx, ops) is Ok,
    ensures
        wordless_all(ops),
    decreases ops, 1int,
{
    if ops.len() > 0 {
        lemma_accepted_is_wordless(ctx, ops[0]);
        lemma_accepted_is_plain(ctx, ops[0]);
        lemma_accepted_all_wordless(check_op(ctx, ops[0])->Ok_0, ops.skip(1));
    }
}

/// An operation without definitions that is accepted is plain, and leaves
/// the names as they are.
pub proof fn lemma_accepted_is_plain(ctx: Ctx, op: Op)
    requires
        no_defs(op),
        check_op(ctx, op) is Ok,
    ensures
        plain(op),
        check_op(ctx, op)->Ok_0.fns == ctx.fns,
        check_op(ctx, op)->Ok_0.mems == ctx.mems,
    decreases op, 0int,
{
    match op {
        Op::If(body) => {
            let inner = pop_bool(ctx.stack)->Ok_0;
            lemma_accepted_all_plain(with_stack(ctx, inner), body);
        },
        Op::IfElse(then, other) => {
            let inner = pop_bool(ctx.stack)->Ok_0;
            lemma_accepted_all_plain(with_stack(ctx, inner), then);
            lemma_accepted_all_plain(with_stack(ctx, inner), other);
        },
        Op::While(cond, body) => {
            lemma_accepted_all_plain(ctx, cond);
            let tested = check_ops(ctx, cond)->Ok_0;
            let inner = pop_bool(tested.stack)->Ok_0;
            lemma_accepted_all_plain(with_stack(tested, inner), body);
        },
        _ => {},
    }
}

/// Operations without definitions that are accepted are plain, and leave
/// the names as they are.
pub proof fn lemma_accepted_all_plain(ctx: Ctx, ops: Seq<Op>)
    requires
        no_defs_all(ops),
        check_ops(ctx, ops) is Ok,
    ensures
        plain_all(ops),
        check_ops(ctx, ops)->Ok_0.fns == ctx.fns,
        check_ops(ctx, ops)->Ok_0.mems == ctx.mems,
    decreases ops, 1int,
{
    if ops.len() > 0 {
        lemma_accepted_is_plain(ctx, ops[0]);
        lemma_accepted_all_plain(check_op(ctx, ops[0])->Ok_0, ops.skip(1));
    }
}

/// The code of a plain operation, where its words stand for `names`. Jumps
/// are relative, so the code is the same wherever it stands.
pub open spec fn code(op: Op, names: Names) -> Seq<Instr>
    decreases op,
{
    match op {
        Op::PushI(i) => seq![Instr::PushI32(i)],
        Op::Debug => seq![Instr::Debug],
        Op::Read(bits) => seq![Instr::Read(bits)],
        Op::Write(bits) => seq![Instr::Write(bits)],
        Op::Bind(depth) => seq![Instr::Bind(depth)],
        Op::Intrinsic(symbol) => match intrinsic_of(symbol) {
            Some(i) => seq![opcode(i)],
            None => Seq::empty(),
        },
        Op::Word(name) => if names.fns.contains_key(name) {
            seq![Instr::Call(names.fns[name].0)]
        } else if names.mems.contains_key(name) {
            seq![Instr::PushPtr(names.mems[name])]
        } else {
            Seq::empty()
        },
        Op::If(body) => seq![Instr::JmpIf((code_all(body, names).len() + 1) as isize)] + code_all(
            body,
            names,
        ),
        Op::IfElse(then, other) => seq![Instr::JmpIf((code_all(then, names).len() + 2) as isize)]
            + code_all(then, names) + seq![
            Instr::Jmp((code_all(other, names).len() + 1) as isize),
        ] + code_all(other, names),
        Op::While(cond, body) => code_all(cond, names) + seq![
            Instr::JmpIf((code_all(body, names).len() + 2) as isize),
        ] + code_all(body, names) + seq![
            Instr::Jmp((-(code_all(cond, names).len() + 1 + code_all(body, names).len())) as isize),
        ],
        _ => Seq::empty(),
    }
}

/// The code of a sequence of plain operations.
pub open spec fn code_all(ops: Seq<Op>, names: Names) -> Seq<Instr>
    decreases ops,
{
    if ops.len() == 0 {
        Seq::empty()
    } else {
        code(ops[0], names) + code_all(ops.skip(1), names)
    }
}

/// `st` with `more` after its instructions.
pub open spec fn extended(st: CompState, more: Seq<Instr>) -> CompState {
    CompState {
        instr: st.instr + more,
        fn_def: st.fn_def,
        mem_def: st.mem_def,
        mem_size: st.mem_size,
    }
}

/// Whether the compiler in the state `st` takes words for what `names`
/// says.
pub open spec fn resolves(st: CompState, names: Names) -> bool {
    &&& st.fn_def.dom() == names.fns.dom()
    &&& forall|name: Seq<char>| #[trigger]
        names.fns.contains_key(name) ==> st.fn_def[name] == names.fns[name].0
    &&& st.mem_def == names.mems
}

/// Where the compiler accepts a plain operation, it appends the code of the
/// operation and changes nothing else.
pub proof fn lemma_emit_plain(st: CompState, names: Names, op: Op)
    requires
        plain(op),
        wordless(op) || resolves(st, names),
        emit(st, op) is Ok,
    ensures
        emit(st, op)->Ok_0 == extended(st, code(op, names)),
    decreases op, 0int,
{
    let at = st.instr.len() as int;
    let done = emit(st, op)->Ok_0;
    match op {
        Op::If(body) => {
            let start = emitted(st, Instr::JmpIf(0));
            lemma_emit_all_plain(start, names, body);
            assert(done.instr =~= st.instr + code(op, names));
        },
        Op::IfElse(then, other) => {
            let start = emitted(st, Instr::Halt);
            lemma_emit_all_plain(start, names, then);
            let done_then = emit_all(start, then)->Ok_0;
            let at2 = done_then.instr.len() as int;
            let ready = patched(
                emitted(done_then, Instr::Jmp(0)),
                at,
                Instr::JmpIf((at2 - at + 1) as isize),
            );
            lemma_emit_all_plain(ready, names, other);
            assert(done.instr =~= st.instr + code(op, names));
        },
        Op::While(cond, body) => {
            lemma_emit_all_plain(st, names, cond);
            let tested = emit_all(st, cond)->Ok_0;
            lemma_emit_all_plain(emitted(tested, Instr::JmpIf(0)), names, body);
            assert(done.instr =~= st.instr + code(op, names));
        },
        Op::Word(name) => {
            assert(st.fn_def.dom().contains(name) == names.fns.dom().contains(name));
            if names.fns.contains_key(name) {
                assert(st.fn_def[name] == names.fns[name].0);
            }
            assert(done.instr =~= st.instr + code(op, names));
        },
        _ => {
            assert(done.instr =~= st.instr + code(op, names));
        },
    }
}

/// Where the compiler accepts plain operations, it appends their code and
/// changes nothing else.
pub proof fn lemma_emit_all_plain(st: CompState, names: Names, ops: Seq<Op>)
    requires
        plain_all(ops),
        wordless_all(ops) || resolves(st, names),
        emit_all(st, ops) is Ok,
    ensures
        emit_all(st, ops)->Ok_0 == extended(st, code_all(ops, names)),
    decreases ops, 1int,
{
    if ops.len() > 0 {
        lemma_emit_plain(st, names, ops[0]);
        let next = emit(st, ops[0])->Ok_0;
        lemma_emit_all_plain(next, names, ops.skip(1));
        assert(emit_all(st, ops)->Ok_0.instr =~= st.instr + code_all(ops, names));
    } else {
        assert(st.instr + code_all(ops, names) =~= st.instr);
    }
}

/// By how many cells a built-in operation changes the depth of the stack.
pub open spec fn intrinsic_delta(op: Intrinsic) -> int {
    match op {
        Intrinsic::Plus | Intrinsic::Mult | Intrinsic::Mod => -1,
        Intrinsic::Equal | Intrinsic::NotEqual | Intrinsic::Less => -1,
        Intrinsic::Drop => -1,
        Intrinsic::Dup => 1,
        Intrinsic::Over => 1,
        Intrinsic::Swap => 0,
        Intrinsic::Rot => 0,
    }
}

/// By how many cells an accepted plain operation changes the depth of the
/// stack.
pub open spec fn delta(op: Op, names: Names) -> int
    decreases op,
{
    match op {
        Op::PushI(_) => 1,
        Op::Bind(_) => 1,
        Op::Write(_) => -2,
        Op::Intrinsic(symbol) => match intrinsic_of(symbol) {
            Some(i) => intrinsic_delta(i),
            None => 0,
        },
        Op::Word(name) => if names.fns.contains_key(name) {
            names.fns[name].1.outs.len() - names.fns[name].1.ins.len()
        } else if names.mems.contains_key(name) {
            1
        } else {
            0
        },
        Op::If(body) => delta_all(body, names) - 1,
        Op::IfElse(then, other) => delta_all(then, names) - 1,
        Op::While(cond, body) => delta_all(cond, names) - 1 + delta_all(body, names),
        _ => 0,
    }
}

/// By how many cells accepted plain operations change the depth of the
/// stack.
pub open spec fn delta_all(ops: Seq<Op>, names: Names) -> int
    decreases ops,
{
    if ops.len() == 0 {
        0
    } else {
        delta(ops[0], names) + delta_all(ops.skip(1), names)
    }
}

/// The depth of the stack before each instruction of the code of `op`, where
/// the depth before the first is `d`.
pub open spec fn depths(op: Op, names: Names, d: int) -> Seq<int>
    decreases op,
{
    match op {
        Op::If(body) => seq![d] + depths_all(body, names, d - 1),
        Op::IfElse(then, other) => seq![d] + depths_all(then, names, d - 1) + seq![
            d - 1 + delta_all(then, names),
        ] + depths_all(other, names, d - 1),
        Op::While(cond, body) => depths_all(cond, names, d) + seq![d + delta_all(cond, names)]
            + depths_all(body, names, d + delta_all(cond, names) - 1) + seq![
            d + delta_all(cond, names) - 1 + delta_all(body, names),
        ],
        Op::Intrinsic(symbol) => match intrinsic_of(symbol) {
            Some(i) => seq![d],
            None => Seq::empty(),
        },
        Op::Word(name) => if names.fns.contains_key(name) || names.mems.contains_key(name) {
            seq![d]
        } else {
            Seq::empty()
        },
        Op::Fn(_, _, _, _, _) => Seq::empty(),
        Op::Alloc(_, _) => Seq::empty(),
        _ => seq![d],
    }
}

/// The depth of the stack before each instruction of the code of `ops`.
pub open spec fn depths_all(ops: Seq<Op>, names: Names, d: int) -> Seq<int>
    decreases ops,
{
    if ops.len() == 0 {
        Seq::empty()
    } else {
        depths(ops[0], names, d) + depths_all(ops.skip(1), names, d + delta(ops[0], names))
    }
}

/// Whether the instruction at `i` fits the depths `at`: the stack is deep
/// enough for its operands, and at each instruction that may run next the
/// depth is the one that this instruction leaves. `at[i]` is the depth before
/// instruction `i`, and the last entry the depth after the code. Jumps stay
/// in the code or lead to its end; a call finds the inputs of its function,
/// whose stack effect `sig` gives, and leaves the outputs; nothing returns or
/// halts.
pub open spec fn ok_at(code: Seq<Instr>, at: Seq<int>, sig: Map<int, FnType>, i: int) -> bool {
    let d = at[i];
    let next = at[i + 1];
    match code[i] {
        Instr::PushI32(_) => next == d + 1,
        Instr::PushPtr(_) => next == d + 1,
        Instr::Debug => next == d,
        Instr::Drop => d >= 1 && next == d - 1,
        Instr::Dup => d >= 1 && next == d + 1,
        Instr::Swap => d >= 2 && next == d,
        Instr::Over => d >= 2 && next == d + 1,
        Instr::Rot => d >= 3 && next == d,
        Instr::PlusI | Instr::MultI | Instr::Mod | Instr::Offset | Instr::Lt | Instr::EqI
        | Instr::NEqI => d >= 2 && next == d - 1,
        Instr::Read(_) => d >= 1 && next == d,
        Instr::Write(_) => d >= 2 && next == d - 2,
        Instr::Bind(k) => d > k && next == d + 1,
        Instr::Jmp(rel) => 0 <= i + rel <= code.len() && at[i + rel] == d,
        Instr::JmpIf(rel) => d >= 1 && next == d - 1 && 0 <= i + rel <= code.len() && at[i
            + rel] == d - 1,
        Instr::Call(entry) => {
            &&& sig.contains_key(entry as int)
            &&& d >= sig[entry as int].ins.len()
            &&& next == d - sig[entry as int].ins.len() + sig[entry as int].outs.len()
        },
        Instr::Halt => false,
        Instr::Ret => false,
    }
}

/// Whether every instruction of `code` fits the depths `at`, none of which
/// is negative.
pub open spec fn consistent(code: Seq<Instr>, at: Seq<int>, sig: Map<int, FnType>) -> bool {
    &&& at.len() == code.len() + 1
    &&& forall|i: int| 0 <= i < at.len() ==> #[trigger] at[i] >= 0
    &&& forall|i: int| 0 <= i < code.len() ==> ok_at(code, at, sig, i)
}

/// An instruction that fits the depths of a piece of code fits the depths of
/// any code that holds the piece.
pub proof fn lemma_ok_inside(
    code: Seq<Instr>,
    at: Seq<int>,
    part: Seq<Instr>,
    part_at: Seq<int>,
    sig: Map<int, FnType>,
    from: int,
    j: int,
)
    requires
        0 <= from,
        from + part.len() <= code.len(),
        at.len() == code.len() + 1,
        part_at.len() == part.len() + 1,
        code.subrange(from, from + part.len()) == part,
        at.subrange(from, from + part.len() + 1) == part_at,
        0 <= j < part.len(),
        ok_at(part, part_at, sig, j),
    ensures
        ok_at(code, at, sig, from + j),
{
    let piece = code.subrange(from, from + part.len());
    let piece_at = at.subrange(from, from + part.len() + 1);
    assert(piece[j] == code[from + j]);
    assert(piece_at[j] == at[from + j]);
    assert(piece_at[j + 1] == at[from + j + 1]);
    match part[j] {
        Instr::Jmp(rel) => {
            assert(piece_at[j + rel] == at[from + j + rel]);
        },
        Instr::JmpIf(rel) => {
            assert(piece_at[j + rel] == at[from + j + rel]);
        },
        _ => {},
    }
}

/// Two pieces of code that fit their depths fit them together, where the
/// depth after the first is the depth before the second.
pub proof fn lemma_consistent_concat(
    a: Seq<Instr>,
    a_at: Seq<int>,
    b: Seq<Instr>,
    b_at: Seq<int>,
    sig: Map<int, FnType>,
)
    requires
        consistent(a, a_at, sig),
        consistent(b, b_at, sig),
        a_at.last() == b_at[0],
    ensures
        consistent(a + b, a_at.drop_last() + b_at, sig),
{
    let code = a + b;
    let at = a_at.drop_last() + b_at;
    let n = a.len() as int;
    let m = b.len() as int;
    assert(at.subrange(0, n + 1) =~= a_at);
    assert(at.subrange(n, n + m + 1) =~= b_at);
    assert(code.subrange(0, n) =~= a);
    assert(code.subrange(n, n + m) =~= b);
    assert forall|i: int| 0 <= i < code.len() implies ok_at(code, at, sig, i) by {
        if i < a.len() {
            assert(ok_at(a, a_at, sig, i));
            lemma_ok_inside(code, at, a, a_at, sig, 0, i);
        } else {
            assert(ok_at(b, b_at, sig, i - a.len()));
            lemma_ok_inside(code, at, b, b_at, sig, a.len() as int, i - a.len());
        }
    }
}

/// The depths before and after the code of `op`, where the depth before it
/// is `d`.
pub open spec fn depth_map(op: Op, names: Names, d: int) -> Seq<int> {
    depths(op, names, d).push(d + delta(op, names))
}

/// The depths before and after the code of `ops`, where the depth before it
/// is `d`.
pub open spec fn depth_map_all(ops: Seq<Op>, names: Names, d: int) -> Seq<int> {
    depths_all(ops, names, d).push(d + delta_all(ops, names))
}

/// The code of `if` fits its depths where the code of the body does.
pub proof fn lemma_if_fits(cb: Seq<Instr>, bat: Seq<int>, sig: Map<int, FnType>, d: int)
    requires
        consistent(cb, bat, sig),
        bat[0] == d - 1,
        bat.last() == d - 1,
        d >= 1,
        cb.len() + 1 <= isize::MAX,
    ensures
        consistent(seq![Instr::JmpIf((cb.len() + 1) as isize)] + cb, seq![d] + bat, sig),
{
    let n = cb.len() as int;
    let all = seq![Instr::JmpIf((n + 1) as isize)] + cb;
    let at = seq![d] + bat;
    assert(all.subrange(1, 1 + n) =~= cb);
    assert(at.subrange(1, 1 + n + 1) =~= bat);
    assert forall|i: int| 0 <= i < all.len() implies ok_at(all, at, sig, i) by {
        if i >= 1 {
            assert(ok_at(cb, bat, sig, i - 1));
            lemma_ok_inside(all, at, cb, bat, sig, 1, i - 1);
        } else {
            assert(all[0] == Instr::JmpIf((n + 1) as isize));
            assert(at[1] == bat[0]);
            assert(at[n + 1] == bat[n]);
        }
    }
}

/// The code of `if`-`else` fits its depths where the code of the bodies does.
pub proof fn lemma_if_else_fits(
    ct: Seq<Instr>,
    tat: Seq<int>,
    ce: Seq<Instr>,
    eat: Seq<int>,
    sig: Map<int, FnType>,
    d: int,
)
    requires
        consistent(ct, tat, sig),
        consistent(ce, eat, sig),
        tat[0] == d - 1,
        eat[0] == d - 1,
        tat.last() == eat.last(),
        d >= 1,
        ct.len() + 2 <= isize::MAX,
        ce.len() + 1 <= isize::MAX,
    ensures
        consistent(
            seq![Instr::JmpIf((ct.len() + 2) as isize)] + ct + seq![
                Instr::Jmp((ce.len() + 1) as isize),
            ] + ce,
            seq![d] + tat + eat,
            sig,
        ),
{
    let nt = ct.len() as int;
    let ne = ce.len() as int;
    let all = seq![Instr::JmpIf((nt + 2) as isize)] + ct + seq![Instr::Jmp((ne + 1) as isize)]
        + ce;
    let at = seq![d] + tat + eat;
    assert(all.subrange(1, 1 + nt) =~= ct);
    assert(at.subrange(1, 1 + nt + 1) =~= tat);
    assert(all.subrange(nt + 2, nt + 2 + ne) =~= ce);
    assert(at.subrange(nt + 2, nt + 2 + ne + 1) =~= eat);
    assert forall|i: int| 0 <= i < all.len() implies ok_at(all, at, sig, i) by {
        if i == 0 {
            assert(all[0] == Instr::JmpIf((nt + 2) as isize));
            assert(at[0] == d);
            assert(at[1] == tat[0]);
            assert(at[nt + 2] == eat[0]);
        } else if i <= nt {
            assert(ok_at(ct, tat, sig, i - 1));
            lemma_ok_inside(all, at, ct, tat, sig, 1, i - 1);
        } else if i == nt + 1 {
            assert(all[nt + 1] == Instr::Jmp((ne + 1) as isize));
            assert(at[nt + 1] == tat[nt]);
            assert(at[nt + ne + 2] == eat[ne]);
        } else {
            assert(ok_at(ce, eat, sig, i - nt - 2));
            lemma_ok_inside(all, at, ce, eat, sig, nt + 2, i - nt - 2);
        }
    }
}

/// The code of `while` fits its depths where the code of the condition and
/// of the body does.
pub proof fn lemma_while_fits(
    cc: Seq<Instr>,
    cat: Seq<int>,
    cb: Seq<Instr>,
    bat: Seq<int>,
    sig: Map<int, FnType>,
    d: int,
)
    requires
        consistent(cc, cat, sig),
        consistent(cb, bat, sig),
        cat[0] == d,
        cat.last() == d + 1,
        bat[0] == d,
        bat.last() == d,
        d >= 0,
        cb.len() + 2 <= isize::MAX,
        cc.len() + 1 + cb.len() <= isize::MAX,
    ensures
        consistent(
            cc + seq![Instr::JmpIf((cb.len() + 2) as isize)] + cb + seq![
                Instr::Jmp((-(cc.len() + 1 + cb.len())) as isize),
            ],
            cat + bat + seq![d],
            sig,
        ),
{
    let nc = cc.len() as int;
    let nb = cb.len() as int;
    let all = cc + seq![Instr::JmpIf((nb + 2) as isize)] + cb + seq![
        Instr::Jmp((-(nc + 1 + nb)) as isize),
    ];
    let at = cat + bat + seq![d];
    assert(all.subrange(0, nc) =~= cc);
    assert(at.subrange(0, nc + 1) =~= cat);
    assert(all.subrange(nc + 1, nc + 1 + nb) =~= cb);
    assert(at.subrange(nc + 1, nc + 1 + nb + 1) =~= bat);
    assert forall|i: int| 0 <= i < all.len() implies ok_at(all, at, sig, i) by {
        if i < nc {
            assert(ok_at(cc, cat, sig, i));
            lemma_ok_inside(all, at, cc, cat, sig, 0, i);
        } else if i == nc {
            assert(all[nc] == Instr::JmpIf((nb + 2) as isize));
            assert(at[nc] == cat[nc]);
            assert(at[nc + 1] == bat[0]);
            assert(at[nc + nb + 2] == d);
            assert(ok_at(all, at, sig, i));
        } else if i <= nc + nb {
            assert(ok_at(cb, bat, sig, i - nc - 1));
            lemma_ok_inside(all, at, cb, bat, sig, nc + 1, i - nc - 1);
        } else {
            let rel = (-(nc + 1 + nb)) as isize;
            assert(rel == -(nc + 1 + nb));
            assert(i == nc + 1 + nb);
            assert(all[i] == Instr::Jmp(rel));
            assert(at[i] == bat[nb]);
            assert(at[0] == cat[0]);
            assert(at[i + rel] == at[0]);
            assert(ok_at(all, at, sig, i));
        }
    }
}

/// The code of an accepted operation that is one instruction fits its
/// depths.
pub proof fn lemma_instruction_fits(ctx: Ctx, names: Names, sig: Map<int, FnType>, op: Op)
    requires
        plain(op),
        typed(ctx, names, sig),
        check_op(ctx, op) is Ok,
        !(op is If),
        !(op is IfElse),
        !(op is While),
    ensures
        check_op(ctx, op)->Ok_0.stack.len() == ctx.stack.len() + delta(op, names),
        code(op, names).len() == 1,
        consistent(code(op, names), depth_map(op, names, ctx.stack.len() as int), sig),
        depth_map(op, names, ctx.stack.len() as int)[0] == ctx.stack.len(),
{
    let d0 = ctx.stack.len() as int;
    match op {
        Op::Word(name) => {
            assert(ctx.fns.dom().contains(name) == names.fns.dom().contains(name));
            assert(ctx.mems.contains(name) == names.mems.dom().contains(name));
            if names.fns.contains_key(name) {
                assert(ctx.fns[name] == names.fns[name].1);
            }
        },
        _ => {},
    }
    assert(depth_map(op, names, d0) =~= seq![d0, d0 + delta(op, names)]);
}

/// The code of an accepted plain operation fits its depths, and these end
/// at the depth of the stack that the type checker computes. The compiler
/// must have accepted the operation too: its jumps then hold their offsets.
pub proof fn lemma_depths_fit(
    ctx: Ctx,
    st: CompState,
    names: Names,
    sig: Map<int, FnType>,
    op: Op,
)
    requires
        plain(op),
        typed(ctx, names, sig),
        wordless(op) || resolves(st, names),
        check_op(ctx, op) is Ok,
        emit(st, op) is Ok,
    ensures
        check_op(ctx, op)->Ok_0.stack.len() == ctx.stack.len() + delta(op, names),
        check_op(ctx, op)->Ok_0.fns == ctx.fns,
        check_op(ctx, op)->Ok_0.mems == ctx.mems,
        code(op, names).len() > 0,
        depths(op, names, ctx.stack.len() as int).len() == code(op, names).len(),
        consistent(code(op, names), depth_map(op, names, ctx.stack.len() as int), sig),
        depth_map(op, names, ctx.stack.len() as int)[0] == ctx.stack.len(),
    decreases op, 0int,
{
    let d0 = ctx.stack.len() as int;
    let at = depth_map(op, names, d0);
    let here = st.instr.len() as int;
    match op {
        Op::If(body) => {
            let inner = pop_bool(ctx.stack)->Ok_0;
            let start = emitted(st, Instr::JmpIf(0));
            lemma_emit_all_plain(start, names, body);
            lemma_depths_fit_all(with_stack(ctx, inner), start, names, sig, body);
            let bat = depth_map_all(body, names, d0 - 1);
            lemma_if_fits(code_all(body, names), bat, sig, d0);
            assert(at =~= seq![d0] + bat);
        },
        Op::IfElse(then, other) => {
            let inner = pop_bool(ctx.stack)->Ok_0;
            let start = emitted(st, Instr::Halt);
            lemma_emit_all_plain(start, names, then);
            lemma_depths_fit_all(with_stack(ctx, inner), start, names, sig, then);
            let done_then = emit_all(start, then)->Ok_0;
            let at2 = done_then.instr.len() as int;
            let ready = patched(
                emitted(done_then, Instr::Jmp(0)),
                here,
                Instr::JmpIf((at2 - here + 1) as isize),
            );
            lemma_emit_all_plain(ready, names, other);
            lemma_depths_fit_all(with_stack(ctx, inner), ready, names, sig, other);
            let tat = depth_map_all(then, names, d0 - 1);
            let eat = depth_map_all(other, names, d0 - 1);
            lemma_if_else_fits(code_all(then, names), tat, code_all(other, names), eat, sig, d0);
            assert(at =~= seq![d0] + tat + eat);
        },
        Op::While(cond, body) => {
            lemma_emit_all_plain(st, names, cond);
            lemma_depths_fit_all(ctx, st, names, sig, cond);
            let tested = check_ops(ctx, cond)->Ok_0;
            let inner = pop_bool(tested.stack)->Ok_0;
            let start = emitted(emit_all(st, cond)->Ok_0, Instr::JmpIf(0));
            lemma_emit_all_plain(start, names, body);
            lemma_depths_fit_all(with_stack(tested, inner), start, names, sig, body);
            let cat = depth_map_all(cond, names, d0);
            let bat = depth_map_all(body, names, d0);
            lemma_while_fits(code_all(cond, names), cat, code_all(body, names), bat, sig, d0);
            assert(at =~= cat + bat + seq![d0]);
        },
        _ => {
            lemma_instruction_fits(ctx, names, sig, op);
        },
    }
}

/// The code of accepted plain operations fits its depths, and these end at
/// the depth of the stack that the type checker computes.
pub proof fn lemma_depths_fit_all(
    ctx: Ctx,
    st: CompState,
    names: Names,
    sig: Map<int, FnType>,
    ops: Seq<Op>,
)
    requires
        plain_all(ops),
        typed(ctx, names, sig),
        wordless_all(ops) || resolves(st, names),
        check_ops(ctx, ops) is Ok,
        emit_all(st, ops) is Ok,
    ensures
        check_ops(ctx, ops)->Ok_0.stack.len() == ctx.stack.len() + delta_all(ops, names),
        check_ops(ctx, ops)->Ok_0.fns == ctx.fns,
        check_ops(ctx, ops)->Ok_0.mems == ctx.mems,
        depths_all(ops, names, ctx.stack.len() as int).len() == code_all(ops, names).len(),
        consistent(code_all(ops, names), depth_map_all(ops, names, ctx.stack.len() as int), sig),
        depth_map_all(ops, names, ctx.stack.len() as int)[0] == ctx.stack.len(),
    decreases ops, 1int,
{
    let d0 = ctx.stack.len() as int;
    if ops.len() > 0 {
        lemma_emit_plain(st, names, ops[0]);
        lemma_depths_fit(ctx, st, names, sig, ops[0]);
        let next = check_op(ctx, ops[0])->Ok_0;
        lemma_depths_fit_all(next, emit(st, ops[0])->Ok_0, names, sig, ops.skip(1));
        let d1 = d0 + delta(ops[0], names);
        lemma_consistent_concat(
            code(ops[0], names),
            depth_map(ops[0], names, d0),
            code_all(ops.skip(1), names),
            depth_map_all(ops.skip(1), names, d1),
            sig,
        );
        assert(depth_map(ops[0], names, d0).drop_last() + depth_map_all(ops.skip(1), names, d1)
            =~= depth_map_all(ops, names, d0));
    } else {
        assert(depth_map_all(ops, names, d0) =~= seq![d0]);
    }
}

/// How the run of a piece of code ended.
pub ghost enum Block {
    /// The instruction pointer left the code; the state is the one at that
    /// moment.
    Exit(VmState),
    /// An instruction of the code trapped.
    Trapped(Trap),
    /// The machine halted in the code.
    Halted,
    /// The steps ran out with the instruction pointer still in the code.
    Timeout,
}

/// The run of the instructions from `lo` up to `hi`, from the state `s`, for
/// at most `fuel` steps: it goes on until the instruction pointer leaves
/// that range.
pub open spec fn run_block(
    program: Seq<Instr>,
    cap: nat,
    s: VmState,
    lo: int,
    hi: int,
    fuel: nat,
) -> Block
    decreases fuel,
{
    if !(lo <= s.ip < hi) {
        Block::Exit(s)
    } else if fuel == 0 {
        Block::Timeout
    } else {
        let (next, step) = step_spec(program, cap, s);
        match step {
            Step::Continue => run_block(program, cap, next, lo, hi, (fuel - 1) as nat),
            Step::Dump => run_block(program, cap, next, lo, hi, (fuel - 1) as nat),
            Step::Trap(t) => Block::Trapped(t),
            Step::Halt => Block::Halted,
        }
    }
}

/// Whether a piece of code holds no call.
pub open spec fn calls_nothing(code: Seq<Instr>) -> bool {
    forall|i: int| 0 <= i < code.len() ==> !((#[trigger] code[i]) is Call)
}

/// The code of operations without words holds no call.
pub proof fn lemma_wordless_calls_nothing(op: Op, names: Names)
    requires
        wordless(op),
    ensures
        calls_nothing(code(op, names)),
    decreases op, 0int,
{
    match op {
        Op::If(body) => {
            lemma_wordless_all_calls_nothing(body, names);
        },
        Op::IfElse(then, other) => {
            lemma_wordless_all_calls_nothing(then, names);
            lemma_wordless_all_calls_nothing(other, names);
        },
        Op::While(cond, body) => {
            lemma_wordless_all_calls_nothing(cond, names);
            lemma_wordless_all_calls_nothing(body, names);
        },
        Op::Intrinsic(symbol) => {
            if intrinsic_of(symbol) is Some {
                let i = intrinsic_of(symbol)->Some_0;
                assert(!(opcode(i) is Call));
            }
        },
        _ => {},
    }
}

/// The code of operations without words holds no call.
pub proof fn lemma_wordless_all_calls_nothing(ops: Seq<Op>, names: Names)
    requires
        wordless_all(ops),
    ensures
        calls_nothing(code_all(ops, names)),
    decreases ops, 1int,
{
    if ops.len() > 0 {
        lemma_wordless_calls_nothing(ops[0], names);
        lemma_wordless_all_calls_nothing(ops.skip(1), names);
    }
}

/// Whether a state stands in the code at `lo` with the depth that `at` gives
/// for its instruction, on top of `base` more cells.
pub open spec fn stands(s: VmState, lo: int, at: Seq<int>, base: int) -> bool {
    &&& lo <= s.ip < lo + at.len()
    &&& s.stack.len() == base + at[s.ip - lo]
}

/// One step in code that fits its depths and calls nothing: the machine
/// does not halt, traps neither for want of operands nor on a jump, and
/// otherwise stands in the code again or at its end, with the cells below
/// the code's own untouched.
pub proof fn lemma_step_fits(
    program: Seq<Instr>,
    cap: nat,
    s: VmState,
    lo: int,
    code: Seq<Instr>,
    at: Seq<int>,
    sig: Map<int, FnType>,
    base: int,
)
    requires
        0 <= lo,
        lo + code.len() <= program.len(),
        program.subrange(lo, lo + code.len()) == code,
        consistent(code, at, sig),
        calls_nothing(code),
        base >= 0,
        stands(s, lo, at, base),
        s.ip < lo + code.len(),
    ensures
        !(step_spec(program, cap, s).1 is Halt),
        step_spec(program, cap, s).1 != Step::Trap(Trap::StackUnderflow),
        step_spec(program, cap, s).1 != Step::Trap(Trap::JumpOutOfBounds),
        !(step_spec(program, cap, s).1 is Trap) ==> {
            let next = step_spec(program, cap, s).0;
            &&& stands(next, lo, at, base)
            &&& next.rstack == s.rstack
            &&& next.stack.subrange(0, base) == s.stack.subrange(0, base)
        },
{
    let i = s.ip - lo;
    let op = program[s.ip as int];
    assert(program.subrange(lo, lo + code.len())[i] == op);
    assert(op == code[i]);
    assert(ok_at(code, at, sig, i));
    let (next, step) = step_spec(program, cap, s);
    if !(step is Trap) {
        assert(next.stack.subrange(0, base) =~= s.stack.subrange(0, base));
    }
}

/// The run of code that fits its depths and calls nothing: it does not
/// halt, traps neither for want of operands nor on a jump, and where it
/// leaves the code, it leaves it at its end, with the depth that `at` gives
/// for the end, the cells below the code's own untouched, and the return
/// stack as it was.
pub proof fn lemma_block_fits(
    program: Seq<Instr>,
    cap: nat,
    s: VmState,
    lo: int,
    code: Seq<Instr>,
    at: Seq<int>,
    sig: Map<int, FnType>,
    base: int,
    fuel: nat,
)
    requires
        0 <= lo,
        lo + code.len() <= program.len(),
        program.subrange(lo, lo + code.len()) == code,
        consistent(code, at, sig),
        calls_nothing(code),
        base >= 0,
        stands(s, lo, at, base),
    ensures
        match run_block(program, cap, s, lo, lo + code.len(), fuel) {
            Block::Exit(last) => {
                &&& last.ip == lo + code.len()
                &&& last.stack.len() == base + at.last()
                &&& last.rstack == s.rstack
                &&& last.stack.subrange(0, base) == s.stack.subrange(0, base)
            },
            Block::Trapped(t) => t != Trap::StackUnderflow && t != Trap::JumpOutOfBounds,
            Block::Halted => false,
            Block::Timeout => true,
        },
    decreases fuel,
{
    if s.ip < lo + code.len() && fuel > 0 {
        lemma_step_fits(program, cap, s, lo, code, at, sig, base);
        let (next, step) = step_spec(program, cap, s);
        if !(step is Trap) {
            lemma_block_fits(program, cap, next, lo, code, at, sig, base, (fuel - 1) as nat);
        }
    }
}

/// The code of a function body: that of its operations, which hold no word.
pub open spec fn body_code(body: Seq<Op>) -> Seq<Instr> {
    code_all(body, no_names())
}

/// The address after the code of `body`, where `s` stands at its start.
pub open spec fn body_end(s: VmState, body: Seq<Op>) -> int {
    (s.ip + body_code(body).len()) as int
}

/// The code of operations without words does not depend on what words stand
/// for.
pub proof fn lemma_wordless_code(op: Op, a: Names, b: Names)
    requires
        wordless(op),
    ensures
        code(op, a) == code(op, b),
    decreases op, 0int,
{
    match op {
        Op::If(body) => {
            lemma_wordless_all_code(body, a, b);
        },
        Op::IfElse(then, other) => {
            lemma_wordless_all_code(then, a, b);
            lemma_wordless_all_code(other, a, b);
        },
        Op::While(cond, body) => {
            lemma_wordless_all_code(cond, a, b);
            lemma_wordless_all_code(body, a, b);
        },
        _ => {},
    }
}

/// The code of operations without words does not depend on what words stand
/// for.
pub proof fn lemma_wordless_all_code(ops: Seq<Op>, a: Names, b: Names)
    requires
        wordless_all(ops),
    ensures
        code_all(ops, a) == code_all(ops, b),
    decreases ops, 1int,
{
    if ops.len() > 0 {
        lemma_wordless_code(ops[0], a, b);
        lemma_wordless_all_code(ops.skip(1), a, b);
    }
}

/// The body of an accepted function, compiled and run with its inputs on
/// top of the stack, leaves its outputs in their place.
///
/// Let a function without definitions in its body be accepted by the type
/// checker and compiled, and let `program` hold the instructions emitted up
/// to the end of the function. The entry of the function, which calls of it
/// lead to, is the address after the jump that the function starts with. A
/// run from the entry, with at least as many cells on the stack as the
/// function has inputs, that leaves the body, leaves it at its `Ret`, with
/// the inputs replaced by as many cells as the function has outputs, the
/// cells below them untouched and the return stack as it was. Until then the
/// machine does not halt, and it traps neither for want of operands nor on a
/// jump.
pub proof fn theorem_fn_body(
    ctx: Ctx,
    st: CompState,
    name: Seq<char>,
    args: Seq<Seq<char>>,
    ins: Seq<DataType>,
    outs: Seq<DataType>,
    body: Seq<Op>,
    program: Seq<Instr>,
    cap: nat,
    s: VmState,
    fuel: nat,
)
    requires
        no_defs_all(body),
        check_op(ctx, Op::Fn(name, args, ins, outs, body)) is Ok,
        emit(st, Op::Fn(name, args, ins, outs, body)) is Ok,
        emit(st, Op::Fn(name, args, ins, outs, body))->Ok_0.instr.len() <= program.len(),
        program.subrange(
            0,
            emit(st, Op::Fn(name, args, ins, outs, body))->Ok_0.instr.len() as int,
        ) == emit(st, Op::Fn(name, args, ins, outs, body))->Ok_0.instr,
        s.ip == st.instr.len() + 1,
        s.stack.len() >= ins.len(),
    ensures
        s.ip == emit(st, Op::Fn(name, args, ins, outs, body))->Ok_0.fn_def[name],
        body_end(s, body) < program.len(),
        program.subrange(s.ip as int, body_end(s, body)) == body_code(body),
        program[body_end(s, body)] == Instr::Ret,
        match run_block(program, cap, s, s.ip as int, body_end(s, body), fuel) {
            Block::Exit(last) => {
                &&& last.ip == body_end(s, body)
                &&& last.stack.len() == s.stack.len() - ins.len() + outs.len()
                &&& last.stack.subrange(0, s.stack.len() - ins.len()) == s.stack.subrange(
                    0,
                    s.stack.len() - ins.len(),
                )
                &&& last.rstack == s.rstack
            },
            Block::Trapped(t) => t != Trap::StackUnderflow && t != Trap::JumpOutOfBounds,
            Block::Halted => false,
            Block::Timeout => true,
        },
{
    let op = Op::Fn(name, args, ins, outs, body);
    let at = st.instr.len() as int;
    let entered = CompState {
        instr: st.instr.push(Instr::Jmp(0)),
        fn_def: st.fn_def.insert(name, (at + 1) as usize),
        mem_def: st.mem_def,
        mem_size: st.mem_size,
    };
    let done = emit_all(entered, body)->Ok_0;
    let compiled = emit(st, op)->Ok_0;
    let inside = body_code(body);
    let none = Map::<int, FnType>::empty();
    lemma_accepted_all_plain(fn_ctx(ins), body);
    lemma_accepted_all_wordless(fn_ctx(ins), body);
    lemma_emit_all_plain(entered, no_names(), body);
    lemma_wordless_all_calls_nothing(body, no_names());
    assert(done.instr == entered.instr + inside);
    assert(compiled.instr.len() == at + inside.len() + 2);
    assert(compiled.fn_def[name] == at + 1);
    assert(typed(fn_ctx(ins), no_names(), none)) by {
        assert(fn_ctx(ins).fns.dom() =~= no_names().fns.dom());
        assert(fn_ctx(ins).mems =~= no_names().mems.dom());
    }
    lemma_depths_fit_all(fn_ctx(ins), entered, no_names(), none, body);
    let map = depth_map_all(body, no_names(), ins.len() as int);
    assert(map.last() == outs.len());
    let lo = at + 1;
    assert(program.subrange(lo, lo + inside.len()) =~= inside) by {
        assert forall|i: int| 0 <= i < inside.len() implies program.subrange(
            lo,
            lo + inside.len(),
        )[i] == inside[i] by {
            assert(program.subrange(0, compiled.instr.len() as int)[lo + i] == compiled.instr[lo
                + i]);
        }
    }
    assert(program[lo + inside.len()] == Instr::Ret) by {
        assert(program.subrange(0, compiled.instr.len() as int)[lo + inside.len()]
            == compiled.instr[lo + inside.len()]);
    }
    lemma_block_fits(program, cap, s, lo, inside, map, none, s.stack.len() - ins.len(), fuel);
}

/// Compiling a program is compiling its first `k` operations and then the
/// rest.
pub proof fn lemma_emit_all_split(st: CompState, ops: Seq<Op>, k: int)
    requires
        0 <= k <= ops.len(),
        emit_all(st, ops) is Ok,
    ensures
        emit_all(st, ops.take(k)) is Ok,
        emit_all(emit_all(st, ops.take(k))->Ok_0, ops.skip(k)) == emit_all(st, ops),
    decreases k,
{
    if k > 0 {
        let next = emit(st, ops[0])->Ok_0;
        lemma_emit_all_split(next, ops.skip(1), k - 1);
        assert(ops.take(k)[0] == ops[0]);
        assert(ops.take(k).skip(1) =~= ops.skip(1).take(k - 1));
        assert(ops.skip(1).skip(k - 1) =~= ops.skip(k));
    } else {
        assert(ops.take(0) =~= Seq::<Op>::empty());
        assert(ops.skip(0) =~= ops);
    }
}

/// Checking a program is checking its first `k` operations and then the
/// rest.
pub proof fn lemma_check_ops_split(ctx: Ctx, ops: Seq<Op>, k: int)
    requires
        0 <= k <= ops.len(),
        check_ops(ctx, ops) is Ok,
    ensures
        check_ops(ctx, ops.take(k)) is Ok,
        check_ops(check_ops(ctx, ops.take(k))->Ok_0, ops.skip(k)) == check_ops(ctx, ops),
    decreases k,
{
    if k > 0 {
        let next = check_op(ctx, ops[0])->Ok_0;
        lemma_check_ops_split(next, ops.skip(1), k - 1);
        assert(ops.take(k)[0] == ops[0]);
        assert(ops.take(k).skip(1) =~= ops.skip(1).take(k - 1));
        assert(ops.skip(1).skip(k - 1) =~= ops.skip(k));
    } else {
        assert(ops.take(0) =~= Seq::<Op>::empty());
        assert(ops.skip(0) =~= ops);
    }
}

/// The entry address of the function that is operation `k` of a program.
pub open spec fn fn_entry(ops: Seq<Op>, k: int) -> int {
    (emit_all(empty_state(), ops.take(k))->Ok_0.instr.len() + 1) as int
}

/// In a program that is accepted and compiled, the body of every function
/// turns its inputs into its outputs.
///
/// Let operation `k` of the program be a function without definitions in
/// its body. A run of the compiled program from the entry of that function,
/// with at least as many cells on the stack as the function has inputs,
/// that leaves the body, leaves it at its `Ret`, with the inputs replaced by
/// as many cells as the function has outputs, the cells below them
/// untouched and the return stack as it was. Until then the machine does not
/// halt, and it traps neither for want of operands nor on a jump.
pub proof fn theorem_compiled_fn(
    ops: Seq<Op>,
    k: int,
    name: Seq<char>,
    args: Seq<Seq<char>>,
    ins: Seq<DataType>,
    outs: Seq<DataType>,
    body: Seq<Op>,
    cap: nat,
    s: VmState,
    fuel: nat,
)
    requires
        0 <= k < ops.len(),
        ops[k] == Op::Fn(name, args, ins, outs, body),
        no_defs_all(body),
        check_ops(empty_ctx(), ops) is Ok,
        compile_spec(ops) is Ok,
        s.ip == fn_entry(ops, k),
        s.stack.len() >= ins.len(),
    ensures
        body_end(s, body) < compile_spec(ops)->Ok_0.0.len(),
        compile_spec(ops)->Ok_0.0.subrange(s.ip as int, body_end(s, body)) == body_code(body),
        compile_spec(ops)->Ok_0.0[body_end(s, body)] == Instr::Ret,
        match run_block(compile_spec(ops)->Ok_0.0, cap, s, s.ip as int, body_end(s, body), fuel) {
            Block::Exit(last) => {
                &&& last.ip == body_end(s, body)
                &&& last.stack.len() == s.stack.len() - ins.len() + outs.len()
                &&& last.stack.subrange(0, s.stack.len() - ins.len()) == s.stack.subrange(
                    0,
                    s.stack.len() - ins.len(),
                )
                &&& last.rstack == s.rstack
            },
            Block::Trapped(t) => t != Trap::StackUnderflow && t != Trap::JumpOutOfBounds,
            Block::Halted => false,
            Block::Timeout => true,
        },
{
    let program = compile_spec(ops)->Ok_0.0;
    lemma_emit_all_split(empty_state(), ops, k);
    lemma_check_ops_split(empty_ctx(), ops, k);
    let st = emit_all(empty_state(), ops.take(k))->Ok_0;
    let ctx = check_ops(empty_ctx(), ops.take(k))->Ok_0;
    let rest = ops.skip(k);
    assert(rest[0] == ops[k]);
    assert(emit(st, ops[k]) is Ok);
    assert(check_op(ctx, ops[k]) is Ok);
    let compiled = emit(st, ops[k])->Ok_0;
    lemma_emit_all_keeps(compiled, rest.skip(1));
    assert(emit_all(compiled, rest.skip(1))->Ok_0.instr == program);
    theorem_fn_body(ctx, st, name, args, ins, outs, body, program, cap, s, fuel);
}

/// In a source text that is parsed, accepted and compiled, the body of
/// every function turns its inputs into its outputs: `theorem_compiled_fn`
/// holds of every function of the program, since the parser puts no
/// definition into a body.
pub proof fn theorem_source_fn(
    input: Seq<u8>,
    k: int,
    name: Seq<char>,
    args: Seq<Seq<char>>,
    ins: Seq<DataType>,
    outs: Seq<DataType>,
    body: Seq<Op>,
    cap: nat,
    s: VmState,
    fuel: nat,
)
    requires
        parse_spec(input) is Ok,
        0 <= k < parse_spec(input)->Ok_0.len(),
        parse_spec(input)->Ok_0[k] == Op::Fn(name, args, ins, outs, body),
        check_ops(empty_ctx(), parse_spec(input)->Ok_0) is Ok,
        compile_spec(parse_spec(input)->Ok_0) is Ok,
        s.ip == fn_entry(parse_spec(input)->Ok_0, k),
        s.stack.len() >= ins.len(),
    ensures
        match run_block(
            compile_spec(parse_spec(input)->Ok_0)->Ok_0.0,
            cap,
            s,
            s.ip as int,
            body_end(s, body),
            fuel,
        ) {
            Block::Exit(last) => {
                &&& last.ip == body_end(s, body)
                &&& last.stack.len() == s.stack.len() - ins.len() + outs.len()
                &&& last.stack.subrange(0, s.stack.len() - ins.len()) == s.stack.subrange(
                    0,
                    s.stack.len() - ins.len(),
                )
                &&& last.rstack == s.rstack
            },
            Block::Trapped(t) => t != Trap::StackUnderflow && t != Trap::JumpOutOfBounds,
            Block::Halted => false,
            Block::Timeout => true,
        },
{
    let ops = parse_spec(input)->Ok_0;
    lemma_parse_well_formed(input);
    assert(top_level(ops[k]));
    theorem_compiled_fn(ops, k, name, args, ins, outs, body, cap, s, fuel);
}

/// A compiled program never traps on a jump or a call: all its targets lie
/// in the program.
pub proof fn lemma_compiled_jumps_stay(ops: Seq<Op>, cap: nat, s: VmState)
    requires
        compile_spec(ops) is Ok,
    ensures
        step_spec(compile_spec(ops)->Ok_0.0, cap, s).1 != Step::Trap(Trap::JumpOutOfBounds),
{
    let program = compile_spec(ops)->Ok_0.0;
    lemma_compiled_is_linked(ops);
    if s.ip < program.len() {
        let op = program[s.ip as int];
    }
}

} // verus!
