//! What type checking promises of a whole program: run on the machine, an
//! accepted program never pops from an empty stack and never jumps out of
//! the program.

use vstd::prelude::*;
use crate::ast::{Op, top_level, well_formed};
use crate::compiler::{CompState, compile_spec, emit, emit_all, empty_state};
use crate::instructions::{Bytecode, Instr};
use crate::parser::{lemma_parse_well_formed, parse_spec};
use crate::soundness::{
    Names, body_code, calls_nothing, code, consistent, depth_map, depth_map_all,
    lemma_accepted_all_plain, lemma_accepted_all_wordless, lemma_accepted_is_plain,
    lemma_depths_fit, lemma_depths_fit_all, lemma_emit_all_plain, lemma_emit_plain,
    lemma_wordless_all_calls_nothing, no_names, ok_at, resolves, typed,
};
use crate::type_check::{Ctx, FnType, check_op, check_ops, empty_ctx, fn_ctx};
use crate::vm::{
    Outcome, STACK_CELLS, Step, Trap, VmState, initial_state, run_of, run_spec, step_spec,
};

verus! {

/// What is known of every instruction of a program before it runs.
pub ghost struct Plan {
    /// The depth of the stack before each instruction, counted from the
    /// bottom of the stack for the instructions at the top level and from
    /// the first input for the instructions of a function; the last entry
    /// is the depth at the end of the program.
    pub at: Seq<int>,
    /// The entry address of the function that each instruction belongs to,
    /// and -1 for the instructions at the top level and for the end of the
    /// program.
    pub owner: Seq<int>,
    /// The stack effect of the function at each entry address.
    pub sig: Map<int, FnType>,
}

/// Whether the instruction at `pc` fits the plan: the stack is deep enough
/// for its operands, and every instruction that may run next belongs to the
/// same function, at the depth that this instruction leaves. A call stands
/// at the top level and finds the inputs of its function; a return stands
/// in a function, at the depth of the outputs; nothing halts.
pub open spec fn fits_plan(program: Seq<Instr>, plan: Plan, pc: int) -> bool {
    let d = plan.at[pc];
    let next = plan.at[pc + 1];
    let own = plan.owner[pc];
    let stays = plan.owner[pc + 1] == own;
    match program[pc] {
        Instr::PushI32(_) => next == d + 1 && stays,
        Instr::PushPtr(_) => next == d + 1 && stays,
        Instr::Debug => next == d && stays,
        Instr::Drop => d >= 1 && next == d - 1 && stays,
        Instr::Dup => d >= 1 && next == d + 1 && stays,
        Instr::Swap => d >= 2 && next == d && stays,
        Instr::Over => d >= 2 && next == d + 1 && stays,
        Instr::Rot => d >= 3 && next == d && stays,
        Instr::PlusI | Instr::MultI | Instr::Mod | Instr::Offset | Instr::Lt | Instr::EqI
        | Instr::NEqI => d >= 2 && next == d - 1 && stays,
        Instr::Read(_) => d >= 1 && next == d && stays,
        Instr::Write(_) => d >= 2 && next == d - 2 && stays,
        Instr::Bind(k) => d > k && next == d + 1 && stays,
        Instr::Jmp(rel) => {
            &&& 0 <= pc + rel <= program.len()
            &&& plan.at[pc + rel] == d
            &&& plan.owner[pc + rel] == own
        },
        Instr::JmpIf(rel) => {
            &&& d >= 1
            &&& next == d - 1
            &&& stays
            &&& 0 <= pc + rel <= program.len()
            &&& plan.at[pc + rel] == d - 1
            &&& plan.owner[pc + rel] == own
        },
        Instr::Call(entry) => {
            &&& own == -1
            &&& plan.sig.contains_key(entry as int)
            &&& d >= plan.sig[entry as int].ins.len()
            &&& next == d - plan.sig[entry as int].ins.len() + plan.sig[entry as int].outs.len()
            &&& stays
        },
        Instr::Ret => {
            &&& own != -1
            &&& plan.sig.contains_key(own)
            &&& d == plan.sig[own].outs.len()
        },
        Instr::Halt => false,
    }
}

/// Whether a program follows a plan: every instruction fits it, no depth is
/// negative, the program ends at the top level, and every entry address
/// that the plan knows is an instruction of its own function, at the depth
/// of the inputs.
pub open spec fn planned(program: Seq<Instr>, plan: Plan) -> bool {
    &&& plan.at.len() == program.len() + 1
    &&& plan.owner.len() == program.len() + 1
    &&& plan.owner.last() == -1
    &&& forall|i: int| 0 <= i < plan.at.len() ==> #[trigger] plan.at[i] >= 0
    &&& forall|pc: int| 0 <= pc < program.len() ==> fits_plan(program, plan, pc)
    &&& forall|entry: int| #[trigger]
        plan.sig.contains_key(entry) ==> {
            &&& 0 <= entry < program.len()
            &&& plan.owner[entry] == entry
            &&& plan.at[entry] == plan.sig[entry].ins.len()
        }
}

/// The owners of `n` instructions of one owner.
pub open spec fn owned(n: nat, owner: int) -> Seq<int> {
    Seq::new(n, |i: int| owner)
}

/// The plan of a program with code at the top level after it.
pub open spec fn plan_with_code(plan: Plan, code_at: Seq<int>) -> Plan {
    Plan {
        at: plan.at.drop_last() + code_at,
        owner: plan.owner + owned((code_at.len() - 1) as nat, -1),
        sig: plan.sig,
    }
}

/// A planned program with code after it that fits its depths follows the
/// plan with that code, where the code starts at the depth at which the
/// program ends.
pub proof fn lemma_plan_code(program: Seq<Instr>, plan: Plan, code: Seq<Instr>, code_at: Seq<int>)
    requires
        planned(program, plan),
        consistent(code, code_at, plan.sig),
        code_at[0] == plan.at.last(),
    ensures
        planned(program + code, plan_with_code(plan, code_at)),
        plan_with_code(plan, code_at).at.last() == code_at.last(),
        plan_with_code(plan, code_at).at[0] == plan.at[0],
        plan_with_code(plan, code_at).owner[0] == plan.owner[0],
{
    let all = program + code;
    let next = plan_with_code(plan, code_at);
    let n = program.len() as int;
    let m = code.len() as int;
    assert(next.at.len() == n + m + 1);
    assert(next.owner.len() == n + m + 1);
    assert forall|pc: int| 0 <= pc < all.len() implies fits_plan(all, next, pc) by {
        if pc < n {
            assert(fits_plan(program, plan, pc));
            assert(all[pc] == program[pc]);
            assert(next.at[pc] == plan.at[pc]);
            assert(next.owner[pc] == plan.owner[pc]);
            assert(next.owner[pc + 1] == if pc + 1 <= n {
                plan.owner[pc + 1]
            } else {
                -1
            });
            assert(next.at[pc + 1] == plan.at[pc + 1]);
            match program[pc] {
                Instr::Jmp(rel) => {
                    assert(next.at[pc + rel] == plan.at[pc + rel]);
                    assert(next.owner[pc + rel] == plan.owner[pc + rel]);
                },
                Instr::JmpIf(rel) => {
                    assert(next.at[pc + rel] == plan.at[pc + rel]);
                    assert(next.owner[pc + rel] == plan.owner[pc + rel]);
                },
                _ => {},
            }
        } else {
            let j = pc - n;
            assert(ok_at(code, code_at, plan.sig, j));
            assert(all[pc] == code[j]);
            assert(next.at[pc] == code_at[j]);
            assert(next.at[pc + 1] == code_at[j + 1]);
            assert(next.owner[pc] == -1);
            assert(next.owner[pc + 1] == -1);
            match code[j] {
                Instr::Jmp(rel) => {
                    assert(next.at[pc + rel] == code_at[j + rel]);
                    assert(next.owner[pc + rel] == -1);
                },
                Instr::JmpIf(rel) => {
                    assert(next.at[pc + rel] == code_at[j + rel]);
                    assert(next.owner[pc + rel] == -1);
                },
                _ => {},
            }
        }
    }
    assert forall|entry: int| #[trigger] next.sig.contains_key(entry) implies {
        &&& 0 <= entry < all.len()
        &&& next.owner[entry] == entry
        &&& next.at[entry] == next.sig[entry].ins.len()
    } by {
        assert(plan.sig.contains_key(entry));
        assert(next.owner[entry] == plan.owner[entry]);
        assert(next.at[entry] == plan.at[entry]);
    }
    assert forall|i: int| 0 <= i < next.at.len() implies #[trigger] next.at[i] >= 0 by {
        if i < n {
            assert(next.at[i] == plan.at[i]);
        } else {
            assert(next.at[i] == code_at[i - n]);
        }
    }
}

/// The plan of a program with a function after it: the jump over the
/// function, at the top level; the body and the return, which belong to the
/// function; and the end, at the top level again.
pub open spec fn plan_with_fn(plan: Plan, body_at: Seq<int>, sign: FnType) -> Plan {
    let entry = plan.at.len() as int;
    let d = plan.at.last();
    Plan {
        at: plan.at + body_at + seq![d],
        owner: plan.owner + owned(body_at.len(), entry) + seq![-1int],
        sig: plan.sig.insert(entry, sign),
    }
}

/// A planned program with a function after it follows the plan with that
/// function, where the body fits its depths, from the depth of the inputs
/// to the depth of the outputs, and calls nothing.
pub proof fn lemma_plan_fn(
    program: Seq<Instr>,
    plan: Plan,
    body: Seq<Instr>,
    body_at: Seq<int>,
    sig: Map<int, FnType>,
    sign: FnType,
)
    requires
        planned(program, plan),
        consistent(body, body_at, sig),
        calls_nothing(body),
        body_at[0] == sign.ins.len(),
        body_at.last() == sign.outs.len(),
        body.len() + 2 <= isize::MAX,
    ensures
        planned(
            program + seq![Instr::Jmp((body.len() + 2) as isize)] + body + seq![Instr::Ret],
            plan_with_fn(plan, body_at, sign),
        ),
        plan_with_fn(plan, body_at, sign).at.last() == plan.at.last(),
        plan_with_fn(plan, body_at, sign).at[0] == plan.at[0],
        plan_with_fn(plan, body_at, sign).owner[0] == plan.owner[0],
{
    let n = program.len() as int;
    let m = body.len() as int;
    let entry = n + 1;
    let d = plan.at.last();
    let all = program + seq![Instr::Jmp((m + 2) as isize)] + body + seq![Instr::Ret];
    let next = plan_with_fn(plan, body_at, sign);
    assert(next.at.len() == n + m + 3);
    assert(next.owner.len() == n + m + 3);
    assert(all.len() == n + m + 2);
    assert forall|pc: int| 0 <= pc < all.len() implies fits_plan(all, next, pc) by {
        if pc < n {
            assert(fits_plan(program, plan, pc));
            assert(all[pc] == program[pc]);
            assert(next.at[pc] == plan.at[pc]);
            assert(next.owner[pc] == plan.owner[pc]);
            assert(next.owner[pc + 1] == plan.owner[pc + 1]);
            assert(next.at[pc + 1] == plan.at[pc + 1]);
            match program[pc] {
                Instr::Jmp(rel) => {
                    assert(next.at[pc + rel] == plan.at[pc + rel]);
                    assert(next.owner[pc + rel] == plan.owner[pc + rel]);
                },
                Instr::JmpIf(rel) => {
                    assert(next.at[pc + rel] == plan.at[pc + rel]);
                    assert(next.owner[pc + rel] == plan.owner[pc + rel]);
                },
                Instr::Call(e) => {
                    assert(plan.sig.contains_key(e as int));
                },
                Instr::Ret => {
                    assert(plan.sig.contains_key(plan.owner[pc]));
                },
                _ => {},
            }
        } else if pc == n {
            assert(all[pc] == Instr::Jmp((m + 2) as isize));
            assert(next.at[n] == d);
            assert(next.at[n + m + 2] == d);
            assert(next.owner[n] == -1);
            assert(next.owner[n + m + 2] == -1);
        } else if pc <= n + m {
            let j = pc - entry;
            assert(ok_at(body, body_at, sig, j));
            assert(all[pc] == body[j]);
            assert(!(body[j] is Call));
            assert(next.at[pc] == body_at[j]);
            assert(next.at[pc + 1] == body_at[j + 1]);
            assert(next.owner[pc] == entry);
            assert(next.owner[pc + 1] == entry);
            match body[j] {
                Instr::Jmp(rel) => {
                    assert(next.at[pc + rel] == body_at[j + rel]);
                    assert(next.owner[pc + rel] == entry);
                },
                Instr::JmpIf(rel) => {
                    assert(next.at[pc + rel] == body_at[j + rel]);
                    assert(next.owner[pc + rel] == entry);
                },
                _ => {},
            }
        } else {
            assert(all[pc] == Instr::Ret);
            assert(next.owner[pc] == entry);
            assert(next.at[pc] == body_at[m]);
        }
    }
    assert forall|e: int| #[trigger] next.sig.contains_key(e) implies {
        &&& 0 <= e < all.len()
        &&& next.owner[e] == e
        &&& next.at[e] == next.sig[e].ins.len()
    } by {
        if e == entry {
            assert(next.owner[entry] == entry);
            assert(next.at[entry] == body_at[0]);
        } else {
            assert(plan.sig.contains_key(e));
            assert(next.owner[e] == plan.owner[e]);
            assert(next.at[e] == plan.at[e]);
        }
    }
    assert forall|i: int| 0 <= i < next.at.len() implies #[trigger] next.at[i] >= 0 by {
        if i <= n {
            assert(next.at[i] == plan.at[i]);
        } else if i <= n + m + 1 {
            assert(next.at[i] == body_at[i - n - 1]);
        } else {
            assert(next.at[i] == plan.at[n]);
        }
    }
}

/// What words stand for after an operation at the top level.
pub open spec fn names_after(names: Names, st: CompState, op: Op) -> Names {
    match op {
        Op::Fn(name, _, ins, outs, _) => Names {
            fns: names.fns.insert(
                name,
                ((st.instr.len() + 1) as usize, FnType { ins: ins, outs: outs }),
            ),
            mems: names.mems,
        },
        Op::Alloc(name, _) => Names { fns: names.fns, mems: names.mems.insert(name, st.mem_size) },
        _ => names,
    }
}

/// The plan of a program after an operation at the top level.
pub open spec fn plan_after(plan: Plan, names: Names, ctx: Ctx, op: Op) -> Plan {
    match op {
        Op::Fn(_, _, ins, outs, body) => plan_with_fn(
            plan,
            depth_map_all(body, no_names(), ins.len() as int),
            FnType { ins: ins, outs: outs },
        ),
        Op::Alloc(_, _) => plan,
        _ => plan_with_code(plan, depth_map(op, names, ctx.stack.len() as int)),
    }
}

/// Whether the type checker, the compiler and the plan are in step: the
/// instructions emitted follow the plan, both take words for what `names`
/// says, and the program ends at the depth of the stack of the type checker.
pub open spec fn in_step(ctx: Ctx, st: CompState, names: Names, plan: Plan) -> bool {
    &&& planned(st.instr, plan)
    &&& typed(ctx, names, plan.sig)
    &&& resolves(st, names)
    &&& plan.at.last() == ctx.stack.len()
}

/// An operation at the top level that the type checker and the compiler
/// accept keeps them in step.
pub proof fn lemma_top_op(ctx: Ctx, st: CompState, names: Names, plan: Plan, op: Op)
    requires
        in_step(ctx, st, names, plan),
        top_level(op),
        check_op(ctx, op) is Ok,
        emit(st, op) is Ok,
    ensures
        in_step(
            check_op(ctx, op)->Ok_0,
            emit(st, op)->Ok_0,
            names_after(names, st, op),
            plan_after(plan, names, ctx, op),
        ),
        plan_after(plan, names, ctx, op).at[0] == plan.at[0],
        plan_after(plan, names, ctx, op).owner[0] == plan.owner[0],
{
    let ctx2 = check_op(ctx, op)->Ok_0;
    let st2 = emit(st, op)->Ok_0;
    let names2 = names_after(names, st, op);
    let plan2 = plan_after(plan, names, ctx, op);
    match op {
        Op::Fn(name, _, ins, outs, body) => {
            lemma_top_fn(ctx, st, names, plan, op);
        },
        Op::Alloc(name, size) => {
            assert(ctx2.mems =~= names2.mems.dom());
            assert(st2.mem_def =~= names2.mems);
            assert(typed(ctx2, names2, plan2.sig)) by {
                assert forall|other: Seq<char>| #[trigger]
                    names2.fns.contains_key(other) implies {
                    &&& ctx2.fns[other] == names2.fns[other].1
                    &&& plan2.sig.contains_key(names2.fns[other].0 as int)
                    &&& plan2.sig[names2.fns[other].0 as int] == names2.fns[other].1
                } by {
                    assert(names.fns.contains_key(other));
                }
            }
            assert(resolves(st2, names2)) by {
                assert forall|other: Seq<char>| #[trigger]
                    names2.fns.contains_key(other) implies st2.fn_def[other]
                    == names2.fns[other].0 by {
                    assert(names.fns.contains_key(other));
                }
            }
        },
        _ => {
            lemma_accepted_is_plain(ctx, op);
            lemma_emit_plain(st, names, op);
            lemma_depths_fit(ctx, st, names, plan.sig, op);
            let d = ctx.stack.len() as int;
            lemma_plan_code(st.instr, plan, code(op, names), depth_map(op, names, d));
            assert(typed(ctx2, names2, plan2.sig)) by {
                assert forall|other: Seq<char>| #[trigger]
                    names2.fns.contains_key(other) implies {
                    &&& ctx2.fns[other] == names2.fns[other].1
                    &&& plan2.sig.contains_key(names2.fns[other].0 as int)
                    &&& plan2.sig[names2.fns[other].0 as int] == names2.fns[other].1
                } by {
                    assert(names.fns.contains_key(other));
                }
            }
            assert(resolves(st2, names2)) by {
                assert forall|other: Seq<char>| #[trigger]
                    names2.fns.contains_key(other) implies st2.fn_def[other]
                    == names2.fns[other].0 by {
                    assert(names.fns.contains_key(other));
                }
            }
        },
    }
}

/// A function at the top level that the type checker and the compiler
/// accept keeps them in step.
pub proof fn lemma_top_fn(ctx: Ctx, st: CompState, names: Names, plan: Plan, op: Op)
    requires
        in_step(ctx, st, names, plan),
        op is Fn,
        top_level(op),
        check_op(ctx, op) is Ok,
        emit(st, op) is Ok,
    ensures
        in_step(
            check_op(ctx, op)->Ok_0,
            emit(st, op)->Ok_0,
            names_after(names, st, op),
            plan_after(plan, names, ctx, op),
        ),
        plan_after(plan, names, ctx, op).at[0] == plan.at[0],
        plan_after(plan, names, ctx, op).owner[0] == plan.owner[0],
{
    let ctx2 = check_op(ctx, op)->Ok_0;
    let st2 = emit(st, op)->Ok_0;
    let names2 = names_after(names, st, op);
    let plan2 = plan_after(plan, names, ctx, op);
    let name = op->Fn_0;
    let ins = op->Fn_2;
    let outs = op->Fn_3;
    let body = op->Fn_4;
    let at = st.instr.len() as int;
    let entry = at + 1;
    let sign = FnType { ins: ins, outs: outs };
    let entered = CompState {
        instr: st.instr.push(Instr::Jmp(0)),
        fn_def: st.fn_def.insert(name, (at + 1) as usize),
        mem_def: st.mem_def,
        mem_size: st.mem_size,
    };
    let inside = body_code(body);
    let none = Map::<int, FnType>::empty();
    lemma_accepted_all_plain(fn_ctx(ins), body);
    lemma_accepted_all_wordless(fn_ctx(ins), body);
    lemma_emit_all_plain(entered, no_names(), body);
    lemma_wordless_all_calls_nothing(body, no_names());
    assert(typed(fn_ctx(ins), no_names(), none)) by {
        assert(fn_ctx(ins).fns.dom() =~= no_names().fns.dom());
        assert(fn_ctx(ins).mems =~= no_names().mems.dom());
    }
    lemma_depths_fit_all(fn_ctx(ins), entered, no_names(), none, body);
    let map = depth_map_all(body, no_names(), ins.len() as int);
    lemma_plan_fn(st.instr, plan, inside, map, none, sign);
    assert(st2.instr =~= st.instr + seq![Instr::Jmp((inside.len() + 2) as isize)] + inside
        + seq![Instr::Ret]);
    assert(plan.at.len() == entry);
    assert(st2.fn_def == st.fn_def.insert(name, entry as usize));
    assert(typed(ctx2, names2, plan2.sig)) by {
        assert(ctx2.fns.dom() =~= names2.fns.dom());
        assert forall|other: Seq<char>| #[trigger] names2.fns.contains_key(other) implies {
            &&& ctx2.fns[other] == names2.fns[other].1
            &&& plan2.sig.contains_key(names2.fns[other].0 as int)
            &&& plan2.sig[names2.fns[other].0 as int] == names2.fns[other].1
        } by {
            if other != name {
                assert(names.fns.contains_key(other));
                assert(plan.sig.contains_key(names.fns[other].0 as int));
            }
        }
    }
    assert(resolves(st2, names2)) by {
        assert(st2.fn_def.dom() =~= names2.fns.dom());
        assert forall|other: Seq<char>| #[trigger] names2.fns.contains_key(other) implies st2.fn_def[other]
            == names2.fns[other].0 by {
            if other != name {
                assert(names.fns.contains_key(other));
            }
        }
    }
}

/// What words stand for after the operations of `ops` at the top level.
pub open spec fn names_after_all(names: Names, st: CompState, ops: Seq<Op>) -> Names
    decreases ops.len(),
{
    if ops.len() == 0 {
        names
    } else {
        names_after_all(names_after(names, st, ops[0]), emit(st, ops[0])->Ok_0, ops.skip(1))
    }
}

/// The plan of a program after the operations of `ops` at the top level.
pub open spec fn plan_after_all(
    plan: Plan,
    names: Names,
    ctx: Ctx,
    st: CompState,
    ops: Seq<Op>,
) -> Plan
    decreases ops.len(),
{
    if ops.len() == 0 {
        plan
    } else {
        plan_after_all(
            plan_after(plan, names, ctx, ops[0]),
            names_after(names, st, ops[0]),
            check_op(ctx, ops[0])->Ok_0,
            emit(st, ops[0])->Ok_0,
            ops.skip(1),
        )
    }
}

/// The operations of a well-formed program that the type checker and the
/// compiler accept keep them in step.
pub proof fn lemma_top_all(ctx: Ctx, st: CompState, names: Names, plan: Plan, ops: Seq<Op>)
    requires
        in_step(ctx, st, names, plan),
        well_formed(ops),
        check_ops(ctx, ops) is Ok,
        emit_all(st, ops) is Ok,
    ensures
        in_step(
            check_ops(ctx, ops)->Ok_0,
            emit_all(st, ops)->Ok_0,
            names_after_all(names, st, ops),
            plan_after_all(plan, names, ctx, st, ops),
        ),
        plan_after_all(plan, names, ctx, st, ops).at[0] == plan.at[0],
        plan_after_all(plan, names, ctx, st, ops).owner[0] == plan.owner[0],
    decreases ops.len(),
{
    if ops.len() > 0 {
        assert(top_level(ops[0]));
        lemma_top_op(ctx, st, names, plan, ops[0]);
        assert forall|i: int| 0 <= i < ops.skip(1).len() implies top_level(
            #[trigger] ops.skip(1)[i],
        ) by {
            assert(ops.skip(1)[i] == ops[i + 1]);
        }
        lemma_top_all(
            check_op(ctx, ops[0])->Ok_0,
            emit(st, ops[0])->Ok_0,
            names_after(names, st, ops[0]),
            plan_after(plan, names, ctx, ops[0]),
            ops.skip(1),
        );
    }
}

/// The plan of the empty program.
pub open spec fn empty_plan() -> Plan {
    Plan { at: seq![0int], owner: seq![-1int], sig: Map::empty() }
}

/// The plan of a compiled program.
pub open spec fn plan_of(ops: Seq<Op>) -> Plan {
    plan_after_all(empty_plan(), no_names(), empty_ctx(), empty_state(), ops)
}

/// A well-formed program that is accepted and compiled follows its plan.
pub proof fn lemma_compiled_is_planned(ops: Seq<Op>)
    requires
        well_formed(ops),
        check_ops(empty_ctx(), ops) is Ok,
        compile_spec(ops) is Ok,
    ensures
        planned(compile_spec(ops)->Ok_0.0, plan_of(ops)),
        plan_of(ops).at[0] == 0,
        plan_of(ops).owner[0] == -1,
{
    let plan = empty_plan();
    assert(in_step(empty_ctx(), empty_state(), no_names(), plan)) by {
        assert(empty_ctx().fns.dom() =~= no_names().fns.dom());
        assert(empty_ctx().mems =~= no_names().mems.dom());
        assert(empty_state().fn_def.dom() =~= no_names().fns.dom());
        assert(empty_state().mem_def =~= no_names().mems);
    }
    lemma_top_all(empty_ctx(), empty_state(), no_names(), plan, ops);
}

/// Whether a state is one that the plan foresees. At the top level the
/// return stack is empty and the stack has the depth of the plan. In a
/// function the return stack holds the address after the call, which stands
/// at the top level, and the stack has the depth of the plan on top of the
/// cells that were below the inputs at the call.
pub open spec fn on_plan(program: Seq<Instr>, plan: Plan, s: VmState) -> bool {
    let own = plan.owner[s.ip as int];
    &&& s.ip <= program.len()
    &&& if s.rstack.len() == 0 {
        own == -1 && s.stack.len() == plan.at[s.ip as int]
    } else {
        let ret = s.rstack[0] as int;
        &&& s.rstack.len() == 1
        &&& own != -1
        &&& 0 < ret <= program.len()
        &&& program[ret - 1] is Call
        &&& program[ret - 1]->Call_0 == own
        &&& plan.owner[ret - 1] == -1
        &&& s.stack.len() == plan.at[ret - 1] - plan.sig[own].ins.len() + plan.at[s.ip as int]
    }
}

/// A step of a planned program from a state on the plan traps neither for
/// want of operands nor on a jump, and leads to a state on the plan.
pub proof fn lemma_step_on_plan(program: Seq<Instr>, plan: Plan, cap: nat, s: VmState)
    requires
        planned(program, plan),
        program.len() <= usize::MAX,
        on_plan(program, plan, s),
    ensures
        step_spec(program, cap, s).1 != Step::Trap(Trap::StackUnderflow),
        step_spec(program, cap, s).1 != Step::Trap(Trap::JumpOutOfBounds),
        on_plan(program, plan, step_spec(program, cap, s).0),
{
    let (next, step) = step_spec(program, cap, s);
    if s.ip < program.len() {
        let pc = s.ip as int;
        let own = plan.owner[pc];
        assert(fits_plan(program, plan, pc));
        assert(plan.at[pc] >= 0);
        if s.rstack.len() == 0 {
            match program[pc] {
                Instr::Call(entry) => {
                    assert(plan.sig.contains_key(entry as int));
                    if !(step is Trap) {
                        assert(next.rstack =~= seq![(pc + 1) as usize]);
                        assert(next.rstack[0] == pc + 1);
                        assert(next.ip == entry);
                        assert(plan.owner[entry as int] == entry);
                    }
                },
                _ => {},
            }
        } else {
            let ret = s.rstack[0] as int;
            assert(fits_plan(program, plan, ret - 1));
            assert(plan.sig.contains_key(own));
            let base = plan.at[ret - 1] - plan.sig[own].ins.len();
            assert(base >= 0);
            match program[pc] {
                Instr::Ret => {
                    assert(s.rstack.last() == s.rstack[0]);
                    assert(next.rstack =~= Seq::<usize>::empty());
                    assert(next.ip == ret);
                    assert(plan.owner[ret] == -1);
                    assert(plan.at[ret] == base + plan.sig[own].outs.len());
                },
                Instr::Jmp(rel) => {
                    assert(plan.owner[pc + rel] == own);
                },
                Instr::JmpIf(rel) => {
                    assert(plan.owner[pc + rel] == own);
                },
                _ => {},
            }
        }
    }
}

/// A run of a planned program from a state on the plan never ends in a trap
/// for want of operands or on a jump.
pub proof fn lemma_run_on_plan(program: Seq<Instr>, plan: Plan, cap: nat, s: VmState, fuel: nat)
    requires
        planned(program, plan),
        program.len() <= usize::MAX,
        on_plan(program, plan, s),
    ensures
        run_spec(program, cap, s, fuel).2 != Outcome::Trapped(Trap::StackUnderflow),
        run_spec(program, cap, s, fuel).2 != Outcome::Trapped(Trap::JumpOutOfBounds),
    decreases fuel,
{
    if fuel > 0 {
        lemma_step_on_plan(program, plan, cap, s);
        let (next, step) = step_spec(program, cap, s);
        match step {
            Step::Continue => {
                lemma_run_on_plan(program, plan, cap, next, (fuel - 1) as nat);
            },
            Step::Dump => {
                lemma_run_on_plan(program, plan, cap, next, (fuel - 1) as nat);
            },
            _ => {},
        }
    }
}

/// An accepted program does not go wrong: however long it runs, a
/// well-formed program that the type checker accepts and the compiler
/// compiles to a program whose addresses fit never pops from an empty stack
/// and never jumps out of the program. It may still trap for a full stack,
/// a memory access out of the arena, an unknown width or a remainder by
/// zero.
pub proof fn theorem_accepted_runs_safely(ops: Seq<Op>, cap: nat, mem: Seq<u8>, fuel: nat)
    requires
        well_formed(ops),
        check_ops(empty_ctx(), ops) is Ok,
        compile_spec(ops) is Ok,
        compile_spec(ops)->Ok_0.0.len() <= usize::MAX,
    ensures
        run_spec(
            compile_spec(ops)->Ok_0.0,
            cap,
            (VmState { ip: 0, stack: Seq::empty(), rstack: Seq::empty(), mem: mem }),
            fuel,
        ).2 != Outcome::Trapped(Trap::StackUnderflow),
        run_spec(
            compile_spec(ops)->Ok_0.0,
            cap,
            (VmState { ip: 0, stack: Seq::empty(), rstack: Seq::empty(), mem: mem }),
            fuel,
        ).2 != Outcome::Trapped(Trap::JumpOutOfBounds),
{
    let program = compile_spec(ops)->Ok_0.0;
    let start = VmState { ip: 0, stack: Seq::empty(), rstack: Seq::empty(), mem: mem };
    lemma_compiled_is_planned(ops);
    lemma_run_on_plan(program, plan_of(ops), cap, start, fuel);
}

/// A source text that is parsed, accepted and compiled does not go wrong:
/// a run of its bytecode, which starts at the first instruction, never ends
/// in a trap for want of operands or on a jump.
pub proof fn theorem_source_runs_safely(input: Seq<u8>, bytecode: Bytecode, max_steps: nat)
    requires
        parse_spec(input) is Ok,
        check_ops(empty_ctx(), parse_spec(input)->Ok_0) is Ok,
        compile_spec(parse_spec(input)->Ok_0) is Ok,
        bytecode.program@ == compile_spec(parse_spec(input)->Ok_0)->Ok_0.0,
        bytecode.entry == 0,
    ensures
        run_of(bytecode, max_steps).2 != Outcome::Trapped(Trap::StackUnderflow),
        run_of(bytecode, max_steps).2 != Outcome::Trapped(Trap::JumpOutOfBounds),
{
    let ops = parse_spec(input)->Ok_0;
    lemma_parse_well_formed(input);
    assert(bytecode.program@.len() == bytecode.program.len());
    let start = initial_state(bytecode);
    assert(start == (VmState {
        ip: 0,
        stack: Seq::empty(),
        rstack: Seq::empty(),
        mem: start.mem,
    }));
    theorem_accepted_runs_safely(ops, STACK_CELLS as nat, start.mem, max_steps);
}

} // verus!
