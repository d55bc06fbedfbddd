//! When the code generator owes its text: a lowered function that takes no
//! more virtual registers than there are physical registers, and no more
//! parameters than there are argument registers, has a routine.

use vstd::prelude::*;
use crate::gen_ir::{
    Emitted, IR, IROp, lemma_lower_expr, lemma_lower_params, lemma_lower_stmt, lemma_lower_stmts,
    lower_expr, lower_function, lower_params, lower_stmt, lower_stmts, regs_after, state_after,
};
use crate::gen_x86::{
    NUM_ARGREGS, NUM_REGS, emit_code, emit_function, emit_ir, lemma_emit_code, operands, prologue,
};
use crate::parse::Node;

verus! {

/// Whether the instruction `ir` has the operands that its opcode needs,
/// with every register among them below `regs` and the index of an
/// argument below `args`, and is of a width that the machine has.
pub open spec fn fits(ir: IR, regs: nat, args: nat) -> bool {
    match ir.op {
        IROp::Add | IROp::Sub | IROp::Mul | IROp::Div | IROp::Eq | IROp::Ne | IROp::Lt | IROp::Le | IROp::Load(
            8,
        ) | IROp::Store(8) => ir.lhs is Some && ir.lhs->Some_0 < regs && ir.rhs is Some
            && ir.rhs->Some_0 < regs,
        IROp::Imm | IROp::Bprel | IROp::Unless => ir.lhs is Some && ir.lhs->Some_0 < regs
            && ir.rhs is Some,
        IROp::Return => ir.lhs is Some && ir.lhs->Some_0 < regs,
        IROp::Label | IROp::Jmp => ir.lhs is Some,
        IROp::StoreArg(8) => ir.lhs is Some && ir.rhs is Some && ir.rhs->Some_0 < args,
        _ => false,
    }
}

/// Whether every instruction of `code` fits.
pub open spec fn all_fit(code: Seq<IR>, regs: nat, args: nat) -> bool {
    forall|i: int| 0 <= i < code.len() ==> fits(#[trigger] code[i], regs, args)
}

/// Code that fits some numbers of registers and arguments fits all greater
/// numbers.
pub proof fn lemma_fit_more(code: Seq<IR>, regs: nat, args: nat, more_regs: nat, more_args: nat)
    requires
        all_fit(code, regs, args),
        regs <= more_regs,
        args <= more_args,
    ensures
        all_fit(code, more_regs, more_args),
{
    assert forall|i: int| 0 <= i < code.len() implies fits(
        #[trigger] code[i],
        more_regs,
        more_args,
    ) by {
        assert(fits(code[i], regs, args));
    }
}

/// Two pieces of code that fit do so together.
pub proof fn lemma_fit_concat(a: Seq<IR>, b: Seq<IR>, regs: nat, args: nat)
    requires
        all_fit(a, regs, args),
        all_fit(b, regs, args),
    ensures
        all_fit(a + b, regs, args),
{
    assert forall|i: int| 0 <= i < (a + b).len() implies fits(#[trigger] (a + b)[i], regs, args) by {
        if i < a.len() {
            assert((a + b)[i] == a[i]);
        } else {
            assert((a + b)[i] == b[i - a.len()]);
        }
    }
}

/// The instructions of an expression use the registers that the expression
/// takes, and those that were in use before it in no instruction.
pub proof fn lemma_expr_fits(e: Node, regs: nat)
    ensures
        lower_expr(e, regs) matches Ok(l) ==> l.reg == regs && regs < l.regs && (l.regs
            <= usize::MAX ==> all_fit(l.code, l.regs, 0)),
    decreases e,
{
    lemma_lower_expr(e, regs);
    match e {
        Node::Plus(a, b) | Node::Minus(a, b) | Node::Mul(a, b) | Node::Div(a, b) | Node::Eq(
            a,
            b,
        ) | Node::Ne(a, b) | Node::Lt(a, b) | Node::Le(a, b) => {
            lemma_expr_fits(*a, regs);
            lemma_expr_fits(*b, regs_after(lower_expr(*a, regs)));
            match (lower_expr(*a, regs), lower_expr(*b, regs_after(lower_expr(*a, regs)))) {
                (Ok(l), Ok(r)) => {
                    if r.regs <= usize::MAX {
                        lemma_fit_more(l.code, l.regs, 0, r.regs, 0);
                        lemma_fit_concat(l.code, r.code, r.regs, 0);
                    }
                },
                _ => {},
            }
        },
        Node::Negative(a) => {
            lemma_expr_fits(*a, regs + 1);
        },
        Node::Assign(target, value) => {
            lemma_expr_fits(*value, regs);
            match lower_expr(*value, regs) {
                Ok(v) => {
                    if v.regs + 1 <= usize::MAX {
                        lemma_fit_more(v.code, v.regs, 0, v.regs + 1, 0);
                    }
                },
                Err(_) => {},
            }
        },
        _ => {},
    }
}

/// The instructions of a statement fit the registers in use behind it.
pub proof fn lemma_stmt_fits(s: Node, regs: nat, labels: nat)
    ensures
        lower_stmt(s, regs, labels) matches Ok(e) ==> regs <= e.regs && (e.regs <= usize::MAX
            ==> all_fit(e.code, e.regs, 0)),
    decreases s, 0nat,
{
    lemma_lower_stmt(s, regs, labels);
    match s {
        Node::Return(e) => lemma_expr_fits(*e, regs),
        Node::ExprStmt(e) => lemma_expr_fits(*e, regs),
        Node::Block(stmts) => lemma_stmts_fit(
            stmts,
            0,
            Emitted { code: Seq::empty(), regs, labels },
        ),
        Node::If(c, t, None) => {
            lemma_expr_fits(*c, regs);
            lemma_stmt_fits(*t, regs_after(lower_expr(*c, regs)), labels + 1);
            match (lower_expr(*c, regs), lower_stmt(*t, regs_after(lower_expr(*c, regs)), labels + 1)) {
                (Ok(c), Ok(t)) => {
                    if t.regs <= usize::MAX {
                        lemma_fit_more(c.code, c.regs, 0, t.regs, 0);
                    }
                },
                _ => {},
            }
        },
        Node::If(c, t, Some(f)) => {
            lemma_expr_fits(*c, regs);
            let then = lower_stmt(*t, regs_after(lower_expr(*c, regs)), labels + 2);
            lemma_stmt_fits(*t, regs_after(lower_expr(*c, regs)), labels + 2);
            lemma_stmt_fits(*f, state_after(then).0, state_after(then).1);
            match (lower_expr(*c, regs), then, lower_stmt(*f, state_after(then).0, state_after(then).1)) {
                (Ok(c), Ok(t), Ok(f)) => {
                    if f.regs <= usize::MAX {
                        lemma_fit_more(c.code, c.regs, 0, f.regs, 0);
                        lemma_fit_more(t.code, t.regs, 0, f.regs, 0);
                    }
                },
                _ => {},
            }
        },
        _ => {},
    }
}

/// As [`lemma_stmt_fits`], for the statements of a list from index `from`
/// on, behind instructions `acc` that fit.
pub proof fn lemma_stmts_fit(stmts: Seq<Node>, from: int, acc: Emitted)
    requires
        acc.regs <= usize::MAX ==> all_fit(acc.code, acc.regs, 0),
    ensures
        lower_stmts(stmts, from, acc) matches Ok(e) ==> acc.regs <= e.regs && (e.regs
            <= usize::MAX ==> all_fit(e.code, e.regs, 0)),
    decreases stmts, stmts.len() - from,
{
    lemma_lower_stmts(stmts, from, acc);
    if 0 <= from < stmts.len() {
        lemma_stmt_fits(stmts[from], acc.regs, acc.labels);
        match lower_stmt(stmts[from], acc.regs, acc.labels) {
            Ok(s) => {
                if s.regs <= usize::MAX {
                    lemma_fit_more(acc.code, acc.regs, 0, s.regs, 0);
                    lemma_fit_concat(acc.code, s.code, s.regs, 0);
                }
                lemma_stmts_fit(
                    stmts,
                    from + 1,
                    Emitted { code: acc.code + s.code, regs: s.regs, labels: s.labels },
                );
            },
            Err(_) => {},
        }
    }
}

/// The instructions that store the parameters of a function fit as many
/// arguments as there are parameters.
pub proof fn lemma_params_fit(params: Seq<Node>, from: int, acc: Seq<IR>)
    requires
        all_fit(acc, 0, params.len()),
        params.len() <= usize::MAX,
    ensures
        lower_params(params, from, acc) matches Ok(code) ==> all_fit(code, 0, params.len()),
    decreases params.len() - from,
{
    lemma_lower_params(params, from, acc);
    if 0 <= from < params.len() {
        match params[from] {
            Node::LVar(offset) => {
                let store = IR {
                    op: IROp::StoreArg(8),
                    lhs: Some(crate::gen_ir::word(offset)),
                    rhs: Some(from as usize),
                };
                assert forall|i: int| 0 <= i < acc.push(store).len() implies fits(
                    #[trigger] acc.push(store)[i],
                    0,
                    params.len(),
                ) by {
                    if i < acc.len() {
                        assert(acc.push(store)[i] == acc[i]);
                    }
                }
                lemma_params_fit(params, from + 1, acc.push(store));
            },
            _ => {},
        }
    }
}

/// Code that fits the registers and argument registers of the machine has
/// lines.
pub proof fn lemma_fitting_code_is_emitted(out: Seq<char>, code: Seq<IR>, from: int, ret: nat)
    requires
        all_fit(code, NUM_REGS as nat, NUM_ARGREGS as nat),
        0 <= from,
    ensures
        emit_code(out, code, from, ret) is Ok,
    decreases code.len() - from,
{
    lemma_emit_code(out, code, from, ret);
    if from < code.len() {
        assert(fits(code[from], NUM_REGS as nat, NUM_ARGREGS as nat));
        assert(operands(code[from]) is Ok);
        lemma_fitting_code_is_emitted(emit_ir(out, code[from], ret)->Ok_0, code, from + 1, ret);
    }
}

/// A function that can be lowered has a routine if it takes no more
/// virtual registers than there are physical registers, and no more
/// parameters than there are argument registers: seven and six.
pub proof fn lemma_function_is_emitted(f: Node, out: Seq<char>, ret: nat)
    requires
        lower_function(f) is Ok,
        lower_function(f)->Ok_0.regs <= NUM_REGS,
        f->Func_1.len() <= NUM_ARGREGS,
    ensures
        emit_function(out, lower_function(f)->Ok_0.function, ret) is Ok,
{
    let l = lower_function(f)->Ok_0;
    let params = f->Func_1;
    let stmts = f->Func_2->CompStmt_0;
    let start = Emitted { code: Seq::empty(), regs: 0, labels: 0 };
    lemma_params_fit(params, 0, Seq::empty());
    lemma_stmts_fit(stmts, 0, start);
    let args = lower_params(params, 0, Seq::empty())->Ok_0;
    let body = lower_stmts(stmts, 0, start)->Ok_0;
    lemma_fit_more(args, 0, params.len(), NUM_REGS as nat, NUM_ARGREGS as nat);
    lemma_fit_more(body.code, body.regs, 0, NUM_REGS as nat, NUM_ARGREGS as nat);
    lemma_fit_concat(args, body.code, NUM_REGS as nat, NUM_ARGREGS as nat);
    lemma_fitting_code_is_emitted(
        prologue(out, l.function.name, l.function.stacksize),
        l.function.code,
        0,
        ret,
    );
}

} // verus!
