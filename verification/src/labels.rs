//! Labels and jumps in lowered code: every jump goes forward to a label
//! that is there once.

use vstd::prelude::*;
use crate::gen_ir::{
    Emitted, IR, IROp, ir1, ir2, lemma_lower_expr, lemma_lower_params, lemma_lower_stmt,
    lemma_lower_stmts, lower_expr, lower_function, lower_params, lower_stmt, lower_stmts,
    regs_after, state_after,
};
use crate::parse::Node;

verus! {

/// The label that the instruction `ir` jumps to, if it is a jump.
pub open spec fn target(ir: IR) -> Option<usize> {
    match ir.op {
        IROp::Jmp => ir.lhs,
        IROp::Unless => ir.rhs,
        _ => None,
    }
}

/// Whether the instruction `ir` is the place of the label `id`.
pub open spec fn defines(ir: IR, id: usize) -> bool {
    ir.op is Label && ir.lhs == Some(id)
}

/// Whether `code` has neither a label nor a jump.
pub open spec fn straight(code: Seq<IR>) -> bool {
    forall|i: int| 0 <= i < code.len() ==> !((#[trigger] code[i]).op is Label) && target(code[i]) is None
}

/// Whether every label of `code` is where a jump before it goes to.
#[verifier::opaque]
pub open spec fn targeted(code: Seq<IR>) -> bool {
    forall|j: int|
        0 <= j < code.len() && (#[trigger] code[j]).op is Label ==> exists|i: int|
            0 <= i < j && target(#[trigger] code[i]) == code[j].lhs
}

/// Whether the labels and jumps of `code` are balanced over the label
/// numbers from `lo` up to, not including, `hi`:
/// - every label of `code` has a number in that range,
/// - no label has two places in `code`,
/// - every jump of `code` goes to a label in that range whose place is
///   behind the jump,
/// - every label of `code` is where a jump before it goes to.
pub open spec fn balanced(code: Seq<IR>, lo: nat, hi: nat) -> bool {
    &&& forall|j: int|
        0 <= j < code.len() && (#[trigger] code[j]).op is Label ==> code[j].lhs is Some && lo
            <= code[j].lhs->Some_0 < hi
    &&& forall|j: int, k: int|
        0 <= j < k < code.len() && (#[trigger] code[j]).op is Label && (#[trigger] code[k]).op is Label
            ==> code[j].lhs != code[k].lhs
    &&& forall|i: int|
        0 <= i < code.len() && target(#[trigger] code[i]) is Some ==> lo <= target(
            code[i],
        )->Some_0 < hi && exists|j: int|
            i < j < code.len() && defines(#[trigger] code[j], target(code[i])->Some_0)
    &&& targeted(code)
}

/// Whether the labels and jumps of `code` are balanced over the label
/// numbers below some number.
pub open spec fn well_labelled(code: Seq<IR>) -> bool {
    exists|hi: nat| balanced(code, 0, hi)
}

/// Two pieces of code whose labels are targets have labels that are
/// targets together.
proof fn lemma_targeted_concat(a: Seq<IR>, b: Seq<IR>)
    requires
        targeted(a),
        targeted(b),
    ensures
        targeted(a + b),
{
    reveal(targeted);
    let code = a + b;
    let n = a.len() as int;
    assert forall|j: int| 0 <= j < code.len() && (#[trigger] code[j]).op is Label implies exists|
        i: int,
    | 0 <= i < j && target(#[trigger] code[i]) == code[j].lhs by {
        if j < n {
            assert(code[j] == a[j]);
            let i = choose|i: int| 0 <= i < j && target(#[trigger] a[i]) == a[j].lhs;
            assert(code[i] == a[i]);
        } else {
            assert(code[j] == b[j - n]);
            let i = choose|i: int| 0 <= i < j - n && target(#[trigger] b[i]) == b[j - n].lhs;
            assert(code[i + n] == b[i]);
            assert(target(code[i + n]) == code[j].lhs);
        }
    }
}

/// Code whose labels are targets, between a jump and the place of its
/// label, has labels that are targets.
proof fn lemma_targeted_wrap(jump: IR, inner: Seq<IR>, label: IR)
    requires
        targeted(inner),
        label.op is Label,
        !(jump.op is Label),
        target(jump) == label.lhs,
    ensures
        targeted(seq![jump] + inner + seq![label]),
{
    reveal(targeted);
    let code = seq![jump] + inner + seq![label];
    let n = inner.len() as int;
    assert(code[0] == jump);
    assert(code[n + 1] == label);
    assert forall|j: int| 0 <= j < code.len() && (#[trigger] code[j]).op is Label implies exists|
        i: int,
    | 0 <= i < j && target(#[trigger] code[i]) == code[j].lhs by {
        if j == 0 {
        } else if j <= n {
            assert(code[j] == inner[j - 1]);
            let i = choose|i: int|
                0 <= i < j - 1 && target(#[trigger] inner[i]) == inner[j - 1].lhs;
            assert(code[i + 1] == inner[i]);
            assert(target(code[i + 1]) == code[j].lhs);
        } else {
            assert(target(code[0]) == code[j].lhs);
        }
    }
}

/// Two pieces of code whose labels are targets, the first between a jump
/// and a second jump with the place of the first jump's label behind it,
/// the second between that place and the place of the second jump's label,
/// have labels that are targets.
proof fn lemma_targeted_else(
    jump: IR,
    then: Seq<IR>,
    skip: IR,
    else_label: IR,
    otherwise: Seq<IR>,
    end_label: IR,
)
    requires
        targeted(then),
        targeted(otherwise),
        else_label.op is Label,
        end_label.op is Label,
        !(skip.op is Label),
        !(jump.op is Label),
        target(jump) == else_label.lhs,
        target(skip) == end_label.lhs,
    ensures
        targeted(seq![jump] + then + seq![skip, else_label] + otherwise + seq![end_label]),
{
    reveal(targeted);
    let code = seq![jump] + then + seq![skip, else_label] + otherwise + seq![end_label];
    let n = then.len() as int;
    let m = otherwise.len() as int;
    assert(code[0] == jump);
    assert(code[n + 1] == skip);
    assert(code[n + 2] == else_label);
    assert(code[n + m + 3] == end_label);
    assert forall|j: int| 0 <= j < code.len() && (#[trigger] code[j]).op is Label implies exists|
        i: int,
    | 0 <= i < j && target(#[trigger] code[i]) == code[j].lhs by {
        if j == 0 {
        } else if j <= n {
            assert(code[j] == then[j - 1]);
            let i = choose|i: int| 0 <= i < j - 1 && target(#[trigger] then[i]) == then[j - 1].lhs;
            assert(code[i + 1] == then[i]);
            assert(target(code[i + 1]) == code[j].lhs);
        } else if j == n + 2 {
            assert(target(code[0]) == code[j].lhs);
        } else if n + 3 <= j < n + m + 3 {
            assert(code[j] == otherwise[j - n - 3]);
            let i = choose|i: int|
                0 <= i < j - n - 3 && target(#[trigger] otherwise[i]) == otherwise[j - n - 3].lhs;
            assert(code[i + n + 3] == otherwise[i]);
            assert(target(code[i + n + 3]) == code[j].lhs);
        } else if j == n + m + 3 {
            assert(target(code[n + 1]) == code[j].lhs);
        }
    }
}

/// Code without labels and jumps is balanced over every range.
pub proof fn lemma_straight_is_balanced(code: Seq<IR>, lo: nat, hi: nat)
    requires
        straight(code),
    ensures
        balanced(code, lo, hi),
{
    reveal(targeted);
}

/// Two pieces of code that are balanced over ranges that follow one
/// another are balanced together over both ranges.
pub proof fn lemma_balanced_concat(a: Seq<IR>, b: Seq<IR>, lo: nat, mid: nat, hi: nat)
    requires
        balanced(a, lo, mid),
        balanced(b, mid, hi),
        lo <= mid <= hi,
    ensures
        balanced(a + b, lo, hi),
{
    lemma_targeted_concat(a, b);
    let code = a + b;
    let n = a.len() as int;
    assert forall|j: int| 0 <= j < code.len() && (#[trigger] code[j]).op is Label implies code[j].lhs is Some
        && lo <= code[j].lhs->Some_0 < hi by {
        if j < n {
            assert(code[j] == a[j]);
        } else {
            assert(code[j] == b[j - n]);
        }
    }
    assert forall|j: int, k: int|
        0 <= j < k < code.len() && (#[trigger] code[j]).op is Label && (#[trigger] code[k]).op is Label implies code[j].lhs
        != code[k].lhs by {
        if k < n {
            assert(code[j] == a[j] && code[k] == a[k]);
        } else if j >= n {
            assert(code[j] == b[j - n] && code[k] == b[k - n]);
        } else {
            assert(code[j] == a[j] && code[k] == b[k - n]);
        }
    }
    assert forall|i: int| 0 <= i < code.len() && target(#[trigger] code[i]) is Some implies lo
        <= target(code[i])->Some_0 < hi && exists|j: int|
        i < j < code.len() && defines(#[trigger] code[j], target(code[i])->Some_0) by {
        if i < n {
            assert(code[i] == a[i]);
            let j = choose|j: int| i < j < a.len() && defines(#[trigger] a[j], target(a[i])->Some_0);
            assert(code[j] == a[j]);
            assert(defines(code[j], target(code[i])->Some_0));
        } else {
            assert(code[i] == b[i - n]);
            let j = choose|j: int|
                i - n < j < b.len() && defines(#[trigger] b[j], target(b[i - n])->Some_0);
            assert(code[j + n] == b[j]);
            assert(defines(code[j + n], target(code[i])->Some_0));
        }
    }
}

/// A jump over balanced code to a new label behind it is balanced: the
/// shape of a conditional without an else-branch.
pub proof fn lemma_balanced_if(jump: IR, then: Seq<IR>, end: nat, hi: nat)
    requires
        target(jump) == Some(end as usize),
        !(jump.op is Label),
        balanced(then, end + 1, hi),
        end < hi <= usize::MAX,
    ensures
        balanced(seq![jump] + then + seq![ir1(IROp::Label, end)], end, hi),
{
    lemma_targeted_wrap(jump, then, ir1(IROp::Label, end));
    let label = ir1(IROp::Label, end);
    let code = seq![jump] + then + seq![label];
    let n = then.len() as int;
    assert(code.len() == n + 2);
    assert(code[0] == jump);
    assert(code[n + 1] == label);
    assert(defines(label, end as usize));
    assert forall|j: int| 1 <= j <= n implies #[trigger] code[j] == then[j - 1] by {}
    assert forall|j: int| 0 <= j < code.len() && (#[trigger] code[j]).op is Label implies code[j].lhs is Some
        && end <= code[j].lhs->Some_0 < hi by {
        if 1 <= j <= n {
            assert(code[j] == then[j - 1]);
        }
    }
    assert forall|j: int, k: int|
        0 <= j < k < code.len() && (#[trigger] code[j]).op is Label && (#[trigger] code[k]).op is Label implies code[j].lhs
        != code[k].lhs by {
        assert(j >= 1);
        assert(code[j] == then[j - 1]);
        if k <= n {
            assert(code[k] == then[k - 1]);
        }
    }
    assert forall|i: int| 0 <= i < code.len() && target(#[trigger] code[i]) is Some implies end
        <= target(code[i])->Some_0 < hi && exists|j: int|
        i < j < code.len() && defines(#[trigger] code[j], target(code[i])->Some_0) by {
        if i == 0 {
            assert(defines(code[n + 1], target(code[i])->Some_0));
        } else {
            assert(i <= n);
            assert(code[i] == then[i - 1]);
            let j = choose|j: int|
                i - 1 < j < then.len() && defines(#[trigger] then[j], target(then[i - 1])->Some_0);
            assert(code[j + 1] == then[j]);
            assert(defines(code[j + 1], target(code[i])->Some_0));
        }
    }
}

/// The shape of a conditional with an else-branch is balanced: a jump to
/// the label `other` over the balanced then-branch and a jump to the label
/// `other + 1`; the place of `other`; the balanced else-branch; the place
/// of `other + 1`.
pub proof fn lemma_balanced_if_else(
    jump: IR,
    then: Seq<IR>,
    otherwise: Seq<IR>,
    other: nat,
    mid: nat,
    hi: nat,
)
    requires
        target(jump) == Some(other as usize),
        !(jump.op is Label),
        balanced(then, other + 2, mid),
        balanced(otherwise, mid, hi),
        other + 2 <= mid <= hi <= usize::MAX,
    ensures
        balanced(
            seq![jump] + then + seq![ir1(IROp::Jmp, other + 1), ir1(IROp::Label, other)]
                + otherwise + seq![ir1(IROp::Label, other + 1)],
            other,
            hi,
        ),
{
    let skip = ir1(IROp::Jmp, other + 1);
    let else_label = ir1(IROp::Label, other);
    let end_label = ir1(IROp::Label, other + 1);
    let code = seq![jump] + then + seq![skip, else_label] + otherwise + seq![end_label];
    lemma_targeted_else(jump, then, skip, else_label, otherwise, end_label);
    let n = then.len() as int;
    let m = otherwise.len() as int;
    assert(code.len() == n + m + 4);
    assert(code[0] == jump);
    assert(code[n + 1] == skip);
    assert(code[n + 2] == else_label);
    assert(code[n + m + 3] == end_label);
    assert(defines(else_label, other as usize));
    assert(defines(end_label, (other + 1) as usize));
    assert(target(skip) == Some((other + 1) as usize));
    assert forall|j: int| 1 <= j <= n implies #[trigger] code[j] == then[j - 1] by {}
    assert forall|j: int| n + 3 <= j < n + m + 3 implies #[trigger] code[j] == otherwise[j - n
        - 3] by {}
    assert forall|j: int| 0 <= j < code.len() && (#[trigger] code[j]).op is Label implies code[j].lhs is Some
        && other <= code[j].lhs->Some_0 < hi by {
        if 1 <= j <= n {
            assert(code[j] == then[j - 1]);
        } else if n + 3 <= j < n + m + 3 {
            assert(code[j] == otherwise[j - n - 3]);
        }
    }
    assert forall|j: int, k: int|
        0 <= j < k < code.len() && (#[trigger] code[j]).op is Label && (#[trigger] code[k]).op is Label implies code[j].lhs
        != code[k].lhs by {
        if 1 <= j <= n {
            assert(code[j] == then[j - 1]);
        } else if n + 3 <= j < n + m + 3 {
            assert(code[j] == otherwise[j - n - 3]);
        }
        if 1 <= k <= n {
            assert(code[k] == then[k - 1]);
        } else if n + 3 <= k < n + m + 3 {
            assert(code[k] == otherwise[k - n - 3]);
        }
    }
    assert forall|i: int| 0 <= i < code.len() && target(#[trigger] code[i]) is Some implies other
        <= target(code[i])->Some_0 < hi && exists|j: int|
        i < j < code.len() && defines(#[trigger] code[j], target(code[i])->Some_0) by {
        if i == 0 {
            assert(defines(code[n + 2], target(code[i])->Some_0));
        } else if i <= n {
            assert(code[i] == then[i - 1]);
            let j = choose|j: int|
                i - 1 < j < then.len() && defines(#[trigger] then[j], target(then[i - 1])->Some_0);
            assert(code[j + 1] == then[j]);
            assert(defines(code[j + 1], target(code[i])->Some_0));
        } else if i == n + 1 {
            assert(defines(code[n + m + 3], target(code[i])->Some_0));
        } else if n + 3 <= i < n + m + 3 {
            assert(code[i] == otherwise[i - n - 3]);
            let j = choose|j: int|
                i - n - 3 < j < otherwise.len() && defines(
                    #[trigger] otherwise[j],
                    target(otherwise[i - n - 3])->Some_0,
                );
            assert(code[j + n + 3] == otherwise[j]);
            assert(defines(code[j + n + 3], target(code[i])->Some_0));
        }
    }
}

/// The instructions of an expression have neither a label nor a jump.
pub proof fn lemma_expr_is_straight(e: Node, regs: nat)
    ensures
        lower_expr(e, regs) matches Ok(l) ==> straight(l.code),
    decreases e,
{
    lemma_lower_expr(e, regs);
    match e {
        Node::Plus(a, b) | Node::Minus(a, b) | Node::Mul(a, b) | Node::Div(a, b) | Node::Eq(
            a,
            b,
        ) | Node::Ne(a, b) | Node::Lt(a, b) | Node::Le(a, b) => {
            lemma_expr_is_straight(*a, regs);
            lemma_expr_is_straight(*b, regs_after(lower_expr(*a, regs)));
        },
        Node::Negative(a) => {
            lemma_expr_is_straight(*a, regs + 1);
        },
        Node::Assign(target, value) => {
            lemma_expr_is_straight(*value, regs);
        },
        _ => {},
    }
}

/// Lowering a statement hands out labels in order, and leaves balanced
/// code: every jump that a conditional makes goes forward to a label of
/// that statement, and that label has one place in the code.
pub proof fn lemma_stmt_is_balanced(s: Node, regs: nat, labels: nat)
    ensures
        lower_stmt(s, regs, labels) matches Ok(e) ==> labels <= e.labels && (e.labels
            <= usize::MAX ==> balanced(e.code, labels, e.labels)),
    decreases s, 0nat,
{
    lemma_lower_stmt(s, regs, labels);
    match s {
        Node::Return(e) => {
            lemma_expr_is_straight(*e, regs);
            match lower_stmt(s, regs, labels) {
                Ok(done) => lemma_straight_is_balanced(done.code, labels, labels),
                Err(_) => {},
            }
        },
        Node::ExprStmt(e) => {
            lemma_expr_is_straight(*e, regs);
            match lower_stmt(s, regs, labels) {
                Ok(done) => lemma_straight_is_balanced(done.code, labels, labels),
                Err(_) => {},
            }
        },
        Node::Block(stmts) => {
            lemma_straight_is_balanced(Seq::empty(), labels, labels);
            lemma_stmts_are_balanced(
                stmts,
                0,
                Emitted { code: Seq::empty(), regs, labels },
                labels,
            );
        },
        Node::If(c, t, None) => {
            lemma_expr_is_straight(*c, regs);
            let cond = lower_expr(*c, regs);
            let then = lower_stmt(*t, regs_after(cond), labels + 1);
            lemma_stmt_is_balanced(*t, regs_after(cond), labels + 1);
            if cond is Ok && then is Ok && then->Ok_0.labels <= usize::MAX {
                let c = cond->Ok_0;
                let t = then->Ok_0;
                let jump = ir2(IROp::Unless, c.reg, labels);
                lemma_balanced_if(jump, t.code, labels, t.labels);
                lemma_straight_is_balanced(c.code, labels, labels);
                let tail = seq![jump] + t.code + seq![ir1(IROp::Label, labels)];
                lemma_balanced_concat(c.code, tail, labels, labels, t.labels);
                assert(c.code + tail =~= c.code + seq![jump] + t.code + seq![
                    ir1(IROp::Label, labels),
                ]);
            }
        },
        Node::If(c, t, Some(f)) => {
            lemma_expr_is_straight(*c, regs);
            let cond = lower_expr(*c, regs);
            let then = lower_stmt(*t, regs_after(cond), labels + 2);
            lemma_stmt_is_balanced(*t, regs_after(cond), labels + 2);
            let otherwise = lower_stmt(*f, state_after(then).0, state_after(then).1);
            lemma_stmt_is_balanced(*f, state_after(then).0, state_after(then).1);
            if cond is Ok && then is Ok && otherwise is Ok && otherwise->Ok_0.labels
                <= usize::MAX {
                let c = cond->Ok_0;
                let t = then->Ok_0;
                let f = otherwise->Ok_0;
                let jump = ir2(IROp::Unless, c.reg, labels);
                lemma_balanced_if_else(jump, t.code, f.code, labels, t.labels, f.labels);
                lemma_straight_is_balanced(c.code, labels, labels);
                let tail = seq![jump] + t.code + seq![
                    ir1(IROp::Jmp, labels + 1),
                    ir1(IROp::Label, labels),
                ] + f.code + seq![ir1(IROp::Label, labels + 1)];
                lemma_balanced_concat(c.code, tail, labels, labels, f.labels);
                assert(c.code + tail =~= c.code + seq![jump] + t.code + seq![
                    ir1(IROp::Jmp, labels + 1),
                    ir1(IROp::Label, labels),
                ] + f.code + seq![ir1(IROp::Label, labels + 1)]);
            }
        },
        _ => {},
    }
}

/// As [`lemma_stmt_is_balanced`], for the statements of a list from index
/// `from` on, behind balanced code `acc` whose labels start at `lo`.
pub proof fn lemma_stmts_are_balanced(stmts: Seq<Node>, from: int, acc: Emitted, lo: nat)
    requires
        lo <= acc.labels,
        acc.labels <= usize::MAX ==> balanced(acc.code, lo, acc.labels),
    ensures
        lower_stmts(stmts, from, acc) matches Ok(e) ==> acc.labels <= e.labels && (e.labels
            <= usize::MAX ==> balanced(e.code, lo, e.labels)),
    decreases stmts, stmts.len() - from,
{
    lemma_lower_stmts(stmts, from, acc);
    if 0 <= from < stmts.len() {
        lemma_stmt_is_balanced(stmts[from], acc.regs, acc.labels);
        match lower_stmt(stmts[from], acc.regs, acc.labels) {
            Ok(s) => {
                let next = Emitted { code: acc.code + s.code, regs: s.regs, labels: s.labels };
                if s.labels <= usize::MAX {
                    lemma_balanced_concat(acc.code, s.code, lo, acc.labels, s.labels);
                }
                lemma_stmts_are_balanced(stmts, from + 1, next, lo);
            },
            Err(_) => {},
        }
    }
}

/// The instructions that store the parameters of a function have neither a
/// label nor a jump.
pub proof fn lemma_params_are_straight(params: Seq<Node>, from: int, acc: Seq<IR>)
    requires
        straight(acc),
    ensures
        lower_params(params, from, acc) matches Ok(code) ==> straight(code),
    decreases params.len() - from,
{
    lemma_lower_params(params, from, acc);
    if 0 <= from < params.len() {
        match params[from] {
            Node::LVar(offset) => {
                let store = IR {
                    op: IROp::StoreArg(8),
                    lhs: Some(crate::gen_ir::word(offset)),
                    rhs: Some(from as usize),
                };
                lemma_params_are_straight(params, from + 1, acc.push(store));
            },
            _ => {},
        }
    }
}

/// The instructions of a function are balanced over the labels that the
/// function uses: for every jump that a conditional of the function makes
/// there is exactly one place of its label in the function, and the place
/// is behind the jump.
pub proof fn lemma_function_is_balanced(f: Node)
    ensures
        lower_function(f) matches Ok(l) ==> (l.labels <= usize::MAX ==> balanced(
            l.function.code,
            0,
            l.labels,
        )),
{
    match f {
        Node::Func(name, params, body, size) => {
            lemma_params_are_straight(params, 0, Seq::empty());
            match (lower_params(params, 0, Seq::empty()), *body) {
                (Ok(args), Node::CompStmt(stmts)) => {
                    let start = Emitted { code: Seq::empty(), regs: 0, labels: 0 };
                    lemma_straight_is_balanced(start.code, 0, 0);
                    lemma_stmts_are_balanced(stmts, 0, start, 0);
                    match lower_stmts(stmts, 0, start) {
                        Ok(b) => {
                            if b.labels <= usize::MAX {
                                lemma_straight_is_balanced(args, 0, 0);
                                lemma_balanced_concat(args, b.code, 0, 0, b.labels);
                            }
                        },
                        Err(_) => {},
                    }
                },
                _ => {},
            }
        },
        _ => {},
    }
}

} // verus!
