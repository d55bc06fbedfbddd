//! The lowering pass: one function's syntax tree to a list of instructions
//! over virtual registers.
//!
//! [`lower_function`] defines the instructions of a function; [`gen_ir`]
//! computes them for a whole program.

use vstd::prelude::*;
use crate::labels::{balanced, lemma_function_is_balanced, well_labelled};
use crate::machine::{implements, lemma_function_is_implemented};
use crate::parse::{Node, NodeType, nodes_view};

verus! {

/// What an instruction does. The operands are named with each opcode:
/// `lhs` and `rhs` are the two operand fields of [`IR`].
#[derive(Clone, Debug, PartialEq)]
pub enum IROp {
    /// Register `lhs` becomes `lhs + rhs`, both registers.
    Add,
    /// Register `lhs` becomes `lhs - rhs`.
    Sub,
    /// Register `lhs` becomes `lhs * rhs`.
    Mul,
    /// Register `lhs` becomes the quotient of `lhs` by `rhs`, both signed,
    /// rounded towards zero.
    Div,
    /// Register `lhs` becomes the number `rhs`.
    Imm,
    /// The function returns the value of register `lhs`.
    Return,
    /// A call of the named function with that many arguments. No tree is
    /// lowered to it.
    Call(String, usize),
    /// The place that the label `lhs` names.
    Label,
    /// Register `lhs` becomes the address `rhs` bytes below the frame
    /// pointer.
    Bprel,
    /// Register `lhs` becomes what is stored, in that many bytes, at the
    /// address in register `rhs`.
    Load(u8),
    /// The value of register `rhs` is stored, in that many bytes, at the
    /// address in register `lhs`.
    Store(u8),
    /// The argument with index `rhs` is stored, in that many bytes, `lhs`
    /// bytes below the frame pointer.
    StoreArg(u8),
    /// Register `lhs` becomes 1 if `lhs == rhs`, else 0.
    Eq,
    /// Register `lhs` becomes 1 if `lhs != rhs`, else 0.
    Ne,
    /// Register `lhs` becomes 1 if `lhs < rhs`, else 0.
    Lt,
    /// Register `lhs` becomes 1 if `lhs <= rhs`, else 0.
    Le,
    /// Control goes to the label `lhs`.
    Jmp,
    /// Control goes to the label `rhs` if register `lhs` holds 0.
    Unless,
}

/// One instruction: an opcode and up to two operands.
#[derive(Clone, Debug)]
pub struct IR {
    pub op: IROp,
    pub lhs: Option<usize>,
    pub rhs: Option<usize>,
}

/// A lowered function: its name, its instructions in the order in which
/// they run, and the size of its frame in bytes.
#[derive(Clone, Debug)]
pub struct Function {
    pub name: String,
    pub code: Vec<IR>,
    pub stacksize: usize,
}

/// The mathematical value of a [`Function`].
pub ghost struct FunctionView {
    pub name: Seq<char>,
    pub code: Seq<IR>,
    pub stacksize: nat,
}

impl View for Function {
    type V = FunctionView;

    open spec fn view(&self) -> FunctionView {
        FunctionView { name: self.name@, code: self.code@, stacksize: self.stacksize as nat }
    }
}

/// The values of a sequence of functions, one by one.
pub open spec fn functions_view(fns: Seq<Function>) -> Seq<FunctionView> {
    fns.map_values(|f: Function| f@)
}

/// A tree that cannot be lowered.
#[derive(Debug, Clone, Copy, PartialEq, Eq, Structural)]
pub enum LowerError {
    /// A tree at the top of a program is no function.
    NotAFunction,
    /// A parameter of a function is no local variable.
    BadParameter,
    /// The body of a function is no list of statements.
    BadBody,
    /// A tree in the place of an expression is none that can be lowered: a
    /// call, or a statement.
    UnknownExpr,
    /// A tree in the place of a statement is none that can be lowered: a
    /// loop, or an expression.
    UnknownStmt,
    /// The target of an assignment is no local variable.
    NotAnLvalue,
}

/// The instructions of an expression, the register that holds its value
/// afterwards, and the number of registers in use afterwards.
pub ghost struct Lowered {
    pub code: Seq<IR>,
    pub reg: nat,
    pub regs: nat,
}

/// The instructions of a statement, and the numbers of registers and of
/// labels in use afterwards.
pub ghost struct Emitted {
    pub code: Seq<IR>,
    pub regs: nat,
    pub labels: nat,
}

/// A lowered function with the number of virtual registers and the number
/// of labels that its instructions use.
pub ghost struct LoweredFunction {
    pub function: FunctionView,
    pub regs: nat,
    pub labels: nat,
}

/// The operand that holds the 32-bit number `v`: `v` itself if it is not
/// negative, else its two's complement in the width of an operand.
pub open spec fn word(v: int) -> usize {
    (v as i32) as usize
}

/// The instruction with opcode `op` on the registers or labels `lhs` and
/// `rhs`.
pub open spec fn ir2(op: IROp, lhs: nat, rhs: nat) -> IR {
    IR { op, lhs: Some(lhs as usize), rhs: Some(rhs as usize) }
}

/// The instruction with opcode `op` on the register or label `lhs` alone.
pub open spec fn ir1(op: IROp, lhs: nat) -> IR {
    IR { op, lhs: Some(lhs as usize), rhs: None }
}

/// The instructions of a reference to the variable at `offset`: its address
/// is taken into a new register, and the register then loaded through
/// itself.
pub open spec fn lower_variable(offset: int, regs: nat) -> Lowered {
    Lowered {
        code: seq![
            IR { op: IROp::Bprel, lhs: Some(regs as usize), rhs: Some(word(offset)) },
            ir2(IROp::Load(8), regs, regs),
        ],
        reg: regs,
        regs: regs + 1,
    }
}

/// The instructions that take the address of the assignment target `node`
/// into a new register.
pub open spec fn lower_lval(node: Node, regs: nat) -> Result<Lowered, LowerError> {
    match node {
        Node::LVar(offset) => Ok(
            Lowered {
                code: seq![
                    IR { op: IROp::Bprel, lhs: Some(regs as usize), rhs: Some(word(offset)) },
                ],
                reg: regs,
                regs: regs + 1,
            },
        ),
        _ => Err(LowerError::NotAnLvalue),
    }
}

/// The number of registers in use after the expression `l`.
pub open spec fn regs_after(l: Result<Lowered, LowerError>) -> nat {
    match l {
        Ok(l) => l.regs,
        Err(_) => 0,
    }
}

/// A binary operation: the left operand, then the right operand, then the
/// instruction `op`, which leaves the result in the left operand's register.
pub open spec fn lower_binop(
    op: IROp,
    lhs: Result<Lowered, LowerError>,
    rhs: Result<Lowered, LowerError>,
) -> Result<Lowered, LowerError> {
    match lhs {
        Err(e) => Err(e),
        Ok(l) => match rhs {
            Err(e) => Err(e),
            Ok(r) => Ok(
                Lowered { code: l.code + r.code + seq![ir2(op, l.reg, r.reg)], reg: l.reg, regs: r.regs },
            ),
        },
    }
}

/// A negation: zero in the new register `reg`, then the operand, then the
/// subtraction of the operand from the zero.
pub open spec fn lower_negation(reg: nat, operand: Result<Lowered, LowerError>) -> Result<
    Lowered,
    LowerError,
> {
    match operand {
        Err(e) => Err(e),
        Ok(a) => Ok(
            Lowered {
                code: seq![IR { op: IROp::Imm, lhs: Some(reg as usize), rhs: Some(0) }] + a.code
                    + seq![ir2(IROp::Sub, reg, a.reg)],
                reg,
                regs: a.regs,
            },
        ),
    }
}

/// An assignment: the value first, then the address of `target`, then the
/// store. The value of the assignment is the value stored.
pub open spec fn lower_assignment(value: Result<Lowered, LowerError>, target: Node) -> Result<
    Lowered,
    LowerError,
> {
    match value {
        Err(e) => Err(e),
        Ok(v) => match lower_lval(target, v.regs) {
            Err(e) => Err(e),
            Ok(a) => Ok(
                Lowered {
                    code: v.code + a.code + seq![ir2(IROp::Store(8), a.reg, v.reg)],
                    reg: v.reg,
                    regs: a.regs,
                },
            ),
        },
    }
}

/// The instructions of the expression `e`, when `regs` registers are in
/// use. Every instruction that makes a value takes the next register.
#[verifier::opaque]
pub open spec fn lower_expr(e: Node, regs: nat) -> Result<Lowered, LowerError>
    decreases e,
{
    match e {
        Node::Num(v) => Ok(
            Lowered {
                code: seq![IR { op: IROp::Imm, lhs: Some(regs as usize), rhs: Some(word(v)) }],
                reg: regs,
                regs: regs + 1,
            },
        ),
        Node::LVar(offset) => Ok(lower_variable(offset, regs)),
        Node::Plus(a, b) => lower_binop(
            IROp::Add,
            lower_expr(*a, regs),
            lower_expr(*b, regs_after(lower_expr(*a, regs))),
        ),
        Node::Minus(a, b) => lower_binop(
            IROp::Sub,
            lower_expr(*a, regs),
            lower_expr(*b, regs_after(lower_expr(*a, regs))),
        ),
        Node::Mul(a, b) => lower_binop(
            IROp::Mul,
            lower_expr(*a, regs),
            lower_expr(*b, regs_after(lower_expr(*a, regs))),
        ),
        Node::Div(a, b) => lower_binop(
            IROp::Div,
            lower_expr(*a, regs),
            lower_expr(*b, regs_after(lower_expr(*a, regs))),
        ),
        Node::Eq(a, b) => lower_binop(
            IROp::Eq,
            lower_expr(*a, regs),
            lower_expr(*b, regs_after(lower_expr(*a, regs))),
        ),
        Node::Ne(a, b) => lower_binop(
            IROp::Ne,
            lower_expr(*a, regs),
            lower_expr(*b, regs_after(lower_expr(*a, regs))),
        ),
        Node::Lt(a, b) => lower_binop(
            IROp::Lt,
            lower_expr(*a, regs),
            lower_expr(*b, regs_after(lower_expr(*a, regs))),
        ),
        Node::Le(a, b) => lower_binop(
            IROp::Le,
            lower_expr(*a, regs),
            lower_expr(*b, regs_after(lower_expr(*a, regs))),
        ),
        Node::Negative(a) => lower_negation(regs, lower_expr(*a, regs + 1)),
        Node::Assign(target, value) => lower_assignment(lower_expr(*value, regs), *target),
        _ => Err(LowerError::UnknownExpr),
    }
}

/// The numbers of registers and labels in use after the statement `s`.
pub open spec fn state_after(s: Result<Emitted, LowerError>) -> (nat, nat) {
    match s {
        Ok(s) => (s.regs, s.labels),
        Err(_) => (0, 0),
    }
}

/// A `return`: the value, then the instruction that returns it.
pub open spec fn lower_return(value: Result<Lowered, LowerError>, labels: nat) -> Result<
    Emitted,
    LowerError,
> {
    match value {
        Err(e) => Err(e),
        Ok(v) => Ok(Emitted { code: v.code + seq![ir1(IROp::Return, v.reg)], regs: v.regs, labels }),
    }
}

/// An expression as a statement: its instructions; its value is dropped.
pub open spec fn lower_expr_stmt(value: Result<Lowered, LowerError>, labels: nat) -> Result<
    Emitted,
    LowerError,
> {
    match value {
        Err(e) => Err(e),
        Ok(v) => Ok(Emitted { code: v.code, regs: v.regs, labels }),
    }
}

/// A conditional without an else-branch, whose end is the label `end`: the
/// condition, a jump to `end` unless it holds, the then-branch, and `end`.
pub open spec fn lower_if(
    end: nat,
    cond: Result<Lowered, LowerError>,
    then: Result<Emitted, LowerError>,
) -> Result<Emitted, LowerError> {
    match cond {
        Err(e) => Err(e),
        Ok(c) => match then {
            Err(e) => Err(e),
            Ok(t) => Ok(
                Emitted {
                    code: c.code + seq![ir2(IROp::Unless, c.reg, end)] + t.code + seq![
                        ir1(IROp::Label, end),
                    ],
                    regs: t.regs,
                    labels: t.labels,
                },
            ),
        },
    }
}

/// A conditional with an else-branch, whose labels are `other` for the
/// else-branch and `other + 1` for the end: the condition, a jump to
/// `other` unless it holds, the then-branch, a jump to the end, `other`,
/// the else-branch, and the end.
pub open spec fn lower_if_else(
    other: nat,
    cond: Result<Lowered, LowerError>,
    then: Result<Emitted, LowerError>,
    otherwise: Result<Emitted, LowerError>,
) -> Result<Emitted, LowerError> {
    match cond {
        Err(e) => Err(e),
        Ok(c) => match then {
            Err(e) => Err(e),
            Ok(t) => match otherwise {
                Err(e) => Err(e),
                Ok(f) => Ok(
                    Emitted {
                        code: c.code + seq![ir2(IROp::Unless, c.reg, other)] + t.code + seq![
                            ir1(IROp::Jmp, other + 1),
                            ir1(IROp::Label, other),
                        ] + f.code + seq![ir1(IROp::Label, other + 1)],
                        regs: f.regs,
                        labels: f.labels,
                    },
                ),
            },
        },
    }
}

/// The instructions of the statement `s`, when `regs` registers and
/// `labels` labels are in use. A conditional takes the next label, or the
/// next two, before its branches take theirs.
#[verifier::opaque]
pub open spec fn lower_stmt(s: Node, regs: nat, labels: nat) -> Result<Emitted, LowerError>
    decreases s, 0nat,
{
    match s {
        Node::Return(e) => lower_return(lower_expr(*e, regs), labels),
        Node::ExprStmt(e) => lower_expr_stmt(lower_expr(*e, regs), labels),
        Node::Block(stmts) => lower_stmts(stmts, 0, Emitted { code: Seq::empty(), regs, labels }),
        Node::If(c, t, None) => lower_if(
            labels,
            lower_expr(*c, regs),
            lower_stmt(*t, regs_after(lower_expr(*c, regs)), labels + 1),
        ),
        Node::If(c, t, Some(f)) => {
            let then = lower_stmt(*t, regs_after(lower_expr(*c, regs)), labels + 2);
            lower_if_else(
                labels,
                lower_expr(*c, regs),
                then,
                lower_stmt(*f, state_after(then).0, state_after(then).1),
            )
        },
        _ => Err(LowerError::UnknownStmt),
    }
}

/// The instructions of the statements of `stmts` from index `from` on,
/// behind those in `acc`.
#[verifier::opaque]
pub open spec fn lower_stmts(stmts: Seq<Node>, from: int, acc: Emitted) -> Result<
    Emitted,
    LowerError,
>
    decreases stmts, stmts.len() - from,
{
    if from < 0 || from >= stmts.len() {
        Ok(acc)
    } else {
        match lower_stmt(stmts[from], acc.regs, acc.labels) {
            Err(e) => Err(e),
            Ok(s) => lower_stmts(
                stmts,
                from + 1,
                Emitted { code: acc.code + s.code, regs: s.regs, labels: s.labels },
            ),
        }
    }
}

/// The instructions that store the parameters of `params` from index `from`
/// on in their slots, behind those in `acc`: the parameter with index `i`
/// comes in the argument register with index `i`.
#[verifier::opaque]
pub open spec fn lower_params(params: Seq<Node>, from: int, acc: Seq<IR>) -> Result<
    Seq<IR>,
    LowerError,
>
    decreases params.len() - from,
{
    if from < 0 || from >= params.len() {
        Ok(acc)
    } else {
        match params[from] {
            Node::LVar(offset) => lower_params(
                params,
                from + 1,
                acc.push(
                    IR {
                        op: IROp::StoreArg(8),
                        lhs: Some(word(offset)),
                        rhs: Some(from as usize),
                    },
                ),
            ),
            _ => Err(LowerError::BadParameter),
        }
    }
}

/// The body of a function behind the instructions `args` for its
/// parameters. Registers and labels are counted from zero in every
/// function.
pub open spec fn lower_body(name: Seq<char>, args: Seq<IR>, body: Node, size: nat) -> Result<
    LoweredFunction,
    LowerError,
> {
    match body {
        Node::CompStmt(stmts) => match lower_stmts(
            stmts,
            0,
            Emitted { code: Seq::empty(), regs: 0, labels: 0 },
        ) {
            Err(e) => Err(e),
            Ok(b) => Ok(
                LoweredFunction {
                    function: FunctionView { name, code: args + b.code, stacksize: size },
                    regs: b.regs,
                    labels: b.labels,
                },
            ),
        },
        _ => Err(LowerError::BadBody),
    }
}

/// The function `f` lowered: the stores of its parameters, then its
/// statements in order.
pub open spec fn lower_function(f: Node) -> Result<LoweredFunction, LowerError> {
    match f {
        Node::Func(name, params, body, size) => match lower_params(params, 0, Seq::empty()) {
            Err(e) => Err(e),
            Ok(args) => lower_body(name, args, *body, size),
        },
        _ => Err(LowerError::NotAFunction),
    }
}

/// The functions of `nodes` from index `from` on, lowered, behind those in
/// `acc`.
#[verifier::opaque]
pub open spec fn lower_program_from(nodes: Seq<Node>, from: int, acc: Seq<FunctionView>) -> Result<
    Seq<FunctionView>,
    LowerError,
>
    decreases nodes.len() - from,
{
    if from < 0 || from >= nodes.len() {
        Ok(acc)
    } else {
        match lower_function(nodes[from]) {
            Err(e) => Err(e),
            Ok(f) => lower_program_from(nodes, from + 1, acc.push(f.function)),
        }
    }
}

/// The functions of the program `nodes`, lowered in order, or the first
/// tree that cannot be lowered.
pub open spec fn lower_program(nodes: Seq<Node>) -> Result<Seq<FunctionView>, LowerError> {
    lower_program_from(nodes, 0, Seq::empty())
}

/// The defining equation of [`lower_expr`].
pub proof fn lemma_lower_expr(e: Node, regs: nat)
    ensures
        lower_expr(e, regs) == ({
        match e {
            Node::Num(v) => Ok(
                Lowered {
                    code: seq![IR { op: IROp::Imm, lhs: Some(regs as usize), rhs: Some(word(v)) }],
                    reg: regs,
                    regs: regs + 1,
                },
            ),
            Node::LVar(offset) => Ok(lower_variable(offset, regs)),
            Node::Plus(a, b) => lower_binop(
                IROp::Add,
                lower_expr(*a, regs),
                lower_expr(*b, regs_after(lower_expr(*a, regs))),
            ),
            Node::Minus(a, b) => lower_binop(
                IROp::Sub,
                lower_expr(*a, regs),
                lower_expr(*b, regs_after(lower_expr(*a, regs))),
            ),
            Node::Mul(a, b) => lower_binop(
                IROp::Mul,
                lower_expr(*a, regs),
                lower_expr(*b, regs_after(lower_expr(*a, regs))),
            ),
            Node::Div(a, b) => lower_binop(
                IROp::Div,
                lower_expr(*a, regs),
                lower_expr(*b, regs_after(lower_expr(*a, regs))),
            ),
            Node::Eq(a, b) => lower_binop(
                IROp::Eq,
                lower_expr(*a, regs),
                lower_expr(*b, regs_after(lower_expr(*a, regs))),
            ),
            Node::Ne(a, b) => lower_binop(
                IROp::Ne,
                lower_expr(*a, regs),
                lower_expr(*b, regs_after(lower_expr(*a, regs))),
            ),
            Node::Lt(a, b) => lower_binop(
                IROp::Lt,
                lower_expr(*a, regs),
                lower_expr(*b, regs_after(lower_expr(*a, regs))),
            ),
            Node::Le(a, b) => lower_binop(
                IROp::Le,
                lower_expr(*a, regs),
                lower_expr(*b, regs_after(lower_expr(*a, regs))),
            ),
            Node::Negative(a) => lower_negation(regs, lower_expr(*a, regs + 1)),
            Node::Assign(target, value) => lower_assignment(lower_expr(*value, regs), *target),
            _ => Err(LowerError::UnknownExpr),
        }
        }),
{
    reveal(lower_expr);
}

/// The defining equation of [`lower_stmt`].
pub proof fn lemma_lower_stmt(s: Node, regs: nat, labels: nat)
    ensures
        lower_stmt(s, regs, labels) == ({
        match s {
            Node::Return(e) => lower_return(lower_expr(*e, regs), labels),
            Node::ExprStmt(e) => lower_expr_stmt(lower_expr(*e, regs), labels),
            Node::Block(stmts) => lower_stmts(stmts, 0, Emitted { code: Seq::empty(), regs, labels }),
            Node::If(c, t, None) => lower_if(
                labels,
                lower_expr(*c, regs),
                lower_stmt(*t, regs_after(lower_expr(*c, regs)), labels + 1),
            ),
            Node::If(c, t, Some(f)) => {
                let then = lower_stmt(*t, regs_after(lower_expr(*c, regs)), labels + 2);
                lower_if_else(
                    labels,
                    lower_expr(*c, regs),
                    then,
                    lower_stmt(*f, state_after(then).0, state_after(then).1),
                )
            },
            _ => Err(LowerError::UnknownStmt),
        }
        }),
{
    reveal(lower_expr);
    reveal(lower_stmt);
    reveal(lower_stmts);
}

/// The defining equation of [`lower_stmts`].
pub proof fn lemma_lower_stmts(stmts: Seq<Node>, from: int, acc: Emitted)
    ensures
        lower_stmts(stmts, from, acc) == ({
        if from < 0 || from >= stmts.len() {
            Ok(acc)
        } else {
            match lower_stmt(stmts[from], acc.regs, acc.labels) {
                Err(e) => Err(e),
                Ok(s) => lower_stmts(
                    stmts,
                    from + 1,
                    Emitted { code: acc.code + s.code, regs: s.regs, labels: s.labels },
                ),
            }
        }
        }),
{
    reveal(lower_stmt);
    reveal(lower_stmts);
}

/// The defining equation of [`lower_params`].
pub proof fn lemma_lower_params(params: Seq<Node>, from: int, acc: Seq<IR>)
    ensures
        lower_params(params, from, acc) == ({
        if from < 0 || from >= params.len() {
            Ok(acc)
        } else {
            match params[from] {
                Node::LVar(offset) => lower_params(
                    params,
                    from + 1,
                    acc.push(
                        IR {
                            op: IROp::StoreArg(8),
                            lhs: Some(word(offset)),
                            rhs: Some(from as usize),
                        },
                    ),
                ),
                _ => Err(LowerError::BadParameter),
            }
        }
        }),
{
    reveal(lower_params);
}

/// The defining equation of [`lower_program_from`].
pub proof fn lemma_lower_program_from(nodes: Seq<Node>, from: int, acc: Seq<FunctionView>)
    ensures
        lower_program_from(nodes, from, acc) == ({
        if from < 0 || from >= nodes.len() {
            Ok(acc)
        } else {
            match lower_function(nodes[from]) {
                Err(e) => Err(e),
                Ok(f) => lower_program_from(nodes, from + 1, acc.push(f.function)),
            }
        }
        }),
{
    reveal(lower_program_from);
}

impl IR {
    /// The instruction with the given opcode and operands.
    pub fn new(op: IROp, lhs: Option<usize>, rhs: Option<usize>) -> (ir: Self)
        ensures
            ir == (IR { op, lhs, rhs }),
    {
        IR { op, lhs, rhs }
    }
}

impl Function {
    /// The function with the given name, instructions and frame size.
    pub fn new(name: String, code: Vec<IR>, stacksize: usize) -> (f: Self)
        ensures
            f == (Function { name, code, stacksize }),
    {
        Function { name, code, stacksize }
    }
}

/// The lowering of one function at work: the instructions so far, and the
/// numbers of virtual registers and of labels handed out so far.
pub struct IrGenerator {
    code: Vec<IR>,
    num_regs: usize,
    num_labels: usize,
}

impl IrGenerator {
    /// The instructions so far.
    pub closed spec fn code(&self) -> Seq<IR> {
        self.code@
    }

    /// The number of virtual registers handed out so far.
    pub closed spec fn regs(&self) -> nat {
        self.num_regs as nat
    }

    /// The number of labels handed out so far.
    pub closed spec fn labels(&self) -> nat {
        self.num_labels as nat
    }

    /// No more registers and no more labels were handed out than there are
    /// instructions: so both numbers fit their type.
    pub closed spec fn wf(&self) -> bool {
        self.num_regs <= self.code@.len() && self.num_labels <= self.code@.len()
    }

    /// Whether this generator is what `before` becomes by lowering an
    /// expression whose instructions are `expected`, and `r` the register
    /// returned: the instructions stand behind those of `before`.
    pub open spec fn lowered(
        &self,
        before: &Self,
        r: Result<usize, LowerError>,
        expected: Result<Lowered, LowerError>,
    ) -> bool {
        match expected {
            Ok(l) => {
                &&& self.wf()
                &&& r == Ok::<usize, LowerError>(l.reg as usize)
                &&& l.reg == l.reg as usize
                &&& l.code.len() >= 1
                &&& self.code() == before.code() + l.code
                &&& self.regs() == l.regs
                &&& self.labels() == before.labels()
            },
            Err(e) => r == Err::<usize, LowerError>(e),
        }
    }

    /// As [`Self::lowered`], for a statement.
    pub open spec fn emitted(
        &self,
        before: &Self,
        r: Result<(), LowerError>,
        expected: Result<Emitted, LowerError>,
    ) -> bool {
        match expected {
            Ok(s) => {
                &&& self.wf()
                &&& r is Ok
                &&& self.code() == before.code() + s.code
                &&& self.regs() == s.regs
                &&& self.labels() == s.labels
            },
            Err(e) => r == Err::<(), LowerError>(e),
        }
    }

    /// A generator that starts behind the instructions `code`, with no
    /// register and no label handed out.
    pub fn new(code: Vec<IR>) -> (g: Self)
        ensures
            g.wf(),
            g.code() == code@,
            g.regs() == 0,
            g.labels() == 0,
    {
        Self { code, num_regs: 0, num_labels: 0 }
    }

    /// The number of virtual registers handed out so far.
    pub fn num_regs(&self) -> (n: usize)
        ensures
            n == self.regs(),
    {
        self.num_regs
    }

    /// The number of labels handed out so far.
    pub fn num_labels(&self) -> (n: usize)
        ensures
            n == self.labels(),
    {
        self.num_labels
    }

    /// Appends one instruction.
    fn add(&mut self, op: IROp, lhs: Option<usize>, rhs: Option<usize>)
        ensures
            final(self).code@ == old(self).code@.push(IR { op, lhs, rhs }),
            final(self).num_regs == old(self).num_regs,
            final(self).num_labels == old(self).num_labels,
    {
        self.code.push(IR::new(op, lhs, rhs));
    }

    /// Appends a load of eight bytes.
    fn load(&mut self, dst: Option<usize>, src: Option<usize>)
        ensures
            final(self).code@ == old(self).code@.push(IR { op: IROp::Load(8), lhs: dst, rhs: src }),
            final(self).num_regs == old(self).num_regs,
            final(self).num_labels == old(self).num_labels,
    {
        self.add(IROp::Load(8), dst, src);
    }

    /// Appends a store of eight bytes.
    fn store(&mut self, dst: Option<usize>, src: Option<usize>)
        ensures
            final(self).code@ == old(self).code@.push(
                IR { op: IROp::Store(8), lhs: dst, rhs: src },
            ),
            final(self).num_regs == old(self).num_regs,
            final(self).num_labels == old(self).num_labels,
    {
        self.add(IROp::Store(8), dst, src);
    }

    /// Appends the store of an argument of eight bytes.
    fn store_arg(&mut self, bpoff: Option<usize>, argreg: Option<usize>)
        ensures
            final(self).code@ == old(self).code@.push(
                IR { op: IROp::StoreArg(8), lhs: bpoff, rhs: argreg },
            ),
            final(self).num_regs == old(self).num_regs,
            final(self).num_labels == old(self).num_labels,
    {
        self.add(IROp::StoreArg(8), bpoff, argreg);
    }

    /// Appends the instruction that takes the next register, and hands the
    /// register out.
    fn add_value(&mut self, op: IROp, rhs: Option<usize>) -> (r: usize)
        requires
            old(self).wf(),
        ensures
            final(self).wf(),
            r == old(self).num_regs,
            final(self).code@ == old(self).code@.push(IR { op, lhs: Some(r), rhs }),
            final(self).num_regs == old(self).num_regs + 1,
            final(self).num_labels == old(self).num_labels,
    {
        let r = self.num_regs;
        self.add(op, Some(r), rhs);
        let len = self.code.len();
        self.num_regs += 1;
        r
    }

    /// Lowers the target of an assignment: [`lower_lval`].
    fn gen_lval(&mut self, node: &NodeType) -> (r: Result<usize, LowerError>)
        requires
            old(self).wf(),
        ensures
            final(self).lowered(old(self), r, lower_lval(node@, old(self).regs())),
    {
        match node {
            NodeType::LVar(offset) => {
                let bpoff = #[verifier::truncate]
                (*offset as usize);
                let r = self.add_value(IROp::Bprel, Some(bpoff));
                assert(self.code@ =~= old(self).code@ + lower_lval(node@, old(self).regs())->Ok_0.code);
                Ok(r)
            },
            _ => Err(LowerError::NotAnLvalue),
        }
    }

    /// Appends the binary operation `op` on the registers `lhs` and `rhs`,
    /// and returns the register of the result, `lhs`.
    fn gen_binop(&mut self, op: IROp, lhs: usize, rhs: usize) -> (r: usize)
        ensures
            r == lhs,
            final(self).code@ == old(self).code@.push(IR { op, lhs: Some(lhs), rhs: Some(rhs) }),
            final(self).num_regs == old(self).num_regs,
            final(self).num_labels == old(self).num_labels,
    {
        self.add(op, Some(lhs), Some(rhs));
        lhs
    }

    /// Lowers an expression: [`lower_expr`].
    pub fn gen_expr(&mut self, node: &NodeType) -> (r: Result<usize, LowerError>)
        requires
            old(self).wf(),
        ensures
            final(self).lowered(old(self), r, lower_expr(node@, old(self).regs())),
        decreases node,
    {
        proof {
            lemma_lower_expr(node@, self.regs());
        }
        let binary = match node {
            NodeType::Plus(lhs, rhs) => Some((IROp::Add, lhs, rhs)),
            NodeType::Minus(lhs, rhs) => Some((IROp::Sub, lhs, rhs)),
            NodeType::Mul(lhs, rhs) => Some((IROp::Mul, lhs, rhs)),
            NodeType::Div(lhs, rhs) => Some((IROp::Div, lhs, rhs)),
            NodeType::Eq(lhs, rhs) => Some((IROp::Eq, lhs, rhs)),
            NodeType::Ne(lhs, rhs) => Some((IROp::Ne, lhs, rhs)),
            NodeType::Lt(lhs, rhs) => Some((IROp::Lt, lhs, rhs)),
            NodeType::Le(lhs, rhs) => Some((IROp::Le, lhs, rhs)),
            _ => None,
        };
        if let Some((op, lhs, rhs)) = binary {
            let ghost start = self.code@;
            let l = match self.gen_expr(&**lhs) {
                Ok(l) => l,
                Err(e) => {
                    return Err(e);
                },
            };
            let ghost middle = self.code@;
            let r = match self.gen_expr(&**rhs) {
                Ok(r) => r,
                Err(e) => {
                    return Err(e);
                },
            };
            let ghost done = self.code@;
            let reg = self.gen_binop(op, l, r);
            proof {
                let a = lower_expr((**lhs)@, old(self).regs())->Ok_0;
                let b = lower_expr((**rhs)@, a.regs)->Ok_0;
                assert(self.code@ =~= start + (a.code + b.code + seq![ir2(op, a.reg, b.reg)]));
            }
            return Ok(reg);
        }
        match node {
            NodeType::Num(val) => {
                let imm = #[verifier::truncate]
                (*val as usize);
                let r = self.add_value(IROp::Imm, Some(imm));
                assert(self.code@ =~= old(self).code@ + seq![
                    IR { op: IROp::Imm, lhs: Some(r), rhs: Some(imm) },
                ]);
                Ok(r)
            },
            NodeType::LVar(_) => {
                let r = match self.gen_lval(node) {
                    Ok(r) => r,
                    Err(e) => {
                        return Err(e);
                    },
                };
                self.load(Some(r), Some(r));
                assert(self.code@ =~= old(self).code@ + lower_variable(
                    node@->LVar_0,
                    old(self).regs(),
                ).code);
                Ok(r)
            },
            NodeType::Negative(operand) => {
                let zero = self.add_value(IROp::Imm, Some(0));
                let r = match self.gen_expr(&**operand) {
                    Ok(r) => r,
                    Err(e) => {
                        return Err(e);
                    },
                };
                let reg = self.gen_binop(IROp::Sub, zero, r);
                proof {
                    let a = lower_expr((**operand)@, old(self).regs() + 1)->Ok_0;
                    assert(self.code@ =~= old(self).code@ + (seq![
                        IR { op: IROp::Imm, lhs: Some(zero), rhs: Some(0) },
                    ] + a.code + seq![ir2(IROp::Sub, zero as nat, a.reg)]));
                }
                Ok(reg)
            },
            NodeType::Assign(target, value) => {
                let rhs = match self.gen_expr(&**value) {
                    Ok(rhs) => rhs,
                    Err(e) => {
                        return Err(e);
                    },
                };
                let lhs = match self.gen_lval(&**target) {
                    Ok(lhs) => lhs,
                    Err(e) => {
                        return Err(e);
                    },
                };
                self.store(Some(lhs), Some(rhs));
                proof {
                    let v = lower_expr((**value)@, old(self).regs())->Ok_0;
                    let a = lower_lval((**target)@, v.regs)->Ok_0;
                    assert(self.code@ =~= old(self).code@ + (v.code + a.code + seq![
                        ir2(IROp::Store(8), a.reg, v.reg),
                    ]));
                }
                Ok(rhs)
            },
            _ => Err(LowerError::UnknownExpr),
        }
    }

    /// Lowers a statement: [`lower_stmt`].
    pub fn gen_stmt(&mut self, node: &NodeType) -> (r: Result<(), LowerError>)
        requires
            old(self).wf(),
        ensures
            final(self).emitted(
                old(self),
                r,
                lower_stmt(node@, old(self).regs(), old(self).labels()),
            ),
        decreases node,
    {
        proof {
            lemma_lower_stmt(node@, self.regs(), self.labels());
        }
        match node {
            NodeType::Return(expr) => {
                let r = match self.gen_expr(&**expr) {
                    Ok(r) => r,
                    Err(e) => {
                        return Err(e);
                    },
                };
                self.add(IROp::Return, Some(r), None);
                proof {
                    let v = lower_expr((**expr)@, old(self).regs())->Ok_0;
                    assert(self.code@ =~= old(self).code@ + (v.code + seq![
                        ir1(IROp::Return, v.reg),
                    ]));
                }
                Ok(())
            },
            NodeType::ExprStmt(expr) => {
                match self.gen_expr(&**expr) {
                    Ok(_) => Ok(()),
                    Err(e) => Err(e),
                }
            },
            NodeType::Block(stmts) => self.gen_stmts(stmts),
            NodeType::If(cond, then, otherwise) => {
                let r = match self.gen_expr(&**cond) {
                    Ok(r) => r,
                    Err(e) => {
                        return Err(e);
                    },
                };
                let ghost c = lower_expr((**cond)@, old(self).regs())->Ok_0;
                let label = self.num_labels;
                self.add(IROp::Unless, Some(r), Some(label));
                let len = self.code.len();
                match otherwise {
                    None => {
                        self.num_labels += 1;
                        match self.gen_stmt(&**then) {
                            Ok(()) => {},
                            Err(e) => {
                                return Err(e);
                            },
                        }
                        self.add(IROp::Label, Some(label), None);
                        proof {
                            let t = lower_stmt((**then)@, c.regs, old(self).labels() + 1)->Ok_0;
                            assert(self.code@ =~= old(self).code@ + (c.code + seq![
                                ir2(IROp::Unless, c.reg, label as nat),
                            ] + t.code + seq![ir1(IROp::Label, label as nat)]));
                        }
                        Ok(())
                    },
                    Some(otherwise) => {
                        self.num_labels += 2;
                        match self.gen_stmt(&**then) {
                            Ok(()) => {},
                            Err(e) => {
                                return Err(e);
                            },
                        }
                        self.add(IROp::Jmp, Some(label + 1), None);
                        self.add(IROp::Label, Some(label), None);
                        let ghost t = lower_stmt((**then)@, c.regs, old(self).labels() + 2)->Ok_0;
                        match self.gen_stmt(&**otherwise) {
                            Ok(()) => {},
                            Err(e) => {
                                return Err(e);
                            },
                        }
                        self.add(IROp::Label, Some(label + 1), None);
                        proof {
                            let f = lower_stmt((**otherwise)@, t.regs, t.labels)->Ok_0;
                            assert(self.code@ =~= old(self).code@ + (c.code + seq![
                                ir2(IROp::Unless, c.reg, label as nat),
                            ] + t.code + seq![
                                ir1(IROp::Jmp, (label + 1) as nat),
                                ir1(IROp::Label, label as nat),
                            ] + f.code + seq![ir1(IROp::Label, (label + 1) as nat)]));
                        }
                        Ok(())
                    },
                }
            },
            _ => Err(LowerError::UnknownStmt),
        }
    }

    /// Lowers a list of statements in order: [`lower_stmts`].
    pub fn gen_stmts(&mut self, stmts: &Vec<NodeType>) -> (r: Result<(), LowerError>)
        requires
            old(self).wf(),
        ensures
            final(self).emitted(
                old(self),
                r,
                lower_stmts(
                    nodes_view(stmts@),
                    0,
                    Emitted {
                        code: Seq::empty(),
                        regs: old(self).regs(),
                        labels: old(self).labels(),
                    },
                ),
            ),
        decreases stmts,
    {
        let mut i: usize = 0;
        assert(self.code@.skip(old(self).code@.len() as int) =~= Seq::<IR>::empty());
        while i < stmts.len()
            invariant
                self.wf(),
                i <= stmts.len(),
                old(self).code@.len() <= self.code@.len(),
                self.code@.take(old(self).code@.len() as int) == old(self).code@,
                lower_stmts(
                    nodes_view(stmts@),
                    0,
                    Emitted {
                        code: Seq::empty(),
                        regs: old(self).regs(),
                        labels: old(self).labels(),
                    },
                ) == lower_stmts(
                    nodes_view(stmts@),
                    i as int,
                    Emitted {
                        code: self.code@.skip(old(self).code@.len() as int),
                        regs: self.regs(),
                        labels: self.labels(),
                    },
                ),
            decreases stmts.len() - i,
        {
            let ghost before = self.code@;
            let ghost before_regs = self.regs();
            let ghost before_labels = self.labels();
            let ghost n = old(self).code@.len() as int;
            proof {
                lemma_lower_stmts(
                    nodes_view(stmts@),
                    i as int,
                    Emitted { code: before.skip(n), regs: self.regs(), labels: self.labels() },
                );
            }
            assert(nodes_view(stmts@)[i as int] == stmts[i as int]@);
            match self.gen_stmt(&stmts[i]) {
                Ok(()) => {},
                Err(e) => {
                    return Err(e);
                },
            }
            proof {
                let s = lower_stmt(
                    stmts[i as int]@,
                    before_regs,
                    before_labels,
                )->Ok_0;
                assert(self.code@ == before + s.code);
                assert(self.code@.skip(n) =~= before.skip(n) + s.code);
                assert(self.code@.take(n) =~= before.take(n));
            }
            i += 1;
        }
        proof {
            let n = old(self).code@.len() as int;
            lemma_lower_stmts(
                nodes_view(stmts@),
                i as int,
                Emitted { code: self.code@.skip(n), regs: self.regs(), labels: self.labels() },
            );
            assert(self.code@ =~= self.code@.take(n) + self.code@.skip(n));
        }
        Ok(())
    }
}

/// Lowers one function: its instructions, the number of virtual registers
/// and the number of labels that they use. The labels and jumps of the
/// instructions are balanced, and the instructions do what the function
/// says.
#[verifier::loop_isolation(false)]
pub fn gen_function(node: &NodeType) -> (r: Result<(Function, usize, usize), LowerError>)
    ensures
        match lower_function(node@) {
            Ok(f) => {
                &&& r is Ok
                &&& r->Ok_0.0@ == f.function
                &&& r->Ok_0.1 == f.regs
                &&& r->Ok_0.2 == f.labels
                &&& balanced(f.function.code, 0, f.labels)
                &&& implements(f.function.code, node@)
            },
            Err(e) => r == Err::<(Function, usize, usize), LowerError>(e),
        },
{
    proof {
        lemma_function_is_balanced(node@);
    }
    match node {
        NodeType::Func(name, params, body, stacksize) => {
            let mut generator = IrGenerator::new(Vec::new());
            let mut i: usize = 0;
            while i < params.len()
                invariant
                    i <= params.len(),
                    generator.wf(),
                    generator.regs() == 0,
                    generator.labels() == 0,
                    lower_params(nodes_view(params@), 0, Seq::empty()) == lower_params(
                        nodes_view(params@),
                        i as int,
                        generator.code(),
                    ),
                decreases params.len() - i,
            {
                proof {
                    lemma_lower_params(nodes_view(params@), i as int, generator.code());
                }
                assert(nodes_view(params@)[i as int] == params[i as int]@);
                match &params[i] {
                    NodeType::LVar(offset) => {
                        let bpoff = #[verifier::truncate]
                        (*offset as usize);
                        generator.store_arg(Some(bpoff), Some(i));
                    },
                    _ => {
                        return Err(LowerError::BadParameter);
                    },
                }
                i += 1;
            }
            proof {
                lemma_lower_params(nodes_view(params@), i as int, generator.code());
            }
            assert(node@ == Node::Func(
                name@,
                nodes_view(params@),
                Box::new((**body)@),
                *stacksize as nat,
            ));
            assert((**body)@ is CompStmt <==> **body is CompStmt);
            match &**body {
                NodeType::CompStmt(stmts) => {
                    match generator.gen_stmts(stmts) {
                        Ok(()) => {},
                        Err(e) => {
                            return Err(e);
                        },
                    }
                },
                _ => {
                    return Err(LowerError::BadBody);
                },
            }
            let regs = generator.num_regs;
            let labels = generator.num_labels;
            proof {
                assert(lower_function(node@) is Ok);
                lemma_function_is_implemented(node@);
            }
            Ok((Function::new(name.clone(), generator.code, *stacksize), regs, labels))
        },
        _ => Err(LowerError::NotAFunction),
    }
}

/// Lowers the functions of a program in order. The result is the first
/// tree that cannot be lowered, if there is one. In every function that
/// comes out, each jump goes forward to a label that has one place, each
/// label is where a jump before it goes to, and the instructions do what
/// the function says.
pub fn gen_ir(nodes: Vec<NodeType>) -> (r: Result<Vec<Function>, LowerError>)
    ensures
        match lower_program(nodes_view(nodes@)) {
            Ok(fns) => r is Ok && functions_view(r->Ok_0@) == fns,
            Err(e) => r == Err::<Vec<Function>, LowerError>(e),
        },
        r matches Ok(fns) ==> forall|i: int|
            0 <= i < fns.len() ==> well_labelled((#[trigger] fns[i]).code@),
        r matches Ok(fns) ==> fns.len() == nodes.len() && forall|i: int|
            0 <= i < fns.len() ==> implements((#[trigger] fns[i]).code@, nodes[i]@),
{
    let mut funcs: Vec<Function> = Vec::new();
    let mut i: usize = 0;
    assert(functions_view(funcs@) =~= Seq::<FunctionView>::empty());
    while i < nodes.len()
        invariant
            i <= nodes.len(),
            forall|k: int| 0 <= k < funcs.len() ==> well_labelled((#[trigger] funcs[k]).code@),
            funcs.len() == i,
            forall|k: int|
                0 <= k < funcs.len() ==> implements((#[trigger] funcs[k]).code@, nodes[k]@),
            lower_program(nodes_view(nodes@)) == lower_program_from(
                nodes_view(nodes@),
                i as int,
                functions_view(funcs@),
            ),
        decreases nodes.len() - i,
    {
        proof {
            lemma_lower_program_from(nodes_view(nodes@), i as int, functions_view(funcs@));
        }
        assert(nodes_view(nodes@)[i as int] == nodes[i as int]@);
        match gen_function(&nodes[i]) {
            Ok((f, _, labels)) => {
                assert(balanced(f.code@, 0, labels as nat));
                assert(functions_view(funcs@.push(f)) =~= functions_view(funcs@).push(f@));
                funcs.push(f);
            },
            Err(e) => {
                return Err(e);
            },
        }
        i += 1;
    }
    proof {
        lemma_lower_program_from(nodes_view(nodes@), i as int, functions_view(funcs@));
    }
    Ok(funcs)
}

} // verus!
