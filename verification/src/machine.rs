//! What lowered instructions compute.
//!
//! A machine over the integers runs instructions: [`step`] and [`run`] say
//! what the instructions without jumps do, [`execute`] what a whole list of
//! instructions does. [`eval`] and [`effect`] say what an expression and a
//! statement of the language mean. The proofs show that the instructions of
//! an expression, of a statement and of a function do what the expression,
//! the statement and the function mean.
//!
//! The machine computes with integers of any size: the numbers of the
//! target, which wrap around at 64 bits, are not modelled.

use vstd::prelude::*;
use crate::gen_ir::{
    Emitted, IR, IROp, ir1, ir2, lemma_lower_expr, lemma_lower_params, lemma_lower_stmt,
    lemma_lower_stmts, lower_expr, lower_function, lower_lval, lower_params, lower_stmt,
    lower_stmts, regs_after, state_after, word,
};
use crate::labels::{defines, lemma_stmt_is_balanced};
use crate::parse::{Node, all_in_range, in_range};

verus! {

/// The state of the machine: what the registers hold, what the memory
/// holds at each address, and the arguments that the function was called
/// with. The frame pointer is the address zero.
pub ghost struct Machine {
    pub regs: Map<usize, int>,
    pub memory: Map<int, int>,
    pub args: Seq<int>,
}

/// The number that the immediate operand `v` stands for: its low 32 bits as
/// a signed integer.
pub open spec fn imm_value(v: usize) -> int {
    (v as i32) as int
}

/// The address `offset` bytes below the frame pointer.
pub open spec fn address(offset: usize) -> int {
    -(offset as int)
}

/// The quotient of `a` by `b`, rounded towards zero.
pub open spec fn quotient(a: int, b: int) -> int {
    if a >= 0 && b > 0 {
        a / b
    } else if a < 0 && b > 0 {
        -((-a) / b)
    } else if a >= 0 && b < 0 {
        -(a / (-b))
    } else {
        (-a) / (-b)
    }
}

/// One for true, zero for false.
pub open spec fn flag(b: bool) -> int {
    if b {
        1
    } else {
        0
    }
}

/// The machine `m` with `value` in the register `reg`.
pub open spec fn set(m: Machine, reg: usize, value: int) -> Machine {
    Machine { regs: m.regs.insert(reg, value), memory: m.memory, args: m.args }
}

/// What the operation `op` makes of `a` and `b`; none for a division by
/// zero and for an opcode that is no operation on two values.
pub open spec fn apply(op: IROp, a: int, b: int) -> Option<int> {
    match op {
        IROp::Add => Some(a + b),
        IROp::Sub => Some(a - b),
        IROp::Mul => Some(a * b),
        IROp::Div => if b == 0 {
            None
        } else {
            Some(quotient(a, b))
        },
        IROp::Eq => Some(flag(a == b)),
        IROp::Ne => Some(flag(a != b)),
        IROp::Lt => Some(flag(a < b)),
        IROp::Le => Some(flag(a <= b)),
        _ => None,
    }
}

/// The machine after the instruction `ir`, for an instruction that
/// computes, loads or stores; none for a division by zero, for a missing
/// operand, and for the instructions that jump, return, call, or mark a
/// place. The store of an argument takes the argument with that index.
pub open spec fn step(ir: IR, m: Machine) -> Option<Machine> {
    match (ir.op, ir.lhs, ir.rhs) {
        (IROp::Imm, Some(d), Some(v)) => Some(set(m, d, imm_value(v))),
        (IROp::Bprel, Some(d), Some(offset)) => Some(set(m, d, address(offset))),
        (IROp::Load(_), Some(d), Some(s)) => Some(set(m, d, m.memory[m.regs[s]])),
        (IROp::Store(_), Some(d), Some(s)) => Some(
            Machine { regs: m.regs, memory: m.memory.insert(m.regs[d], m.regs[s]), args: m.args },
        ),
        (IROp::StoreArg(_), Some(offset), Some(i)) => Some(
            Machine {
                regs: m.regs,
                memory: m.memory.insert(address(offset), m.args[i as int]),
                args: m.args,
            },
        ),
        (op, Some(d), Some(s)) => match apply(op, m.regs[d], m.regs[s]) {
            Some(value) => Some(set(m, d, value)),
            None => None,
        },
        _ => None,
    }
}

/// The machine after the instructions of `code` from index `from` on, one
/// after the other; none if one of them has no next state.
pub open spec fn run(code: Seq<IR>, from: int, m: Machine) -> Option<Machine>
    decreases code.len() - from,
{
    if from < 0 || from >= code.len() {
        Some(m)
    } else {
        match step(code[from], m) {
            Some(next) => run(code, from + 1, next),
            None => None,
        }
    }
}

/// The operation of a tree that is a binary operation.
pub open spec fn operation(e: Node) -> Option<(IROp, Node, Node)> {
    match e {
        Node::Plus(a, b) => Some((IROp::Add, *a, *b)),
        Node::Minus(a, b) => Some((IROp::Sub, *a, *b)),
        Node::Mul(a, b) => Some((IROp::Mul, *a, *b)),
        Node::Div(a, b) => Some((IROp::Div, *a, *b)),
        Node::Eq(a, b) => Some((IROp::Eq, *a, *b)),
        Node::Ne(a, b) => Some((IROp::Ne, *a, *b)),
        Node::Lt(a, b) => Some((IROp::Lt, *a, *b)),
        Node::Le(a, b) => Some((IROp::Le, *a, *b)),
        _ => None,
    }
}

/// The value of the expression `e` and the memory afterwards, when the
/// memory is `memory` before: operands are evaluated from the left, a
/// variable is the memory at its address, an assignment stores its value
/// and has it. None for a division by zero, and for a tree that is no
/// expression of numbers, variables, operations and assignments.
pub open spec fn eval(e: Node, memory: Map<int, int>) -> Option<(int, Map<int, int>)>
    decreases e,
{
    match e {
        Node::Num(v) => Some((v, memory)),
        Node::LVar(offset) => Some((memory[address(word(offset))], memory)),
        Node::Negative(a) => match eval(*a, memory) {
            Some((v, memory)) => Some((0 - v, memory)),
            None => None,
        },
        Node::Assign(target, value) => match (*target, eval(*value, memory)) {
            (Node::LVar(offset), Some((v, memory))) => Some(
                (v, memory.insert(address(word(offset)), v)),
            ),
            _ => None,
        },
        Node::Plus(a, b) | Node::Minus(a, b) | Node::Mul(a, b) | Node::Div(a, b) | Node::Eq(
            a,
            b,
        ) | Node::Ne(a, b) | Node::Lt(a, b) | Node::Le(a, b) => match eval(*a, memory) {
            Some((x, memory)) => match eval(*b, memory) {
                Some((y, memory)) => match apply(operation(e)->Some_0.0, x, y) {
                    Some(v) => Some((v, memory)),
                    None => None,
                },
                None => None,
            },
            None => None,
        },
        _ => None,
    }
}

/// Running two pieces of code one after the other is running the first
/// and then the second.
pub proof fn lemma_run_concat(a: Seq<IR>, b: Seq<IR>, from: int, m: Machine)
    requires
        0 <= from <= a.len(),
    ensures
        run(a + b, from, m) == match run(a, from, m) {
            Some(middle) => run(b, 0, middle),
            None => None,
        },
    decreases a.len() - from,
{
    if from < a.len() {
        assert((a + b)[from] == a[from]);
        match step(a[from], m) {
            Some(next) => lemma_run_concat(a, b, from + 1, next),
            None => {},
        }
    } else {
        lemma_run_shift(a, b, 0, m);
    }
}

/// Running the second of two pieces of code from inside the whole is
/// running it by itself.
pub proof fn lemma_run_shift(a: Seq<IR>, b: Seq<IR>, from: int, m: Machine)
    requires
        0 <= from <= b.len(),
    ensures
        run(a + b, a.len() + from, m) == run(b, from, m),
    decreases b.len() - from,
{
    if from < b.len() {
        assert((a + b)[a.len() + from] == b[from]);
        match step(b[from], m) {
            Some(next) => lemma_run_shift(a, b, from + 1, next),
            None => {},
        }
    }
}

/// Running one instruction is taking its step.
pub proof fn lemma_run_one(ir: IR, m: Machine)
    ensures
        run(seq![ir], 0, m) == step(ir, m),
{
    reveal_with_fuel(run, 2);
}

/// The value of an expression comes in the first register that is free
/// before it, and the expression takes at least that register.
pub proof fn lemma_expr_register(e: Node, regs: nat)
    ensures
        lower_expr(e, regs) matches Ok(l) ==> l.reg == regs && regs < l.regs,
    decreases e,
{
    lemma_lower_expr(e, regs);
    match e {
        Node::Plus(a, b) | Node::Minus(a, b) | Node::Mul(a, b) | Node::Div(a, b) | Node::Eq(
            a,
            b,
        ) | Node::Ne(a, b) | Node::Lt(a, b) | Node::Le(a, b) => {
            lemma_expr_register(*a, regs);
            lemma_expr_register(*b, regs_after(lower_expr(*a, regs)));
        },
        Node::Negative(a) => {
            lemma_expr_register(*a, regs + 1);
        },
        Node::Assign(target, value) => {
            lemma_expr_register(*value, regs);
        },
        _ => {},
    }
}

/// Whether the machine `after` is what the instructions of an expression
/// may make of `before`, when `regs` registers were in use before: the
/// registers in use are as they were.
pub open spec fn keeps(before: Machine, after: Machine, regs: nat) -> bool {
    forall|r: usize| r < regs ==> #[trigger] after.regs[r] == before.regs[r]
}

/// The instructions of an expression compute it: run on any machine, they
/// leave the value of the expression in its register and the memory as the
/// expression leaves it, and they do not touch the registers that were in
/// use before.
///
/// This holds for an expression that has a value (it does not divide by
/// zero), whose literals are numbers that a token can hold, and whose
/// registers can be counted in a `usize`.
pub proof fn lemma_expr_computes(e: Node, regs: nat, m: Machine)
    requires
        lower_expr(e, regs) is Ok,
        lower_expr(e, regs)->Ok_0.regs <= usize::MAX,
        in_range(e),
        eval(e, m.memory) is Some,
    ensures
        run(lower_expr(e, regs)->Ok_0.code, 0, m) matches Some(after) && {
            &&& after.regs[regs as usize] == eval(e, m.memory)->Some_0.0
            &&& after.memory == eval(e, m.memory)->Some_0.1
            &&& keeps(m, after, regs)
        },
    decreases e,
{
    lemma_lower_expr(e, regs);
    lemma_expr_register(e, regs);
    let done = lower_expr(e, regs)->Ok_0;
    match e {
        Node::Num(v) => {
            lemma_run_one(done.code[0], m);
            assert(done.code =~= seq![done.code[0]]);
        },
        Node::LVar(offset) => {
            reveal_with_fuel(run, 3);
        },
        Node::Negative(a) => {
            let zero = IR { op: IROp::Imm, lhs: Some(regs as usize), rhs: Some(0) };
            let operand = lower_expr(*a, regs + 1)->Ok_0;
            let sub = ir2(IROp::Sub, regs, operand.reg);
            lemma_expr_register(*a, regs + 1);
            let m1 = step(zero, m)->Some_0;
            lemma_expr_computes(*a, regs + 1, m1);
            let m2 = run(operand.code, 0, m1)->Some_0;
            lemma_run_one(zero, m);
            lemma_run_one(sub, m2);
            lemma_run_concat(seq![zero], operand.code, 0, m);
            lemma_run_concat(seq![zero] + operand.code, seq![sub], 0, m);
            assert(m2.regs[regs as usize] == m1.regs[regs as usize]);
        },
        Node::Assign(target, value) => {
            let v = lower_expr(*value, regs)->Ok_0;
            lemma_expr_register(*value, regs);
            lemma_expr_computes(*value, regs, m);
            let m1 = run(v.code, 0, m)->Some_0;
            let a = lower_lval(*target, v.regs)->Ok_0;
            let store = ir2(IROp::Store(8), a.reg, v.reg);
            lemma_run_one(a.code[0], m1);
            assert(a.code =~= seq![a.code[0]]);
            let m2 = step(a.code[0], m1)->Some_0;
            lemma_run_one(store, m2);
            lemma_run_concat(v.code, a.code, 0, m);
            lemma_run_concat(v.code + a.code, seq![store], 0, m);
        },
        Node::Plus(a, b) | Node::Minus(a, b) | Node::Mul(a, b) | Node::Div(a, b) | Node::Eq(
            a,
            b,
        ) | Node::Ne(a, b) | Node::Lt(a, b) | Node::Le(a, b) => {
            let op = operation(e)->Some_0.0;
            let l = lower_expr(*a, regs)->Ok_0;
            lemma_expr_register(*a, regs);
            let r = lower_expr(*b, l.regs)->Ok_0;
            lemma_expr_register(*b, l.regs);
            lemma_expr_computes(*a, regs, m);
            let m1 = run(l.code, 0, m)->Some_0;
            lemma_expr_computes(*b, l.regs, m1);
            let m2 = run(r.code, 0, m1)->Some_0;
            let last = ir2(op, l.reg, r.reg);
            lemma_run_one(last, m2);
            lemma_run_concat(l.code, r.code, 0, m);
            lemma_run_concat(l.code + r.code, seq![last], 0, m);
            assert(m2.regs[regs as usize] == m1.regs[regs as usize]);
        },
        _ => {},
    }
}

/// How a run of instructions ends: with a `Return` of a value, or at the
/// place where it was to end.
pub ghost enum Outcome {
    Returned(int),
    Finished(Machine),
}

/// The first place of the label `id` in `code` at or behind index `from`.
pub open spec fn place(code: Seq<IR>, id: usize, from: int) -> Option<int>
    decreases code.len() - from,
{
    if from < 0 || from >= code.len() {
        None
    } else if defines(code[from], id) {
        Some(from)
    } else {
        place(code, id, from + 1)
    }
}

/// Whether the instruction `ir` computes, loads or stores, and goes on
/// with the next instruction.
pub open spec fn computes(ir: IR) -> bool {
    match ir.op {
        IROp::Return | IROp::Label | IROp::Jmp | IROp::Unless | IROp::Call(_, _) => false,
        _ => true,
    }
}

/// Where control goes from the instruction at `pc` when it jumps to the
/// label `id`: forward to the first place of the label.
pub open spec fn jump(code: Seq<IR>, pc: int, id: usize) -> Option<int> {
    match place(code, id, pc + 1) {
        Some(to) => if pc < to < code.len() {
            Some(to)
        } else {
            None
        },
        None => None,
    }
}

/// How the instructions of `code` end when they run from index `pc` on the
/// machine `m`, up to the index `end`. A jump goes forward to the first
/// place of its label; a conditional jump is taken when its register holds
/// zero. None if an instruction has no next state, if a jump has no place
/// to go to, or if control leaves the instructions before `end`.
pub open spec fn execute(code: Seq<IR>, pc: int, end: int, m: Machine) -> Option<Outcome>
    decreases code.len() - pc,
{
    if pc == end {
        Some(Outcome::Finished(m))
    } else if pc < 0 || pc > end || pc >= code.len() {
        None
    } else {
        let ir = code[pc];
        match (ir.op, ir.lhs, ir.rhs) {
            (IROp::Return, Some(r), _) => Some(Outcome::Returned(m.regs[r])),
            (IROp::Label, _, _) => execute(code, pc + 1, end, m),
            (IROp::Jmp, Some(id), _) => match jump(code, pc, id) {
                Some(to) => execute(code, to, end, m),
                None => None,
            },
            (IROp::Unless, Some(r), Some(id)) => if m.regs[r] != 0 {
                execute(code, pc + 1, end, m)
            } else {
                match jump(code, pc, id) {
                    Some(to) => execute(code, to, end, m),
                    None => None,
                }
            },
            _ => if computes(ir) {
                match step(ir, m) {
                    Some(next) => execute(code, pc + 1, end, next),
                    None => None,
                }
            } else {
                None
            },
        }
    }
}

/// How a statement ends: with a `return` of a value, or with control going
/// on behind it and the memory as it leaves it.
pub ghost enum Flow {
    Returns(int),
    Continues(Map<int, int>),
}

/// How the statement `s` ends when the memory is `memory` before. A
/// conditional takes its then-branch when its condition is not zero. None
/// if an expression has no value, and for a tree that is no statement made
/// of `return`, expressions, blocks and conditionals.
pub open spec fn effect(s: Node, memory: Map<int, int>) -> Option<Flow>
    decreases s, 0nat,
{
    match s {
        Node::Return(e) => match eval(*e, memory) {
            Some((v, _)) => Some(Flow::Returns(v)),
            None => None,
        },
        Node::ExprStmt(e) => match eval(*e, memory) {
            Some((_, memory)) => Some(Flow::Continues(memory)),
            None => None,
        },
        Node::Block(stmts) => effects(stmts, 0, memory),
        Node::If(c, t, None) => match eval(*c, memory) {
            Some((v, memory)) => if v != 0 {
                effect(*t, memory)
            } else {
                Some(Flow::Continues(memory))
            },
            None => None,
        },
        Node::If(c, t, Some(f)) => match eval(*c, memory) {
            Some((v, memory)) => if v != 0 {
                effect(*t, memory)
            } else {
                effect(*f, memory)
            },
            None => None,
        },
        _ => None,
    }
}

/// How the statements of `stmts` from index `from` on end, one after the
/// other: with the first `return` that is reached, or behind the last
/// statement.
pub open spec fn effects(stmts: Seq<Node>, from: int, memory: Map<int, int>) -> Option<Flow>
    decreases stmts, stmts.len() - from,
{
    if from < 0 || from >= stmts.len() {
        Some(Flow::Continues(memory))
    } else {
        match effect(stmts[from], memory) {
            Some(Flow::Continues(memory)) => effects(stmts, from + 1, memory),
            other => other,
        }
    }
}

/// Whether every instruction of `code` computes, loads or stores.
pub open spec fn computing(code: Seq<IR>) -> bool {
    forall|i: int| 0 <= i < code.len() ==> computes(#[trigger] code[i])
}

/// The instructions of an expression compute, load or store: none of them
/// jumps or returns.
pub proof fn lemma_expr_is_computing(e: Node, regs: nat)
    ensures
        lower_expr(e, regs) matches Ok(l) ==> computing(l.code),
    decreases e,
{
    lemma_lower_expr(e, regs);
    match e {
        Node::Plus(a, b) | Node::Minus(a, b) | Node::Mul(a, b) | Node::Div(a, b) | Node::Eq(
            a,
            b,
        ) | Node::Ne(a, b) | Node::Lt(a, b) | Node::Le(a, b) => {
            lemma_expr_is_computing(*a, regs);
            lemma_expr_is_computing(*b, regs_after(lower_expr(*a, regs)));
        },
        Node::Negative(a) => {
            lemma_expr_is_computing(*a, regs + 1);
        },
        Node::Assign(target, value) => {
            lemma_expr_is_computing(*value, regs);
        },
        _ => {},
    }
}

/// Inside any code, a piece that computes runs as [`run`] says and goes
/// on behind itself: `before + piece + behind`, run from inside `piece` up
/// to an index behind `piece`, ends as it ends when run from the start of
/// `behind` on the machine that `piece` leaves.
pub proof fn lemma_execute_computing(
    before: Seq<IR>,
    piece: Seq<IR>,
    behind: Seq<IR>,
    from: int,
    end: int,
    m: Machine,
)
    requires
        computing(piece),
        0 <= from <= piece.len(),
        before.len() + piece.len() <= end,
    ensures
        execute(before + piece + behind, before.len() + from, end, m) == match run(piece, from, m) {
            Some(after) => execute(
                before + piece + behind,
                (before.len() + piece.len()) as int,
                end,
                after,
            ),
            None => None,
        },
    decreases piece.len() - from,
{
    let code = before + piece + behind;
    if from < piece.len() {
        assert(code[before.len() + from] == piece[from]);
        assert(computes(piece[from]));
        match step(piece[from], m) {
            Some(next) => lemma_execute_computing(before, piece, behind, from + 1, end, next),
            None => {},
        }
    }
}

/// A run that ends at `mid` or returns before it is the start of the run
/// up to any index behind `mid`.
pub proof fn lemma_execute_through(code: Seq<IR>, pc: int, mid: int, end: int, m: Machine)
    requires
        0 <= pc <= mid <= end,
        execute(code, pc, mid, m) is Some,
    ensures
        execute(code, pc, end, m) == match execute(code, pc, mid, m)->Some_0 {
            Outcome::Returned(v) => Some(Outcome::Returned(v)),
            Outcome::Finished(after) => execute(code, mid, end, after),
        },
    decreases code.len() - pc,
{
    if pc != mid {
        let ir = code[pc];
        match (ir.op, ir.lhs, ir.rhs) {
            (IROp::Return, Some(r), _) => {},
            (IROp::Label, _, _) => lemma_execute_through(code, pc + 1, mid, end, m),
            (IROp::Jmp, Some(id), _) => {
                let to = jump(code, pc, id)->Some_0;
                lemma_execute_through(code, to, mid, end, m);
            },
            (IROp::Unless, Some(r), Some(id)) => {
                if m.regs[r] != 0 {
                    lemma_execute_through(code, pc + 1, mid, end, m);
                } else {
                    let to = jump(code, pc, id)->Some_0;
                    lemma_execute_through(code, to, mid, end, m);
                }
            },
            _ => {
                lemma_execute_through(code, pc + 1, mid, end, step(ir, m)->Some_0);
            },
        }
    }
}

/// The first place of a label behind `from` is `to`, if `to` is a place of
/// the label and there is none between `from` and `to`.
pub proof fn lemma_place(code: Seq<IR>, id: usize, from: int, to: int)
    requires
        0 <= from <= to < code.len(),
        defines(code[to], id),
        forall|j: int| from <= j < to ==> !defines(#[trigger] code[j], id),
    ensures
        place(code, id, from) == Some(to),
    decreases to - from,
{
    if from < to {
        lemma_place(code, id, from + 1, to);
    }
}

/// Whether the run of `code` from `start` up to `end` on the machine `m`
/// ends as `flow` says.
pub open spec fn follows(code: Seq<IR>, start: int, end: int, m: Machine, flow: Flow) -> bool {
    match flow {
        Flow::Returns(v) => execute(code, start, end, m) == Some(Outcome::Returned(v)),
        Flow::Continues(memory) => execute(code, start, end, m) matches Some(
            Outcome::Finished(after),
        ) && after.memory == memory,
    }
}

/// Lowering a statement only adds registers.
pub proof fn lemma_stmt_registers(s: Node, regs: nat, labels: nat)
    ensures
        lower_stmt(s, regs, labels) matches Ok(e) ==> regs <= e.regs,
    decreases s, 0nat,
{
    lemma_lower_stmt(s, regs, labels);
    match s {
        Node::Return(e) => lemma_expr_register(*e, regs),
        Node::ExprStmt(e) => lemma_expr_register(*e, regs),
        Node::Block(stmts) => lemma_stmts_registers(
            stmts,
            0,
            Emitted { code: Seq::empty(), regs, labels },
        ),
        Node::If(c, t, None) => {
            lemma_expr_register(*c, regs);
            lemma_stmt_registers(*t, regs_after(lower_expr(*c, regs)), labels + 1);
        },
        Node::If(c, t, Some(f)) => {
            lemma_expr_register(*c, regs);
            let then = lower_stmt(*t, regs_after(lower_expr(*c, regs)), labels + 2);
            lemma_stmt_registers(*t, regs_after(lower_expr(*c, regs)), labels + 2);
            lemma_stmt_registers(*f, state_after(then).0, state_after(then).1);
        },
        _ => {},
    }
}

/// Lowering a list of statements only adds registers, and only adds
/// instructions behind those that are there.
pub proof fn lemma_stmts_registers(stmts: Seq<Node>, from: int, acc: Emitted)
    ensures
        lower_stmts(stmts, from, acc) matches Ok(e) ==> acc.regs <= e.regs && acc.code.len()
            <= e.code.len() && e.code.take(acc.code.len() as int) == acc.code,
    decreases stmts, stmts.len() - from,
{
    lemma_lower_stmts(stmts, from, acc);
    if 0 <= from < stmts.len() {
        lemma_stmt_registers(stmts[from], acc.regs, acc.labels);
        match lower_stmt(stmts[from], acc.regs, acc.labels) {
            Ok(s) => {
                let next = Emitted { code: acc.code + s.code, regs: s.regs, labels: s.labels };
                lemma_stmts_registers(stmts, from + 1, next);
                match lower_stmts(stmts, from + 1, next) {
                    Ok(e) => {
                        assert(e.code.take(acc.code.len() as int) =~= e.code.take(
                            next.code.len() as int,
                        ).take(acc.code.len() as int));
                        assert(next.code.take(acc.code.len() as int) =~= acc.code);
                    },
                    Err(_) => {},
                }
            },
            Err(_) => {},
        }
    } else {
        assert(acc.code.take(acc.code.len() as int) =~= acc.code);
    }
}

/// The instructions of a `return` inside any code end with a `Return` of
/// the value of its expression.
proof fn lemma_return_executes(
    e: Node,
    regs: nat,
    labels: nat,
    before: Seq<IR>,
    behind: Seq<IR>,
    m: Machine,
)
    requires
        lower_stmt(Node::Return(Box::new(e)), regs, labels) is Ok,
        lower_stmt(Node::Return(Box::new(e)), regs, labels)->Ok_0.regs <= usize::MAX,
        in_range(e),
        eval(e, m.memory) is Some,
    ensures
        ({
            let s = lower_stmt(Node::Return(Box::new(e)), regs, labels)->Ok_0;
            execute(
                before + s.code + behind,
                before.len() as int,
                (before.len() + s.code.len()) as int,
                m,
            )
                == Some(Outcome::Returned(eval(e, m.memory)->Some_0.0))
        }),
{
    lemma_lower_stmt(Node::Return(Box::new(e)), regs, labels);
    lemma_expr_register(e, regs);
    lemma_expr_is_computing(e, regs);
    lemma_expr_computes(e, regs, m);
    let l = lower_expr(e, regs)->Ok_0;
    let last = ir1(IROp::Return, l.reg);
    let s = lower_stmt(Node::Return(Box::new(e)), regs, labels)->Ok_0;
    let code = before + s.code + behind;
    let end = (before.len() + s.code.len()) as int;
    lemma_execute_computing(before, l.code, seq![last] + behind, 0, end, m);
    assert(before + l.code + (seq![last] + behind) =~= code);
    assert(code[(before.len() + l.code.len()) as int] == last);
}

/// The instructions of an expression statement inside any code end behind
/// themselves, with the memory as the expression leaves it.
proof fn lemma_expr_stmt_executes(
    e: Node,
    regs: nat,
    labels: nat,
    before: Seq<IR>,
    behind: Seq<IR>,
    m: Machine,
)
    requires
        lower_stmt(Node::ExprStmt(Box::new(e)), regs, labels) is Ok,
        lower_stmt(Node::ExprStmt(Box::new(e)), regs, labels)->Ok_0.regs <= usize::MAX,
        in_range(e),
        eval(e, m.memory) is Some,
    ensures
        ({
            let s = lower_stmt(Node::ExprStmt(Box::new(e)), regs, labels)->Ok_0;
            follows(
                before + s.code + behind,
                before.len() as int,
                (before.len() + s.code.len()) as int,
                m,
                Flow::Continues(eval(e, m.memory)->Some_0.1),
            )
        }),
{
    lemma_lower_stmt(Node::ExprStmt(Box::new(e)), regs, labels);
    lemma_expr_register(e, regs);
    lemma_expr_is_computing(e, regs);
    lemma_expr_computes(e, regs, m);
    let l = lower_expr(e, regs)->Ok_0;
    let end = (before.len() + l.code.len()) as int;
    lemma_execute_computing(before, l.code, behind, 0, end, m);
}

/// The shape of a conditional without an else-branch runs as a
/// conditional: behind the condition `cond`, which leaves its value in the
/// register `reg`, the run goes through `then` if the value is not zero, and
/// in any case ends behind the place of the label `id`.
proof fn lemma_if_executes(
    before: Seq<IR>,
    cond: Seq<IR>,
    then: Seq<IR>,
    behind: Seq<IR>,
    reg: usize,
    id: usize,
    m: Machine,
    m1: Machine,
    flow: Flow,
)
    requires
        computing(cond),
        run(cond, 0, m) == Some(m1),
        forall|j: int| 0 <= j < then.len() ==> !defines(#[trigger] then[j], id),
        m1.regs[reg] != 0 ==> follows(
            before + (cond + seq![IR { op: IROp::Unless, lhs: Some(reg), rhs: Some(id) }] + then
                + seq![IR { op: IROp::Label, lhs: Some(id), rhs: None }]) + behind,
            (before.len() + cond.len() + 1) as int,
            (before.len() + cond.len() + 1 + then.len()) as int,
            m1,
            flow,
        ),
        m1.regs[reg] == 0 ==> flow == Flow::Continues(m1.memory),
    ensures
        follows(
            before + (cond + seq![IR { op: IROp::Unless, lhs: Some(reg), rhs: Some(id) }] + then
                + seq![IR { op: IROp::Label, lhs: Some(id), rhs: None }]) + behind,
            before.len() as int,
            (before.len() + cond.len() + then.len() + 2) as int,
            m,
            flow,
        ),
{
    let unless = IR { op: IROp::Unless, lhs: Some(reg), rhs: Some(id) };
    let label = IR { op: IROp::Label, lhs: Some(id), rhs: None };
    let code = before + (cond + seq![unless] + then + seq![label]) + behind;
    let start = before.len() as int;
    let at_jump = start + cond.len();
    let at_label = at_jump + 1 + then.len();
    let end = at_label + 1;
    lemma_execute_computing(before, cond, seq![unless] + then + seq![label] + behind, 0, end, m);
    assert(before + cond + (seq![unless] + then + seq![label] + behind) =~= code);
    assert(code[at_jump] == unless);
    assert(code[at_label] == label);
    assert forall|j: int| at_jump + 1 <= j < at_label implies !defines(#[trigger] code[j], id) by {
        assert(code[j] == then[j - at_jump - 1]);
    }
    assert(execute(code, at_label, end, m1) == execute(code, at_label + 1, end, m1));
    if m1.regs[reg] != 0 {
        assert(execute(code, at_jump, end, m1) == execute(code, at_jump + 1, end, m1));
        lemma_execute_through(code, at_jump + 1, at_label, end, m1);
        match flow {
            Flow::Returns(v) => {},
            Flow::Continues(memory) => {
                let m2 = execute(code, at_jump + 1, at_label, m1)->Some_0->Finished_0;
                assert(execute(code, at_label, end, m2) == execute(code, at_label + 1, end, m2));
            },
        }
    } else {
        lemma_place(code, id, at_jump + 1, at_label);
        assert(jump(code, at_jump, id) == Some(at_label));
        assert(execute(code, at_jump, end, m1) == execute(code, at_label, end, m1));
    }
}

/// The shape of a conditional with an else-branch runs as a conditional:
/// behind the condition `cond`, which leaves its value in the register
/// `reg`, the run goes through `then` if the value is not zero and through
/// `other` if it is, and in any case ends behind the place of the label
/// `end_id`.
proof fn lemma_if_else_executes(
    before: Seq<IR>,
    cond: Seq<IR>,
    then: Seq<IR>,
    other: Seq<IR>,
    behind: Seq<IR>,
    reg: usize,
    else_id: usize,
    end_id: usize,
    m: Machine,
    m1: Machine,
    flow: Flow,
)
    requires
        computing(cond),
        run(cond, 0, m) == Some(m1),
        else_id != end_id,
        forall|j: int| 0 <= j < then.len() ==> !defines(#[trigger] then[j], else_id),
        forall|j: int| 0 <= j < other.len() ==> !defines(#[trigger] other[j], end_id),
        m1.regs[reg] != 0 ==> follows(
            before + (cond + seq![IR { op: IROp::Unless, lhs: Some(reg), rhs: Some(else_id) }]
                + then + seq![
                IR { op: IROp::Jmp, lhs: Some(end_id), rhs: None },
                IR { op: IROp::Label, lhs: Some(else_id), rhs: None },
            ] + other + seq![IR { op: IROp::Label, lhs: Some(end_id), rhs: None }]) + behind,
            (before.len() + cond.len() + 1) as int,
            (before.len() + cond.len() + 1 + then.len()) as int,
            m1,
            flow,
        ),
        m1.regs[reg] == 0 ==> follows(
            before + (cond + seq![IR { op: IROp::Unless, lhs: Some(reg), rhs: Some(else_id) }]
                + then + seq![
                IR { op: IROp::Jmp, lhs: Some(end_id), rhs: None },
                IR { op: IROp::Label, lhs: Some(else_id), rhs: None },
            ] + other + seq![IR { op: IROp::Label, lhs: Some(end_id), rhs: None }]) + behind,
            (before.len() + cond.len() + 3 + then.len()) as int,
            (before.len() + cond.len() + 3 + then.len() + other.len()) as int,
            m1,
            flow,
        ),
    ensures
        follows(
            before + (cond + seq![IR { op: IROp::Unless, lhs: Some(reg), rhs: Some(else_id) }]
                + then + seq![
                IR { op: IROp::Jmp, lhs: Some(end_id), rhs: None },
                IR { op: IROp::Label, lhs: Some(else_id), rhs: None },
            ] + other + seq![IR { op: IROp::Label, lhs: Some(end_id), rhs: None }]) + behind,
            before.len() as int,
            (before.len() + cond.len() + then.len() + other.len() + 4) as int,
            m,
            flow,
        ),
{
    let unless = IR { op: IROp::Unless, lhs: Some(reg), rhs: Some(else_id) };
    let skip = IR { op: IROp::Jmp, lhs: Some(end_id), rhs: None };
    let else_label = IR { op: IROp::Label, lhs: Some(else_id), rhs: None };
    let end_label = IR { op: IROp::Label, lhs: Some(end_id), rhs: None };
    let code = before + (cond + seq![unless] + then + seq![skip, else_label] + other + seq![
        end_label,
    ]) + behind;
    let start = before.len() as int;
    let at_jump = start + cond.len();
    let pj = at_jump + 1 + then.len();
    let px = pj + 1;
    let pe = px + 1 + other.len();
    let end = pe + 1;
    lemma_execute_computing(
        before,
        cond,
        seq![unless] + then + seq![skip, else_label] + other + seq![end_label] + behind,
        0,
        end,
        m,
    );
    assert(before + cond + (seq![unless] + then + seq![skip, else_label] + other + seq![
        end_label,
    ] + behind) =~= code);
    assert(code[at_jump] == unless);
    assert(code[pj] == skip);
    assert(code[px] == else_label);
    assert(code[pe] == end_label);
    assert forall|j: int| at_jump + 1 <= j < pj implies !defines(#[trigger] code[j], else_id) by {
        assert(code[j] == then[j - at_jump - 1]);
    }
    assert forall|j: int| px + 1 <= j < pe implies !defines(#[trigger] code[j], end_id) by {
        assert(code[j] == other[j - px - 1]);
    }
    if m1.regs[reg] != 0 {
        assert(execute(code, at_jump, end, m1) == execute(code, at_jump + 1, end, m1));
        lemma_execute_through(code, at_jump + 1, pj, end, m1);
        match flow {
            Flow::Returns(v) => {},
            Flow::Continues(memory) => {
                let m2 = execute(code, at_jump + 1, pj, m1)->Some_0->Finished_0;
                assert forall|j: int| pj + 1 <= j < pe implies !defines(
                    #[trigger] code[j],
                    end_id,
                ) by {
                    if j > px {
                        assert(code[j] == other[j - px - 1]);
                    }
                }
                lemma_place(code, end_id, pj + 1, pe);
                assert(jump(code, pj, end_id) == Some(pe));
                assert(execute(code, pj, end, m2) == execute(code, pe, end, m2));
                assert(execute(code, pe, end, m2) == execute(code, pe + 1, end, m2));
            },
        }
    } else {
        assert forall|j: int| at_jump + 1 <= j < px implies !defines(#[trigger] code[j], else_id) by {
            if j < pj {
                assert(code[j] == then[j - at_jump - 1]);
            }
        }
        lemma_place(code, else_id, at_jump + 1, px);
        assert(jump(code, at_jump, else_id) == Some(px));
        assert(execute(code, at_jump, end, m1) == execute(code, px, end, m1));
        assert(execute(code, px, end, m1) == execute(code, px + 1, end, m1));
        lemma_execute_through(code, px + 1, pe, end, m1);
        match flow {
            Flow::Returns(v) => {},
            Flow::Continues(memory) => {
                let m2 = execute(code, px + 1, pe, m1)->Some_0->Finished_0;
                assert(execute(code, pe, end, m2) == execute(code, pe + 1, end, m2));
            },
        }
    }
}

/// The instructions of a statement run as the statement says: inside any
/// code and on any machine, the run from their start ends with the `Return`
/// of the value that the statement returns, or behind them with the memory
/// as the statement leaves it.
///
/// This holds for a statement that ends (no expression of it divides by
/// zero), whose literals are numbers that a token can hold, and which
/// takes no more registers and labels than can be counted in a `usize`.
pub proof fn lemma_stmt_executes(
    s: Node,
    regs: nat,
    labels: nat,
    before: Seq<IR>,
    behind: Seq<IR>,
    m: Machine,
)
    requires
        lower_stmt(s, regs, labels) is Ok,
        lower_stmt(s, regs, labels)->Ok_0.regs <= usize::MAX,
        lower_stmt(s, regs, labels)->Ok_0.labels <= usize::MAX,
        in_range(s),
        effect(s, m.memory) is Some,
    ensures
        follows(
            before + lower_stmt(s, regs, labels)->Ok_0.code + behind,
            before.len() as int,
            (before.len() + lower_stmt(s, regs, labels)->Ok_0.code.len()) as int,
            m,
            effect(s, m.memory)->Some_0,
        ),
    decreases s, 1nat,
{
    match s {
        Node::Return(e) => {
            lemma_return_executes(*e, regs, labels, before, behind, m);
        },
        Node::ExprStmt(e) => {
            lemma_expr_stmt_executes(*e, regs, labels, before, behind, m);
        },
        Node::Block(stmts) => {
            lemma_lower_stmt(s, regs, labels);
            let start = Emitted { code: Seq::empty(), regs, labels };
            lemma_stmts_execute(stmts, 0, start, before, behind, m);
            assert(before + start.code =~= before);
        },
        Node::If(c, t, None) => {
            lemma_if_stmt_executes(s, regs, labels, before, behind, m);
        },
        Node::If(c, t, Some(f)) => {
            lemma_if_else_stmt_executes(s, regs, labels, before, behind, m);
        },
        _ => {
            lemma_lower_stmt(s, regs, labels);
        },
    }
}

/// [`lemma_stmt_executes`] for a conditional without an else-branch.
proof fn lemma_if_stmt_executes(
    s: Node,
    regs: nat,
    labels: nat,
    before: Seq<IR>,
    behind: Seq<IR>,
    m: Machine,
)
    requires
        s matches Node::If(_, _, None),
        lower_stmt(s, regs, labels) is Ok,
        lower_stmt(s, regs, labels)->Ok_0.regs <= usize::MAX,
        lower_stmt(s, regs, labels)->Ok_0.labels <= usize::MAX,
        in_range(s),
        effect(s, m.memory) is Some,
    ensures
        follows(
            before + lower_stmt(s, regs, labels)->Ok_0.code + behind,
            before.len() as int,
            (before.len() + lower_stmt(s, regs, labels)->Ok_0.code.len()) as int,
            m,
            effect(s, m.memory)->Some_0,
        ),
    decreases s, 0nat,
{
    lemma_lower_stmt(s, regs, labels);
    let done = lower_stmt(s, regs, labels)->Ok_0;
    let code = before + done.code + behind;
    match s {
        Node::If(c, t, None) => {
            let cond = lower_expr(*c, regs)->Ok_0;
            let then = lower_stmt(*t, cond.regs, labels + 1)->Ok_0;
            lemma_expr_register(*c, regs);
            lemma_expr_is_computing(*c, regs);
            lemma_stmt_registers(*t, cond.regs, labels + 1);
            lemma_stmt_is_balanced(*t, cond.regs, labels + 1);
            lemma_expr_computes(*c, regs, m);
            let m1 = run(cond.code, 0, m)->Some_0;
            let reg = regs as usize;
            let id = labels as usize;
            let unless = IR { op: IROp::Unless, lhs: Some(reg), rhs: Some(id) };
            let label = IR { op: IROp::Label, lhs: Some(id), rhs: None };
            assert(done.code == cond.code + seq![unless] + then.code + seq![label]);
            if m1.regs[reg] != 0 {
                lemma_stmt_executes(
                    *t,
                    cond.regs,
                    labels + 1,
                    before + cond.code + seq![unless],
                    seq![label] + behind,
                    m1,
                );
                assert(before + cond.code + seq![unless] + then.code + (seq![label] + behind)
                    =~= code);
            }
            lemma_if_executes(
                before,
                cond.code,
                then.code,
                behind,
                reg,
                id,
                m,
                m1,
                effect(s, m.memory)->Some_0,
            );
        },
        _ => {},
    }
}

/// [`lemma_stmt_executes`] for a conditional with an else-branch.
proof fn lemma_if_else_stmt_executes(
    s: Node,
    regs: nat,
    labels: nat,
    before: Seq<IR>,
    behind: Seq<IR>,
    m: Machine,
)
    requires
        s matches Node::If(_, _, Some(_)),
        lower_stmt(s, regs, labels) is Ok,
        lower_stmt(s, regs, labels)->Ok_0.regs <= usize::MAX,
        lower_stmt(s, regs, labels)->Ok_0.labels <= usize::MAX,
        in_range(s),
        effect(s, m.memory) is Some,
    ensures
        follows(
            before + lower_stmt(s, regs, labels)->Ok_0.code + behind,
            before.len() as int,
            (before.len() + lower_stmt(s, regs, labels)->Ok_0.code.len()) as int,
            m,
            effect(s, m.memory)->Some_0,
        ),
    decreases s, 0nat,
{
    lemma_lower_stmt(s, regs, labels);
    let done = lower_stmt(s, regs, labels)->Ok_0;
    let code = before + done.code + behind;
    match s {
        Node::If(c, t, Some(f)) => {
            let cond = lower_expr(*c, regs)->Ok_0;
            let then = lower_stmt(*t, cond.regs, labels + 2)->Ok_0;
            let other = lower_stmt(*f, then.regs, then.labels)->Ok_0;
            lemma_expr_register(*c, regs);
            lemma_expr_is_computing(*c, regs);
            lemma_stmt_registers(*t, cond.regs, labels + 2);
            lemma_stmt_registers(*f, then.regs, then.labels);
            lemma_stmt_is_balanced(*t, cond.regs, labels + 2);
            lemma_stmt_is_balanced(*f, then.regs, then.labels);
            lemma_expr_computes(*c, regs, m);
            let m1 = run(cond.code, 0, m)->Some_0;
            let reg = regs as usize;
            let else_id = labels as usize;
            let end_id = (labels + 1) as usize;
            let unless = IR { op: IROp::Unless, lhs: Some(reg), rhs: Some(else_id) };
            let skip = IR { op: IROp::Jmp, lhs: Some(end_id), rhs: None };
            let else_label = IR { op: IROp::Label, lhs: Some(else_id), rhs: None };
            let end_label = IR { op: IROp::Label, lhs: Some(end_id), rhs: None };
            assert(done.code == cond.code + seq![unless] + then.code + seq![skip, else_label]
                + other.code + seq![end_label]);
            if m1.regs[reg] != 0 {
                lemma_stmt_executes(
                    *t,
                    cond.regs,
                    labels + 2,
                    before + cond.code + seq![unless],
                    seq![skip, else_label] + other.code + seq![end_label] + behind,
                    m1,
                );
                assert(before + cond.code + seq![unless] + then.code + (seq![skip, else_label]
                    + other.code + seq![end_label] + behind) =~= code);
            } else {
                lemma_stmt_executes(
                    *f,
                    then.regs,
                    then.labels,
                    before + cond.code + seq![unless] + then.code + seq![skip, else_label],
                    seq![end_label] + behind,
                    m1,
                );
                assert(before + cond.code + seq![unless] + then.code + seq![skip, else_label]
                    + other.code + (seq![end_label] + behind) =~= code);
            }
            lemma_if_else_executes(
                before,
                cond.code,
                then.code,
                other.code,
                behind,
                reg,
                else_id,
                end_id,
                m,
                m1,
                effect(s, m.memory)->Some_0,
            );
        },
        _ => {},
    }
}

/// As [`lemma_stmt_executes`], for the statements of a list from index
/// `from` on, whose instructions stand behind those in `acc`.
pub proof fn lemma_stmts_execute(
    stmts: Seq<Node>,
    from: int,
    acc: Emitted,
    before: Seq<IR>,
    behind: Seq<IR>,
    m: Machine,
)
    requires
        lower_stmts(stmts, from, acc) is Ok,
        lower_stmts(stmts, from, acc)->Ok_0.regs <= usize::MAX,
        lower_stmts(stmts, from, acc)->Ok_0.labels <= usize::MAX,
        all_in_range(stmts),
        effects(stmts, from, m.memory) is Some,
    ensures
        follows(
            before + lower_stmts(stmts, from, acc)->Ok_0.code + behind,
            (before.len() + acc.code.len()) as int,
            (before.len() + lower_stmts(stmts, from, acc)->Ok_0.code.len()) as int,
            m,
            effects(stmts, from, m.memory)->Some_0,
        ),
    decreases stmts, stmts.len() - from,
{
    lemma_lower_stmts(stmts, from, acc);
    let done = lower_stmts(stmts, from, acc)->Ok_0;
    let code = before + done.code + behind;
    if 0 <= from < stmts.len() {
        let s = lower_stmt(stmts[from], acc.regs, acc.labels)->Ok_0;
        let next = Emitted { code: acc.code + s.code, regs: s.regs, labels: s.labels };
        lemma_stmts_registers(stmts, from + 1, next);
        lemma_stmts_labels(stmts, from + 1, next);
        let rest = done.code.skip(next.code.len() as int);
        assert(done.code =~= acc.code + s.code + rest) by {
            assert(done.code =~= done.code.take(next.code.len() as int) + rest);
        }
        lemma_stmt_executes(stmts[from], acc.regs, acc.labels, before + acc.code, rest + behind, m);
        assert(before + acc.code + s.code + (rest + behind) =~= code);
        let start = (before.len() + acc.code.len()) as int;
        let mid = start + s.code.len();
        let end = (before.len() + done.code.len()) as int;
        lemma_execute_through(code, start, mid, end, m);
        match effect(stmts[from], m.memory)->Some_0 {
            Flow::Returns(v) => {},
            Flow::Continues(memory) => {
                let m1 = execute(code, start, mid, m)->Some_0->Finished_0;
                lemma_stmts_execute(stmts, from + 1, next, before, behind, m1);
            },
        }
    }
}

/// Lowering a list of statements only adds labels.
pub proof fn lemma_stmts_labels(stmts: Seq<Node>, from: int, acc: Emitted)
    ensures
        lower_stmts(stmts, from, acc) matches Ok(e) ==> acc.labels <= e.labels,
    decreases stmts, stmts.len() - from,
{
    lemma_lower_stmts(stmts, from, acc);
    if 0 <= from < stmts.len() {
        lemma_stmt_is_balanced(stmts[from], acc.regs, acc.labels);
        match lower_stmt(stmts[from], acc.regs, acc.labels) {
            Ok(s) => {
                let next = Emitted { code: acc.code + s.code, regs: s.regs, labels: s.labels };
                lemma_stmts_labels(stmts, from + 1, next);
            },
            Err(_) => {},
        }
    }
}

/// The memory after the parameters of `params` from index `from` on took
/// their arguments: the parameter with index `i` holds the argument with
/// index `i`.
pub open spec fn bind(params: Seq<Node>, from: int, memory: Map<int, int>, args: Seq<int>) -> Map<
    int,
    int,
>
    decreases params.len() - from,
{
    if from < 0 || from >= params.len() {
        memory
    } else {
        match params[from] {
            Node::LVar(offset) => bind(
                params,
                from + 1,
                memory.insert(address(word(offset)), args[(from as usize) as int]),
                args,
            ),
            _ => memory,
        }
    }
}

/// The instructions that store the parameters of a function stand behind
/// those in `acc`, and run from there they leave the memory as [`bind`]
/// says, and everything else as it is.
pub proof fn lemma_params_run(params: Seq<Node>, from: int, acc: Seq<IR>, m: Machine)
    requires
        lower_params(params, from, acc) is Ok,
    ensures
        ({
            let code = lower_params(params, from, acc)->Ok_0;
            &&& acc.len() <= code.len()
            &&& code.take(acc.len() as int) == acc
            &&& computing(code.skip(acc.len() as int))
            &&& run(code, acc.len() as int, m) == Some(
                Machine {
                    regs: m.regs,
                    memory: bind(params, from, m.memory, m.args),
                    args: m.args,
                },
            )
        }),
    decreases params.len() - from,
{
    lemma_lower_params(params, from, acc);
    let code = lower_params(params, from, acc)->Ok_0;
    if 0 <= from < params.len() {
        match params[from] {
            Node::LVar(offset) => {
                let store = IR {
                    op: IROp::StoreArg(8),
                    lhs: Some(word(offset)),
                    rhs: Some(from as usize),
                };
                let m1 = step(store, m)->Some_0;
                lemma_params_run(params, from + 1, acc.push(store), m1);
                assert(code.take(acc.len() as int) =~= code.take(acc.len() as int + 1).take(
                    acc.len() as int,
                ));
                assert(acc.push(store).take(acc.len() as int) =~= acc);
                assert(code[acc.len() as int] == code.take(acc.len() as int + 1)[acc.len() as int]);
                assert(code[acc.len() as int] == store);
                let tail = code.skip(acc.len() as int);
                assert forall|i: int| 0 <= i < tail.len() implies computes(#[trigger] tail[i]) by {
                    if i > 0 {
                        assert(tail[i] == code.skip(acc.len() as int + 1)[i - 1]);
                    }
                }
            },
            _ => {},
        }
    } else {
        assert(code.take(acc.len() as int) =~= acc);
    }
}

/// The instructions of a function run as the function says: on any
/// machine, the run from the first instruction ends as the statements of
/// the body end when the parameters hold the arguments: with the `Return`
/// of the value that they return, or behind the last instruction with the
/// memory as they leave it.
///
/// This holds for a function whose statements end (no expression divides
/// by zero), whose literals are numbers that a token can hold, and which
/// takes no more registers and labels than can be counted in a `usize`.
pub proof fn lemma_function_executes(f: Node, m: Machine)
    requires
        f matches Node::Func(_, _, body, _) && *body is CompStmt,
        lower_function(f) is Ok,
        lower_function(f)->Ok_0.regs <= usize::MAX,
        lower_function(f)->Ok_0.labels <= usize::MAX,
        all_in_range(f->Func_2->CompStmt_0),
        effects(f->Func_2->CompStmt_0, 0, bind(f->Func_1, 0, m.memory, m.args)) is Some,
    ensures
        follows(
            lower_function(f)->Ok_0.function.code,
            0,
            lower_function(f)->Ok_0.function.code.len() as int,
            m,
            effects(f->Func_2->CompStmt_0, 0, bind(f->Func_1, 0, m.memory, m.args))->Some_0,
        ),
{
    let params = f->Func_1;
    let stmts = f->Func_2->CompStmt_0;
    let args = lower_params(params, 0, Seq::empty())->Ok_0;
    let start = Emitted { code: Seq::empty(), regs: 0, labels: 0 };
    let body = lower_stmts(stmts, 0, start)->Ok_0;
    let code = lower_function(f)->Ok_0.function.code;
    lemma_params_run(params, 0, Seq::empty(), m);
    assert(args.skip(0) =~= args);
    let m1 = run(args, 0, m)->Some_0;
    lemma_execute_computing(Seq::empty(), args, body.code, 0, code.len() as int, m);
    assert(Seq::<IR>::empty() + args + body.code =~= code);
    lemma_stmts_execute(stmts, 0, start, args, Seq::empty(), m1);
    assert(args + body.code + Seq::<IR>::empty() =~= code);
}

/// A function whose body is `return e;` returns the value of `e`: its
/// instructions, run on any machine, end with the `Return` of that value.
/// The value of a literal is the literal itself, and the value of an
/// expression of `+`, `-`, `*` and `/` is what the operations make of the
/// values of its operands.
///
/// This holds for an expression that has a value (it does not divide by
/// zero), whose literals are numbers that a token can hold, and which
/// takes no more registers than can be counted in a `usize`.
pub proof fn lemma_function_returns(name: Seq<char>, e: Node, size: nat, m: Machine)
    requires
        lower_expr(e, 0) is Ok,
        lower_expr(e, 0)->Ok_0.regs <= usize::MAX,
        in_range(e),
        eval(e, m.memory) is Some,
    ensures
        lower_function(
            Node::Func(
                name,
                Seq::empty(),
                Box::new(Node::CompStmt(seq![Node::Return(Box::new(e))])),
                size,
            ),
        ) matches Ok(f) && execute(f.function.code, 0, f.function.code.len() as int, m) == Some(
            Outcome::Returned(eval(e, m.memory)->Some_0.0),
        ),
        e matches Node::Num(v) ==> eval(e, m.memory)->Some_0.0 == v,
        e matches Node::Plus(a, b) ==> eval(e, m.memory)->Some_0.0 == eval(*a, m.memory)->Some_0.0
            + eval(*b, eval(*a, m.memory)->Some_0.1)->Some_0.0,
        e matches Node::Minus(a, b) ==> eval(e, m.memory)->Some_0.0 == eval(
            *a,
            m.memory,
        )->Some_0.0 - eval(*b, eval(*a, m.memory)->Some_0.1)->Some_0.0,
        e matches Node::Mul(a, b) ==> eval(e, m.memory)->Some_0.0 == eval(*a, m.memory)->Some_0.0
            * eval(*b, eval(*a, m.memory)->Some_0.1)->Some_0.0,
        e matches Node::Div(a, b) ==> eval(e, m.memory)->Some_0.0 == quotient(
            eval(*a, m.memory)->Some_0.0,
            eval(*b, eval(*a, m.memory)->Some_0.1)->Some_0.0,
        ),
{
    let stmts = seq![Node::Return(Box::new(e))];
    let f = Node::Func(name, Seq::empty(), Box::new(Node::CompStmt(stmts)), size);
    let start = Emitted { code: Seq::empty(), regs: 0, labels: 0 };
    lemma_lower_params(Seq::empty(), 0, Seq::empty());
    lemma_lower_stmts(stmts, 0, start);
    lemma_lower_stmt(stmts[0], 0, 0);
    let s = lower_stmt(stmts[0], 0, 0)->Ok_0;
    let next = Emitted { code: start.code + s.code, regs: s.regs, labels: s.labels };
    lemma_lower_stmts(stmts, 1, next);
    reveal_with_fuel(effects, 2);
    assert(all_in_range(stmts));
    assert(effects(stmts, 0, m.memory) == Some(Flow::Returns(eval(e, m.memory)->Some_0.0)));
    lemma_function_executes(f, m);
}

/// Whether the function `f` can be run on the machine `m`: it is a function
/// with a body of statements that end when the parameters hold the
/// arguments of `m`, and its literals are numbers that a token can hold.
pub open spec fn runs(f: Node, m: Machine) -> bool {
    &&& f matches Node::Func(_, params, body, _)
    &&& *body matches Node::CompStmt(stmts)
    &&& all_in_range(stmts)
    &&& effects(stmts, 0, bind(params, 0, m.memory, m.args)) is Some
}

/// How the function `f` ends on the machine `m`: as the statements of its
/// body end when its parameters hold the arguments.
pub open spec fn meaning(f: Node, m: Machine) -> Flow
    recommends
        runs(f, m),
{
    effects(f->Func_2->CompStmt_0, 0, bind(f->Func_1, 0, m.memory, m.args))->Some_0
}

/// Whether the instructions `code` do what the function `f` says: on every
/// machine on which `f` can be run, the run of `code` from its first
/// instruction ends as `f` ends.
pub open spec fn implements(code: Seq<IR>, f: Node) -> bool {
    forall|m: Machine| #[trigger] runs(f, m) ==> follows(code, 0, code.len() as int, m, meaning(f, m))
}

/// The instructions of a function do what the function says, if the
/// function takes no more registers and labels than can be counted in a
/// `usize`.
pub proof fn lemma_function_is_implemented(f: Node)
    requires
        lower_function(f) is Ok,
        lower_function(f)->Ok_0.regs <= usize::MAX,
        lower_function(f)->Ok_0.labels <= usize::MAX,
    ensures
        implements(lower_function(f)->Ok_0.function.code, f),
{
    let code = lower_function(f)->Ok_0.function.code;
    assert forall|m: Machine| #[trigger] runs(f, m) implies follows(
        code,
        0,
        code.len() as int,
        m,
        meaning(f, m),
    ) by {
        lemma_function_executes(f, m);
    }
}

} // verus!
