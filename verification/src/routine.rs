//! The lines of a routine: one end label, one epilogue, and one jump to the
//! end label for every `Return`.
//!
//! The text of a routine is written line by line. This module names the
//! lines ([`Line`]), says which lines a function has ([`routine_lines`]),
//! shows that the text of the code generator is those lines written out,
//! and counts among the lines.

use vstd::prelude::*;
use crate::gen_ir::{FunctionView, IR, IROp};
use crate::gen_x86::{
    at_address, count, decimal, digit, emit_code, emit_function, end_label_name, frame_slot,
    imm_text, label_line, label_name, lemma_emit_code, op0, op1, op2, operands, reg8_name,
    reg_name, render, sized_argreg_name, sized_reg_name,
};

verus! {

/// A line of assembly text.
pub ghost enum Line {
    /// `.global name`
    Global(Seq<char>),
    /// `name:`, the place that a label names.
    Place(Seq<char>),
    /// An instruction without operands.
    Ins0(Seq<char>),
    /// An instruction with one operand.
    Ins1(Seq<char>, Seq<char>),
    /// An instruction with two operands.
    Ins2(Seq<char>, Seq<char>, Seq<char>),
}

/// `out` and the line `line`, written out.
pub open spec fn write_line(out: Seq<char>, line: Line) -> Seq<char> {
    match line {
        Line::Global(name) => out + ".global "@ + name + "\n"@,
        Line::Place(name) => label_line(out, name),
        Line::Ins0(mnemonic) => op0(out, mnemonic),
        Line::Ins1(mnemonic, a) => op1(out, mnemonic, a),
        Line::Ins2(mnemonic, a, b) => op2(out, mnemonic, a, b),
    }
}

/// `out` and the lines `lines`, written out in order.
pub open spec fn write(out: Seq<char>, lines: Seq<Line>) -> Seq<char>
    decreases lines.len(),
{
    if lines.len() == 0 {
        out
    } else {
        write_line(write(out, lines.drop_last()), lines.last())
    }
}

/// The number of lines of `lines` that are the line `x`.
pub open spec fn occurrences(lines: Seq<Line>, x: Line) -> nat
    decreases lines.len(),
{
    if lines.len() == 0 {
        0
    } else {
        occurrences(lines.drop_last(), x) + if lines.last() == x {
            1nat
        } else {
            0nat
        }
    }
}

/// One line.
pub open spec fn lines1(a: Line) -> Seq<Line> {
    Seq::empty().push(a)
}

/// Two lines.
pub open spec fn lines2(a: Line, b: Line) -> Seq<Line> {
    Seq::empty().push(a).push(b)
}

/// Three lines.
pub open spec fn lines3(a: Line, b: Line, c: Line) -> Seq<Line> {
    Seq::empty().push(a).push(b).push(c)
}

/// Four lines.
pub open spec fn lines4(a: Line, b: Line, c: Line, d: Line) -> Seq<Line> {
    Seq::empty().push(a).push(b).push(c).push(d)
}

/// The three lines of a comparison.
pub open spec fn comparison_lines(lhs: usize, rhs: usize, set: Seq<char>) -> Seq<Line> {
    lines3(
        Line::Ins2("cmp"@, reg_name(lhs), reg_name(rhs)),
        Line::Ins1(set, reg8_name(lhs)),
        Line::Ins2("movzb"@, reg_name(lhs), reg8_name(lhs)),
    )
}

/// The lines of the instruction with opcode `op` on the checked operands
/// `lhs` and `rhs`, in the function with number `ret`.
pub open spec fn ir_lines(op: IROp, lhs: usize, rhs: usize, ret: nat) -> Seq<Line> {
    match op {
        IROp::Imm => lines1(Line::Ins2("mov"@, reg_name(lhs), imm_text(rhs))),
        IROp::Add => lines1(Line::Ins2("add"@, reg_name(lhs), reg_name(rhs))),
        IROp::Sub => lines1(Line::Ins2("sub"@, reg_name(lhs), reg_name(rhs))),
        IROp::Mul => lines3(
            Line::Ins2("mov"@, "rax"@, reg_name(rhs)),
            Line::Ins1("mul"@, reg_name(lhs)),
            Line::Ins2("mov"@, reg_name(lhs), "rax"@),
        ),
        IROp::Div => lines4(
            Line::Ins2("mov"@, "rax"@, reg_name(lhs)),
            Line::Ins0("cqo"@),
            Line::Ins1("idiv"@, reg_name(rhs)),
            Line::Ins2("mov"@, reg_name(lhs), "rax"@),
        ),
        IROp::Eq => comparison_lines(lhs, rhs, "sete"@),
        IROp::Ne => comparison_lines(lhs, rhs, "setne"@),
        IROp::Lt => comparison_lines(lhs, rhs, "setl"@),
        IROp::Le => comparison_lines(lhs, rhs, "setle"@),
        IROp::Label => lines1(Line::Place(label_name(count(lhs)))),
        IROp::Return => lines2(
            Line::Ins2("mov"@, "rax"@, reg_name(lhs)),
            Line::Ins1("jmp"@, end_label_name(ret)),
        ),
        IROp::Jmp => lines1(Line::Ins1("jmp"@, label_name(count(lhs)))),
        IROp::Unless => lines2(
            Line::Ins2("cmp"@, reg_name(lhs), "0"@),
            Line::Ins1("je"@, label_name(count(rhs))),
        ),
        IROp::Load(size) => if size == 1 {
            lines2(
                Line::Ins2("mov"@, sized_reg_name(lhs, size), at_address(reg_name(rhs))),
                Line::Ins2("movzb"@, reg_name(lhs), reg8_name(lhs)),
            )
        } else {
            lines1(Line::Ins2("mov"@, sized_reg_name(lhs, size), at_address(reg_name(rhs))))
        },
        IROp::Store(size) => lines1(
            Line::Ins2("mov"@, at_address(reg_name(lhs)), sized_reg_name(rhs, size)),
        ),
        IROp::Bprel => lines1(Line::Ins2("lea"@, reg_name(lhs), frame_slot(count(rhs)))),
        IROp::StoreArg(size) => lines1(
            Line::Ins2("mov"@, frame_slot(count(lhs)), sized_argreg_name(rhs, size)),
        ),
        IROp::Call(_, _) => Seq::empty(),
    }
}

/// The lines of the instructions of `code` from index `from` on, up to the
/// first that has none.
pub open spec fn code_lines(code: Seq<IR>, from: int, ret: nat) -> Seq<Line>
    decreases code.len() - from,
{
    if from < 0 || from >= code.len() {
        Seq::empty()
    } else {
        match operands(code[from]) {
            Ok((lhs, rhs)) => ir_lines(code[from].op, lhs, rhs, ret) + code_lines(
                code,
                from + 1,
                ret,
            ),
            Err(_) => Seq::empty(),
        }
    }
}

/// The number of `Return` instructions of `code` from index `from` on.
pub open spec fn return_count(code: Seq<IR>, from: int) -> nat
    decreases code.len() - from,
{
    if from < 0 || from >= code.len() {
        0
    } else {
        return_count(code, from + 1) + if code[from].op is Return {
            1nat
        } else {
            0nat
        }
    }
}

/// The lines of the start of the function `name` with a frame of `size`
/// bytes.
pub open spec fn entry_lines(name: Seq<char>, size: nat) -> Seq<Line> {
    Seq::empty().push(Line::Global(name)).push(Line::Place(name)).push(
        Line::Ins1("push"@, "rbp"@),
    ).push(Line::Ins2("mov"@, "rbp"@, "rsp"@)).push(Line::Ins2("sub"@, "rsp"@, decimal(size)))
}

/// The line that is the place of the end label of the function with number
/// `ret`.
pub open spec fn end_place(ret: nat) -> Line {
    Line::Place(end_label_name(ret))
}

/// The line that jumps to the end label of the function with number `ret`.
pub open spec fn end_jump(ret: nat) -> Line {
    Line::Ins1("jmp"@, end_label_name(ret))
}

/// The line that goes back to the caller.
pub open spec fn ret_line() -> Line {
    Line::Ins0("ret"@)
}

/// The lines of the end of the function with number `ret`: the place of
/// its end label and the epilogue.
pub open spec fn exit_lines(ret: nat) -> Seq<Line> {
    lines4(
        end_place(ret),
        Line::Ins2("mov"@, "rsp"@, "rbp"@),
        Line::Ins1("pop"@, "rbp"@),
        ret_line(),
    )
}

/// The lines of the routine of the function `f`, which has the number
/// `ret`.
pub open spec fn routine_lines(f: FunctionView, ret: nat) -> Seq<Line> {
    entry_lines(f.name, f.stacksize) + code_lines(f.code, 0, ret) + exit_lines(ret)
}

/// Writing a line behind others writes the others first; counting a line
/// behind others counts among the others first.
pub proof fn lemma_push(out: Seq<char>, lines: Seq<Line>, line: Line, x: Line)
    ensures
        write(out, lines.push(line)) == write_line(write(out, lines), line),
        occurrences(lines.push(line), x) == occurrences(lines, x) + if line == x {
            1nat
        } else {
            0nat
        },
{
    assert(lines.push(line).drop_last() =~= lines);
}

/// Writing two lists of lines one behind the other writes their lines in
/// order, and the occurrences of a line in both are those in each.
pub proof fn lemma_concat(out: Seq<char>, a: Seq<Line>, b: Seq<Line>, x: Line)
    ensures
        write(out, a + b) == write(write(out, a), b),
        occurrences(a + b, x) == occurrences(a, x) + occurrences(b, x),
    decreases b.len(),
{
    if b.len() == 0 {
        assert(a + b =~= a);
    } else {
        lemma_concat(out, a, b.drop_last(), x);
        assert((a + b).drop_last() =~= a + b.drop_last());
    }
}

/// The text and the occurrences of up to four lines.
pub proof fn lemma_few(out: Seq<char>, a: Line, b: Line, c: Line, d: Line, x: Line)
    ensures
        write(out, Seq::empty()) == out,
        occurrences(Seq::empty(), x) == 0,
        write(out, lines1(a)) == write_line(out, a),
        write(out, lines2(a, b)) == write_line(write_line(out, a), b),
        write(out, lines3(a, b, c)) == write_line(write_line(write_line(out, a), b), c),
        write(out, lines4(a, b, c, d)) == write_line(
            write_line(write_line(write_line(out, a), b), c),
            d,
        ),
        a != x ==> occurrences(lines1(a), x) == 0,
        a != x && b != x ==> occurrences(lines2(a, b), x) == 0,
        a != x && b != x && c != x ==> occurrences(lines3(a, b, c), x) == 0,
        a != x && b != x && c != x && d != x ==> occurrences(lines4(a, b, c, d), x) == 0,
        a != x && b == x ==> occurrences(lines2(a, b), x) == 1,
        a == x && b != x && c != x && d != x ==> occurrences(lines4(a, b, c, d), x) == 1,
        a != x && b != x && c != x && d == x ==> occurrences(lines4(a, b, c, d), x) == 1,
{
    let e = Seq::<Line>::empty();
    lemma_push(out, e, a, x);
    lemma_push(out, e.push(a), b, x);
    lemma_push(out, e.push(a).push(b), c, x);
    lemma_push(out, e.push(a).push(b).push(c), d, x);
}

/// The first character of a number in base ten is a digit.
pub proof fn lemma_decimal_starts_with_digit(n: nat)
    ensures
        decimal(n).len() >= 1,
        '0' <= decimal(n)[0] <= '9',
    decreases n,
{
    if n >= 10 {
        lemma_decimal_starts_with_digit(n / 10);
    }
}

/// The names that the counts tell apart are different: the name of an end
/// label is that of no other label and starts with a dot, and no two of the
/// mnemonics that stand alone or before one operand are the same.
pub proof fn lemma_names(ret: nat, id: nat)
    ensures
        label_name(id) != end_label_name(ret),
        end_label_name(ret).len() >= 1,
        end_label_name(ret)[0] == '.',
        "cqo"@ != "ret"@,
        "jmp"@ != "mul"@,
        "jmp"@ != "idiv"@,
        "jmp"@ != "sete"@,
        "jmp"@ != "setne"@,
        "jmp"@ != "setl"@,
        "jmp"@ != "setle"@,
        "jmp"@ != "je"@,
        "jmp"@ != "push"@,
        "jmp"@ != "pop"@,
{
    reveal_strlit(".L");
    reveal_strlit(".Lend");
    reveal_strlit("cqo");
    reveal_strlit("ret");
    reveal_strlit("jmp");
    reveal_strlit("mul");
    reveal_strlit("idiv");
    reveal_strlit("sete");
    reveal_strlit("setne");
    reveal_strlit("setl");
    reveal_strlit("setle");
    reveal_strlit("je");
    reveal_strlit("push");
    reveal_strlit("pop");
    lemma_decimal_starts_with_digit(id);
    assert(label_name(id)[2] == decimal(id)[0]);
    assert(end_label_name(ret)[2] == 'e');
    assert(end_label_name(ret)[0] == '.');
    assert("cqo"@[0] == 'c' && "ret"@[0] == 'r');
    assert("jmp"@[0] == 'j' && "mul"@[0] == 'm' && "pop"@[0] == 'p');
    assert("jmp"@.len() == 3 && "je"@.len() == 2 && "idiv"@.len() == 4 && "sete"@.len() == 4);
    assert("setne"@.len() == 5 && "setl"@.len() == 4 && "setle"@.len() == 5 && "push"@.len() == 4);
}

/// Whether the line `line` is none of the three that are counted: the
/// place of the end label, `ret`, and the jump to the end label.
pub open spec fn uncounted(line: Line, ret: nat) -> bool {
    line != end_place(ret) && line != ret_line() && line != end_jump(ret)
}

/// Whether `lines` has no place of the end label, no `ret`, and `jumps`
/// jumps to the end label.
pub open spec fn counted(lines: Seq<Line>, ret: nat, jumps: nat) -> bool {
    &&& occurrences(lines, end_place(ret)) == 0
    &&& occurrences(lines, ret_line()) == 0
    &&& occurrences(lines, end_jump(ret)) == jumps
}

/// [`lemma_few`] for the three lines that are counted.
proof fn lemma_few_counted(out: Seq<char>, a: Line, b: Line, c: Line, d: Line, ret: nat)
    ensures
        write(out, lines1(a)) == write_line(out, a),
        write(out, lines2(a, b)) == write_line(write_line(out, a), b),
        write(out, lines3(a, b, c)) == write_line(write_line(write_line(out, a), b), c),
        write(out, lines4(a, b, c, d)) == write_line(
            write_line(write_line(write_line(out, a), b), c),
            d,
        ),
        uncounted(a, ret) ==> counted(lines1(a), ret, 0),
        uncounted(a, ret) && uncounted(b, ret) ==> counted(lines2(a, b), ret, 0),
        uncounted(a, ret) && uncounted(b, ret) && uncounted(c, ret) ==> counted(
            lines3(a, b, c),
            ret,
            0,
        ),
        uncounted(a, ret) && uncounted(b, ret) && uncounted(c, ret) && uncounted(d, ret)
            ==> counted(lines4(a, b, c, d), ret, 0),
        uncounted(a, ret) && b == end_jump(ret) ==> counted(lines2(a, b), ret, 1),
{
    lemma_names(ret, 0);
    lemma_few(out, a, b, c, d, end_place(ret));
    lemma_few(out, a, b, c, d, ret_line());
    lemma_few(out, a, b, c, d, end_jump(ret));
}

/// The text of an instruction is its lines written out. Among the lines
/// there is no place of the end label and no `ret`, and a jump to the end
/// label only behind a `Return`, once.
pub proof fn lemma_ir_lines(out: Seq<char>, op: IROp, lhs: usize, rhs: usize, ret: nat)
    ensures
        render(out, op, lhs, rhs, ret) == write(out, ir_lines(op, lhs, rhs, ret)),
        occurrences(ir_lines(op, lhs, rhs, ret), end_place(ret)) == 0,
        occurrences(ir_lines(op, lhs, rhs, ret), ret_line()) == 0,
        occurrences(ir_lines(op, lhs, rhs, ret), end_jump(ret)) == if op is Return {
            1nat
        } else {
            0nat
        },
{
    lemma_names(ret, count(lhs));
    lemma_names(ret, count(rhs));
    let unused = Line::Global(Seq::empty());
    match op {
        IROp::Imm => lemma_few_counted(
            out,
            Line::Ins2("mov"@, reg_name(lhs), imm_text(rhs)),
            unused,
            unused,
            unused,
            ret,
        ),
        IROp::Add => lemma_few_counted(
            out,
            Line::Ins2("add"@, reg_name(lhs), reg_name(rhs)),
            unused,
            unused,
            unused,
            ret,
        ),
        IROp::Sub => lemma_few_counted(
            out,
            Line::Ins2("sub"@, reg_name(lhs), reg_name(rhs)),
            unused,
            unused,
            unused,
            ret,
        ),
        IROp::Mul => lemma_few_counted(
            out,
            Line::Ins2("mov"@, "rax"@, reg_name(rhs)),
            Line::Ins1("mul"@, reg_name(lhs)),
            Line::Ins2("mov"@, reg_name(lhs), "rax"@),
            unused,
            ret,
        ),
        IROp::Div => lemma_few_counted(
            out,
            Line::Ins2("mov"@, "rax"@, reg_name(lhs)),
            Line::Ins0("cqo"@),
            Line::Ins1("idiv"@, reg_name(rhs)),
            Line::Ins2("mov"@, reg_name(lhs), "rax"@),
            ret,
        ),
        IROp::Eq => lemma_comparison_lines(out, lhs, rhs, "sete"@, ret),
        IROp::Ne => lemma_comparison_lines(out, lhs, rhs, "setne"@, ret),
        IROp::Lt => lemma_comparison_lines(out, lhs, rhs, "setl"@, ret),
        IROp::Le => lemma_comparison_lines(out, lhs, rhs, "setle"@, ret),
        IROp::Label => lemma_few_counted(
            out,
            Line::Place(label_name(count(lhs))),
            unused,
            unused,
            unused,
            ret,
        ),
        IROp::Return => lemma_few_counted(
            out,
            Line::Ins2("mov"@, "rax"@, reg_name(lhs)),
            Line::Ins1("jmp"@, end_label_name(ret)),
            unused,
            unused,
            ret,
        ),
        IROp::Jmp => lemma_few_counted(
            out,
            Line::Ins1("jmp"@, label_name(count(lhs))),
            unused,
            unused,
            unused,
            ret,
        ),
        IROp::Unless => lemma_few_counted(
            out,
            Line::Ins2("cmp"@, reg_name(lhs), "0"@),
            Line::Ins1("je"@, label_name(count(rhs))),
            unused,
            unused,
            ret,
        ),
        IROp::Load(size) => lemma_few_counted(
            out,
            Line::Ins2("mov"@, sized_reg_name(lhs, size), at_address(reg_name(rhs))),
            Line::Ins2("movzb"@, reg_name(lhs), reg8_name(lhs)),
            unused,
            unused,
            ret,
        ),
        IROp::Store(size) => lemma_few_counted(
            out,
            Line::Ins2("mov"@, at_address(reg_name(lhs)), sized_reg_name(rhs, size)),
            unused,
            unused,
            unused,
            ret,
        ),
        IROp::Bprel => lemma_few_counted(
            out,
            Line::Ins2("lea"@, reg_name(lhs), frame_slot(count(rhs))),
            unused,
            unused,
            unused,
            ret,
        ),
        IROp::StoreArg(size) => lemma_few_counted(
            out,
            Line::Ins2("mov"@, frame_slot(count(lhs)), sized_argreg_name(rhs, size)),
            unused,
            unused,
            unused,
            ret,
        ),
        IROp::Call(_, _) => {},
    }
}

/// [`lemma_ir_lines`] for a comparison whose flag is one of the four that
/// the code generator writes.
proof fn lemma_comparison_lines(out: Seq<char>, lhs: usize, rhs: usize, set: Seq<char>, ret: nat)
    requires
        set == "sete"@ || set == "setne"@ || set == "setl"@ || set == "setle"@,
    ensures
        crate::gen_x86::comparison(out, lhs, rhs, set) == write(
            out,
            comparison_lines(lhs, rhs, set),
        ),
        occurrences(comparison_lines(lhs, rhs, set), end_place(ret)) == 0,
        occurrences(comparison_lines(lhs, rhs, set), ret_line()) == 0,
        occurrences(comparison_lines(lhs, rhs, set), end_jump(ret)) == 0,
{
    lemma_names(ret, 0);
    lemma_few_counted(
        out,
        Line::Ins2("cmp"@, reg_name(lhs), reg_name(rhs)),
        Line::Ins1(set, reg8_name(lhs)),
        Line::Ins2("movzb"@, reg_name(lhs), reg8_name(lhs)),
        Line::Global(Seq::empty()),
        ret,
    );
}

/// The text of a list of instructions is their lines written out. Among
/// the lines there is no place of the end label and no `ret`, and one jump
/// to the end label for every `Return`.
pub proof fn lemma_code_lines(out: Seq<char>, code: Seq<IR>, from: int, ret: nat)
    requires
        0 <= from,
        emit_code(out, code, from, ret) is Ok,
    ensures
        emit_code(out, code, from, ret)->Ok_0 == write(out, code_lines(code, from, ret)),
        occurrences(code_lines(code, from, ret), end_place(ret)) == 0,
        occurrences(code_lines(code, from, ret), ret_line()) == 0,
        occurrences(code_lines(code, from, ret), end_jump(ret)) == return_count(code, from),
    decreases code.len() - from,
{
    lemma_emit_code(out, code, from, ret);
    if from < code.len() {
        let (lhs, rhs) = operands(code[from])->Ok_0;
        let first = ir_lines(code[from].op, lhs, rhs, ret);
        let next = render(out, code[from].op, lhs, rhs, ret);
        lemma_ir_lines(out, code[from].op, lhs, rhs, ret);
        lemma_code_lines(next, code, from + 1, ret);
        let rest = code_lines(code, from + 1, ret);
        lemma_concat(out, first, rest, end_place(ret));
        lemma_concat(out, first, rest, ret_line());
        lemma_concat(out, first, rest, end_jump(ret));
    }
}

/// The text of a routine is its lines written out: the lines of the start
/// of the function, then those of its instructions, then the place of its
/// end label and the epilogue. The place of the end label is there once, and
/// so is `ret`; and there is one jump to the end label for every `Return`
/// among the instructions.
///
/// This holds for a function whose name does not start with a dot, as the
/// names of labels do.
pub proof fn lemma_routine(out: Seq<char>, f: FunctionView, ret: nat)
    requires
        emit_function(out, f, ret) is Ok,
        f.name.len() == 0 || f.name[0] != '.',
    ensures
        emit_function(out, f, ret)->Ok_0 == write(out, routine_lines(f, ret)),
        occurrences(routine_lines(f, ret), end_place(ret)) == 1,
        occurrences(routine_lines(f, ret), ret_line()) == 1,
        occurrences(routine_lines(f, ret), end_jump(ret)) == return_count(f.code, 0),
{
    let entry = entry_lines(f.name, f.stacksize);
    let body = code_lines(f.code, 0, ret);
    let exit = exit_lines(ret);
    let started = crate::gen_x86::prologue(out, f.name, f.stacksize);
    lemma_names(ret, 0);
    lemma_entry_lines(out, f.name, f.stacksize, ret);
    lemma_code_lines(started, f.code, 0, ret);
    let done = emit_code(started, f.code, 0, ret)->Ok_0;
    lemma_few(
        done,
        end_place(ret),
        Line::Ins2("mov"@, "rsp"@, "rbp"@),
        Line::Ins1("pop"@, "rbp"@),
        ret_line(),
        end_place(ret),
    );
    lemma_few(
        done,
        end_place(ret),
        Line::Ins2("mov"@, "rsp"@, "rbp"@),
        Line::Ins1("pop"@, "rbp"@),
        ret_line(),
        ret_line(),
    );
    lemma_few(
        done,
        end_place(ret),
        Line::Ins2("mov"@, "rsp"@, "rbp"@),
        Line::Ins1("pop"@, "rbp"@),
        ret_line(),
        end_jump(ret),
    );
    lemma_concat(out, entry, body, end_place(ret));
    lemma_concat(out, entry, body, ret_line());
    lemma_concat(out, entry, body, end_jump(ret));
    lemma_concat(out, entry + body, exit, end_place(ret));
    lemma_concat(out, entry + body, exit, ret_line());
    lemma_concat(out, entry + body, exit, end_jump(ret));
}

/// The text of the start of a function is its lines written out; none of
/// them is counted.
proof fn lemma_entry_lines(out: Seq<char>, name: Seq<char>, size: nat, ret: nat)
    requires
        name.len() == 0 || name[0] != '.',
    ensures
        crate::gen_x86::prologue(out, name, size) == write(out, entry_lines(name, size)),
        occurrences(entry_lines(name, size), end_place(ret)) == 0,
        occurrences(entry_lines(name, size), ret_line()) == 0,
        occurrences(entry_lines(name, size), end_jump(ret)) == 0,
{
    lemma_names(ret, 0);
    let e = Seq::<Line>::empty();
    let a = Line::Global(name);
    let b = Line::Place(name);
    let c = Line::Ins1("push"@, "rbp"@);
    let d = Line::Ins2("mov"@, "rbp"@, "rsp"@);
    let g = Line::Ins2("sub"@, "rsp"@, decimal(size));
    assert(name != end_label_name(ret));
    lemma_push(out, e, a, end_place(ret));
    lemma_push(out, e.push(a), b, end_place(ret));
    lemma_push(out, e.push(a).push(b), c, end_place(ret));
    lemma_push(out, e.push(a).push(b).push(c), d, end_place(ret));
    lemma_push(out, e.push(a).push(b).push(c).push(d), g, end_place(ret));
    lemma_push(out, e, a, ret_line());
    lemma_push(out, e.push(a), b, ret_line());
    lemma_push(out, e.push(a).push(b), c, ret_line());
    lemma_push(out, e.push(a).push(b).push(c), d, ret_line());
    lemma_push(out, e.push(a).push(b).push(c).push(d), g, ret_line());
    lemma_push(out, e, a, end_jump(ret));
    lemma_push(out, e.push(a), b, end_jump(ret));
    lemma_push(out, e.push(a).push(b), c, end_jump(ret));
    lemma_push(out, e.push(a).push(b).push(c), d, end_jump(ret));
    lemma_push(out, e.push(a).push(b).push(c).push(d), g, end_jump(ret));
}

/// Whether the line `line` moves a value to the register in which a
/// function hands back its result.
pub open spec fn moves_result(line: Line) -> bool {
    line matches Line::Ins2(mnemonic, to, _) && mnemonic == "mov"@ && to == "rax"@
}

/// Whether every jump to the end label of the function with number `ret`
/// among `lines` stands right behind a line that moves the result.
pub open spec fn guarded(lines: Seq<Line>, ret: nat) -> bool {
    forall|i: int|
        0 <= i < lines.len() && #[trigger] lines[i] == end_jump(ret) ==> i >= 1 && moves_result(
            lines[i - 1],
        )
}

/// Two lists of lines whose jumps to the end label are guarded are guarded
/// together.
proof fn lemma_guarded_concat(a: Seq<Line>, b: Seq<Line>, ret: nat)
    requires
        guarded(a, ret),
        guarded(b, ret),
    ensures
        guarded(a + b, ret),
{
    let lines = a + b;
    assert forall|i: int| 0 <= i < lines.len() && #[trigger] lines[i] == end_jump(ret) implies i
        >= 1 && moves_result(lines[i - 1]) by {
        if i < a.len() {
            assert(lines[i] == a[i]);
            assert(lines[i - 1] == a[i - 1]);
        } else {
            assert(lines[i] == b[i - a.len()]);
            assert(lines[i - 1] == b[i - a.len() - 1]);
        }
    }
}

/// The jump to the end label that a `Return` makes is guarded, and no
/// other instruction makes one.
proof fn lemma_ir_guarded(op: IROp, lhs: usize, rhs: usize, ret: nat)
    ensures
        guarded(ir_lines(op, lhs, rhs, ret), ret),
{
    lemma_names(ret, count(lhs));
    lemma_names(ret, count(rhs));
}

/// The jumps to the end label among the lines of a list of instructions
/// are guarded.
proof fn lemma_code_guarded(code: Seq<IR>, from: int, ret: nat)
    ensures
        guarded(code_lines(code, from, ret), ret),
    decreases code.len() - from,
{
    if 0 <= from < code.len() {
        match operands(code[from]) {
            Ok((lhs, rhs)) => {
                lemma_ir_guarded(code[from].op, lhs, rhs, ret);
                lemma_code_guarded(code, from + 1, ret);
                lemma_guarded_concat(
                    ir_lines(code[from].op, lhs, rhs, ret),
                    code_lines(code, from + 1, ret),
                    ret,
                );
            },
            Err(_) => {},
        }
    }
}

/// Every jump to the end label in a routine stands right behind the line
/// that moves the result to `rax`.
pub proof fn lemma_routine_guarded(f: FunctionView, ret: nat)
    ensures
        guarded(routine_lines(f, ret), ret),
{
    lemma_names(ret, 0);
    lemma_code_guarded(f.code, 0, ret);
    let entry = entry_lines(f.name, f.stacksize);
    let body = code_lines(f.code, 0, ret);
    let exit = exit_lines(ret);
    assert(guarded(entry, ret));
    assert(guarded(exit, ret));
    lemma_guarded_concat(entry, body, ret);
    lemma_guarded_concat(entry + body, exit, ret);
}

} // verus!
