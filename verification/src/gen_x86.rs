//! The code generator: lowered functions to assembly text.
//!
//! [`emit_program`] defines the text of a program; [`gen_x86`] computes it.
//! A virtual register is the physical register with the same index; there
//! are seven of them.

use vstd::prelude::*;
use crate::gen_ir::{Function, FunctionView, IR, IROp, functions_view};

verus! {

/// The number of physical registers that hold virtual registers.
pub const NUM_REGS: usize = 7;

/// The number of registers in which arguments come.
pub const NUM_ARGREGS: usize = 6;

/// An instruction that cannot be turned into assembly.
#[derive(Debug, Clone, Copy, PartialEq, Eq, Structural)]
pub enum EmitError {
    /// The opcode has no assembly.
    UnmappedOpcode,
    /// An operand that the opcode needs is not there.
    MissingOperand,
    /// A virtual register has no physical register: its index is not below
    /// `NUM_REGS`.
    RegisterOutOfRange,
    /// The index of an argument is not below `NUM_ARGREGS`.
    ArgumentOutOfRange,
    /// A load or store of a width other than one or eight bytes.
    BadWidth,
}

/// The name of the physical register with index `r`.
pub open spec fn reg_name(r: usize) -> Seq<char> {
    if r == 0 {
        "r10"@
    } else if r == 1 {
        "r11"@
    } else if r == 2 {
        "rbx"@
    } else if r == 3 {
        "r12"@
    } else if r == 4 {
        "r13"@
    } else if r == 5 {
        "r14"@
    } else {
        "r15"@
    }
}

/// The name of the low byte of the physical register with index `r`.
pub open spec fn reg8_name(r: usize) -> Seq<char> {
    if r == 0 {
        "r10b"@
    } else if r == 1 {
        "r11b"@
    } else if r == 2 {
        "bl"@
    } else if r == 3 {
        "r12b"@
    } else if r == 4 {
        "r13b"@
    } else if r == 5 {
        "r14b"@
    } else {
        "r15b"@
    }
}

/// The name of the register in which the argument with index `i` comes.
pub open spec fn argreg_name(i: usize) -> Seq<char> {
    if i == 0 {
        "rdi"@
    } else if i == 1 {
        "rsi"@
    } else if i == 2 {
        "rdx"@
    } else if i == 3 {
        "rcx"@
    } else if i == 4 {
        "r8"@
    } else {
        "r9"@
    }
}

/// The name of the low byte of the register in which the argument with
/// index `i` comes.
pub open spec fn argreg8_name(i: usize) -> Seq<char> {
    if i == 0 {
        "dil"@
    } else if i == 1 {
        "sil"@
    } else if i == 2 {
        "dl"@
    } else if i == 3 {
        "cl"@
    } else if i == 4 {
        "r8b"@
    } else {
        "r9b"@
    }
}

/// The register with index `r` in the width of `size` bytes.
pub open spec fn sized_reg_name(r: usize, size: u8) -> Seq<char> {
    if size == 1 {
        reg8_name(r)
    } else {
        reg_name(r)
    }
}

/// The argument register with index `i` in the width of `size` bytes.
pub open spec fn sized_argreg_name(i: usize, size: u8) -> Seq<char> {
    if size == 1 {
        argreg8_name(i)
    } else {
        argreg_name(i)
    }
}

/// The character of the digit `d`.
pub open spec fn digit(d: nat) -> char {
    ((48 + d) as u8) as char
}

/// The number `n` in base ten, without leading zeros.
pub open spec fn decimal(n: nat) -> Seq<char>
    decreases n,
{
    if n < 10 {
        seq![digit(n)]
    } else {
        decimal(n / 10).push(digit(n % 10))
    }
}

/// The number `v` in base ten, with a minus sign if it is negative.
pub open spec fn signed_decimal(v: int) -> Seq<char> {
    if v < 0 {
        seq!['-'] + decimal((-v) as nat)
    } else {
        decimal(v as nat)
    }
}

/// The text of the immediate operand `v`: the number that its low 32 bits
/// make as a signed integer.
pub open spec fn imm_text(v: usize) -> Seq<char> {
    signed_decimal((v as i32) as int)
}

/// The number of the operand `n`.
pub open spec fn count(n: usize) -> nat {
    n as nat
}

/// The memory operand at the address in the register named `reg`.
pub open spec fn at_address(reg: Seq<char>) -> Seq<char> {
    "["@ + reg + "]"@
}

/// The memory operand `offset` bytes below the frame pointer.
pub open spec fn frame_slot(offset: nat) -> Seq<char> {
    "[rbp-"@ + decimal(offset) + "]"@
}

/// The name of the label `id` of a function's instructions.
pub open spec fn label_name(id: nat) -> Seq<char> {
    ".L"@ + decimal(id)
}

/// The name of the label before the epilogue of the function with number
/// `id`.
pub open spec fn end_label_name(id: nat) -> Seq<char> {
    ".Lend"@ + decimal(id)
}

/// `out` and a line with an instruction without operands.
pub open spec fn op0(out: Seq<char>, mnemonic: Seq<char>) -> Seq<char> {
    out + "  "@ + mnemonic + "\n"@
}

/// `out` and a line with an instruction with one operand.
pub open spec fn op1(out: Seq<char>, mnemonic: Seq<char>, a: Seq<char>) -> Seq<char> {
    out + "  "@ + mnemonic + " "@ + a + "\n"@
}

/// `out` and a line with an instruction with two operands.
pub open spec fn op2(out: Seq<char>, mnemonic: Seq<char>, a: Seq<char>, b: Seq<char>) -> Seq<
    char,
> {
    out + "  "@ + mnemonic + " "@ + a + ", "@ + b + "\n"@
}

/// `out` and a line that defines the label `name`.
pub open spec fn label_line(out: Seq<char>, name: Seq<char>) -> Seq<char> {
    out + name + ":\n"@
}

/// `out` and the three lines of a comparison: the registers `lhs` and `rhs`
/// are compared, the flag that `set` names goes to the low byte of `lhs`,
/// and the byte is widened to the register.
pub open spec fn comparison(out: Seq<char>, lhs: usize, rhs: usize, set: Seq<char>) -> Seq<char> {
    op2(
        op1(op2(out, "cmp"@, reg_name(lhs), reg_name(rhs)), set, reg8_name(lhs)),
        "movzb"@,
        reg_name(lhs),
        reg8_name(lhs),
    )
}

/// The operand `o` as a virtual register that has a physical register.
pub open spec fn check_reg(o: Option<usize>) -> Result<usize, EmitError> {
    match o {
        None => Err(EmitError::MissingOperand),
        Some(r) => if r < NUM_REGS {
            Ok(r)
        } else {
            Err(EmitError::RegisterOutOfRange)
        },
    }
}

/// The operand `o` as a number.
pub open spec fn check_num(o: Option<usize>) -> Result<usize, EmitError> {
    match o {
        None => Err(EmitError::MissingOperand),
        Some(n) => Ok(n),
    }
}

/// The operand `o` as the index of an argument that comes in a register.
pub open spec fn check_arg(o: Option<usize>) -> Result<usize, EmitError> {
    match o {
        None => Err(EmitError::MissingOperand),
        Some(i) => if i < NUM_ARGREGS {
            Ok(i)
        } else {
            Err(EmitError::ArgumentOutOfRange)
        },
    }
}

/// Both operands, or the error of the first that has one.
pub open spec fn both(lhs: Result<usize, EmitError>, rhs: Result<usize, EmitError>) -> Result<
    (usize, usize),
    EmitError,
> {
    match lhs {
        Err(e) => Err(e),
        Ok(l) => match rhs {
            Err(e) => Err(e),
            Ok(r) => Ok((l, r)),
        },
    }
}

/// The operands of a load, a store or the store of an argument of `size`
/// bytes: a width other than one or eight is an error before any error of
/// the operands.
pub open spec fn sized(size: u8, operands: Result<(usize, usize), EmitError>) -> Result<
    (usize, usize),
    EmitError,
> {
    if size == 1 || size == 8 {
        operands
    } else {
        Err(EmitError::BadWidth)
    }
}

/// The operands that the instruction `ir` needs, checked: the left one
/// first.
pub open spec fn operands(ir: IR) -> Result<(usize, usize), EmitError> {
    match ir.op {
        IROp::Add | IROp::Sub | IROp::Mul | IROp::Div | IROp::Eq | IROp::Ne | IROp::Lt | IROp::Le => both(
            check_reg(ir.lhs),
            check_reg(ir.rhs),
        ),
        IROp::Imm | IROp::Bprel | IROp::Unless => both(check_reg(ir.lhs), check_num(ir.rhs)),
        IROp::Return => both(check_reg(ir.lhs), Ok(0)),
        IROp::Label | IROp::Jmp => both(check_num(ir.lhs), Ok(0)),
        IROp::Load(size) => sized(size, both(check_reg(ir.lhs), check_reg(ir.rhs))),
        IROp::Store(size) => sized(size, both(check_reg(ir.lhs), check_reg(ir.rhs))),
        IROp::StoreArg(size) => sized(size, both(check_num(ir.lhs), check_arg(ir.rhs))),
        IROp::Call(_, _) => Err(EmitError::UnmappedOpcode),
    }
}

/// `out` and the lines of the instruction with opcode `op` on the checked
/// operands `lhs` and `rhs`, in the function whose epilogue has the label
/// with number `ret`.
pub open spec fn render(out: Seq<char>, op: IROp, lhs: usize, rhs: usize, ret: nat) -> Seq<char> {
    match op {
        IROp::Imm => op2(out, "mov"@, reg_name(lhs), imm_text(rhs)),
        IROp::Add => op2(out, "add"@, reg_name(lhs), reg_name(rhs)),
        IROp::Sub => op2(out, "sub"@, reg_name(lhs), reg_name(rhs)),
        IROp::Mul => op2(
            op1(op2(out, "mov"@, "rax"@, reg_name(rhs)), "mul"@, reg_name(lhs)),
            "mov"@,
            reg_name(lhs),
            "rax"@,
        ),
        IROp::Div => op2(
            op1(op0(op2(out, "mov"@, "rax"@, reg_name(lhs)), "cqo"@), "idiv"@, reg_name(rhs)),
            "mov"@,
            reg_name(lhs),
            "rax"@,
        ),
        IROp::Eq => comparison(out, lhs, rhs, "sete"@),
        IROp::Ne => comparison(out, lhs, rhs, "setne"@),
        IROp::Lt => comparison(out, lhs, rhs, "setl"@),
        IROp::Le => comparison(out, lhs, rhs, "setle"@),
        IROp::Label => label_line(out, label_name(count(lhs))),
        IROp::Return => op1(
            op2(out, "mov"@, "rax"@, reg_name(lhs)),
            "jmp"@,
            end_label_name(ret),
        ),
        IROp::Jmp => op1(out, "jmp"@, label_name(count(lhs))),
        IROp::Unless => op1(
            op2(out, "cmp"@, reg_name(lhs), "0"@),
            "je"@,
            label_name(count(rhs)),
        ),
        IROp::Load(size) => {
            let loaded = op2(out, "mov"@, sized_reg_name(lhs, size), at_address(reg_name(rhs)));
            if size == 1 {
                op2(loaded, "movzb"@, reg_name(lhs), reg8_name(lhs))
            } else {
                loaded
            }
        },
        IROp::Store(size) => op2(
            out,
            "mov"@,
            at_address(reg_name(lhs)),
            sized_reg_name(rhs, size),
        ),
        IROp::Bprel => op2(out, "lea"@, reg_name(lhs), frame_slot(count(rhs))),
        IROp::StoreArg(size) => op2(
            out,
            "mov"@,
            frame_slot(count(lhs)),
            sized_argreg_name(rhs, size),
        ),
        IROp::Call(_, _) => out,
    }
}

/// `out` and the lines of the instruction `ir`, or the reason why it has
/// none.
pub open spec fn emit_ir(out: Seq<char>, ir: IR, ret: nat) -> Result<Seq<char>, EmitError> {
    match operands(ir) {
        Err(e) => Err(e),
        Ok((lhs, rhs)) => Ok(render(out, ir.op, lhs, rhs, ret)),
    }
}

/// `out` and the lines of the instructions of `code` from index `from` on,
/// or the error of the first that has one.
#[verifier::opaque]
pub open spec fn emit_code(out: Seq<char>, code: Seq<IR>, from: int, ret: nat) -> Result<
    Seq<char>,
    EmitError,
>
    decreases code.len() - from,
{
    if from < 0 || from >= code.len() {
        Ok(out)
    } else {
        match emit_ir(out, code[from], ret) {
            Err(e) => Err(e),
            Ok(out) => emit_code(out, code, from + 1, ret),
        }
    }
}

/// `out` and the start of the function `name`: it is made visible and
/// labelled, the caller's frame pointer is saved, and a frame of `size`
/// bytes is made.
pub open spec fn prologue(out: Seq<char>, name: Seq<char>, size: nat) -> Seq<char> {
    op2(
        op2(
            op1(label_line(out + ".global "@ + name + "\n"@, name), "push"@, "rbp"@),
            "mov"@,
            "rbp"@,
            "rsp"@,
        ),
        "sub"@,
        "rsp"@,
        decimal(size),
    )
}

/// `out` and the end of the function with number `ret`: its end label,
/// behind which the frame is given up and control returns.
pub open spec fn epilogue(out: Seq<char>, ret: nat) -> Seq<char> {
    op0(
        op1(op2(label_line(out, end_label_name(ret)), "mov"@, "rsp"@, "rbp"@), "pop"@, "rbp"@),
        "ret"@,
    )
}

/// `out` and the routine of the function `f`, which is the function with
/// number `ret` of its program: prologue, instructions in order, epilogue.
pub open spec fn emit_function(out: Seq<char>, f: FunctionView, ret: nat) -> Result<
    Seq<char>,
    EmitError,
> {
    match emit_code(prologue(out, f.name, f.stacksize), f.code, 0, ret) {
        Err(e) => Err(e),
        Ok(body) => Ok(epilogue(body, ret)),
    }
}

/// `out` and the routines of the functions of `fns` from index `from` on.
#[verifier::opaque]
pub open spec fn emit_functions(out: Seq<char>, fns: Seq<FunctionView>, from: int) -> Result<
    Seq<char>,
    EmitError,
>
    decreases fns.len() - from,
{
    if from < 0 || from >= fns.len() {
        Ok(out)
    } else {
        match emit_function(out, fns[from], from as nat) {
            Err(e) => Err(e),
            Ok(out) => emit_functions(out, fns, from + 1),
        }
    }
}

/// The assembly text of the program `fns`: the directive for the syntax,
/// then the routines of the functions in order.
pub open spec fn emit_program(fns: Seq<FunctionView>) -> Result<Seq<char>, EmitError> {
    emit_functions(".intel_syntax noprefix\n"@, fns, 0)
}

/// The defining equation of [`emit_code`].
pub proof fn lemma_emit_code(out: Seq<char>, code: Seq<IR>, from: int, ret: nat)
    ensures
        emit_code(out, code, from, ret) == ({
        if from < 0 || from >= code.len() {
            Ok(out)
        } else {
            match emit_ir(out, code[from], ret) {
                Err(e) => Err(e),
                Ok(out) => emit_code(out, code, from + 1, ret),
            }
        }
        }),
{
    reveal(emit_code);
}

/// The defining equation of [`emit_functions`].
pub proof fn lemma_emit_functions(out: Seq<char>, fns: Seq<FunctionView>, from: int)
    ensures
        emit_functions(out, fns, from) == ({
        if from < 0 || from >= fns.len() {
            Ok(out)
        } else {
            match emit_function(out, fns[from], from as nat) {
                Err(e) => Err(e),
                Ok(out) => emit_functions(out, fns, from + 1),
            }
        }
        }),
{
    reveal(emit_functions);
}

/// The name of the physical register with index `r`.
fn reg(r: usize) -> (name: &'static str)
    requires
        r < NUM_REGS,
    ensures
        name@ == reg_name(r),
{
    match r {
        0 => "r10",
        1 => "r11",
        2 => "rbx",
        3 => "r12",
        4 => "r13",
        5 => "r14",
        _ => "r15",
    }
}

/// The name of the low byte of the physical register with index `r`.
fn reg8(r: usize) -> (name: &'static str)
    requires
        r < NUM_REGS,
    ensures
        name@ == reg8_name(r),
{
    match r {
        0 => "r10b",
        1 => "r11b",
        2 => "bl",
        3 => "r12b",
        4 => "r13b",
        5 => "r14b",
        _ => "r15b",
    }
}

/// The register with index `r` in the width of `size` bytes.
fn sized_reg(r: usize, size: u8) -> (name: &'static str)
    requires
        r < NUM_REGS,
        size == 1 || size == 8,
    ensures
        name@ == sized_reg_name(r, size),
{
    if size == 1 {
        reg8(r)
    } else {
        reg(r)
    }
}

/// The argument register with index `i` in the width of `size` bytes.
fn sized_argreg(i: usize, size: u8) -> (name: &'static str)
    requires
        i < NUM_ARGREGS,
        size == 1 || size == 8,
    ensures
        name@ == sized_argreg_name(i, size),
{
    if size == 1 {
        match i {
            0 => "dil",
            1 => "sil",
            2 => "dl",
            3 => "cl",
            4 => "r8b",
            _ => "r9b",
        }
    } else {
        match i {
            0 => "rdi",
            1 => "rsi",
            2 => "rdx",
            3 => "rcx",
            4 => "r8",
            _ => "r9",
        }
    }
}

/// Appends `n` in base ten to `out`.
fn push_decimal(out: &mut String, n: u64)
    ensures
        final(out)@ == old(out)@ + decimal(n as nat),
    decreases n,
{
    if n >= 10 {
        push_decimal(out, n / 10);
    }
    let d: u8 = (n % 10) as u8;
    let c: char = (48u8 + d) as char;
    out.push(c);
    proof {
        if n >= 10 {
            assert(final(out)@ =~= old(out)@ + decimal((n / 10) as nat).push(
                digit((n % 10) as nat),
            ));
        } else {
            assert(final(out)@ =~= old(out)@ + seq![digit(n as nat)]);
        }
    }
}

/// `prefix`, then `n` in base ten, then `suffix`.
fn numbered(prefix: &str, n: usize, suffix: &str) -> (text: String)
    ensures
        text@ == prefix@ + decimal(n as nat) + suffix@,
{
    let mut text = String::from_str(prefix);
    push_decimal(&mut text, n as u64);
    text.append(suffix);
    text
}

/// The name of the label `id` of a function's instructions.
fn label(id: usize) -> (text: String)
    ensures
        text@ == label_name(count(id)),
{
    let mut text = String::from_str(".L");
    push_decimal(&mut text, id as u64);
    text
}

/// The name of the label before the epilogue of the function with number
/// `id`.
fn end_label(id: usize) -> (text: String)
    ensures
        text@ == end_label_name(id as nat),
{
    let mut text = String::from_str(".Lend");
    push_decimal(&mut text, id as u64);
    text
}

/// The memory operand `offset` bytes below the frame pointer.
fn slot(offset: usize) -> (text: String)
    ensures
        text@ == frame_slot(offset as nat),
{
    numbered("[rbp-", offset, "]")
}

/// The memory operand at the address in the register named `reg`.
fn address(reg: &str) -> (text: String)
    ensures
        text@ == at_address(reg@),
{
    let mut text = String::from_str("[");
    text.append(reg);
    text.append("]");
    text
}

/// The number `n` in base ten.
fn number(n: usize) -> (text: String)
    ensures
        text@ == decimal(n as nat),
{
    let mut text = String::new();
    push_decimal(&mut text, n as u64);
    assert(text@ =~= decimal(n as nat));
    text
}

/// The text of the immediate operand `v`.
fn immediate(v: usize) -> (text: String)
    ensures
        text@ == imm_text(v),
{
    let value: i32 = #[verifier::truncate]
    (v as i32);
    let mut text = String::new();
    if value < 0 {
        text.push('-');
        let magnitude: u64 = (-(value as i64)) as u64;
        push_decimal(&mut text, magnitude);
        assert(text@ =~= seq!['-'] + decimal((-value) as nat));
    } else {
        push_decimal(&mut text, value as u64);
        assert(text@ =~= decimal(value as nat));
    }
    text
}

/// The operand `o` as a virtual register that has a physical register.
fn reg_operand(o: Option<usize>) -> (r: Result<usize, EmitError>)
    ensures
        r == check_reg(o),
{
    match o {
        None => Err(EmitError::MissingOperand),
        Some(r) => if r < NUM_REGS {
            Ok(r)
        } else {
            Err(EmitError::RegisterOutOfRange)
        },
    }
}

/// The operand `o` as a number.
fn num_operand(o: Option<usize>) -> (r: Result<usize, EmitError>)
    ensures
        r == check_num(o),
{
    match o {
        None => Err(EmitError::MissingOperand),
        Some(n) => Ok(n),
    }
}

/// The operand `o` as the index of an argument that comes in a register.
fn arg_operand(o: Option<usize>) -> (r: Result<usize, EmitError>)
    ensures
        r == check_arg(o),
{
    match o {
        None => Err(EmitError::MissingOperand),
        Some(i) => if i < NUM_ARGREGS {
            Ok(i)
        } else {
            Err(EmitError::ArgumentOutOfRange)
        },
    }
}

/// Both operands, or the error of the first that has one.
fn pair(lhs: Result<usize, EmitError>, rhs: Result<usize, EmitError>) -> (r: Result<
    (usize, usize),
    EmitError,
>)
    ensures
        r == both(lhs, rhs),
{
    match lhs {
        Err(e) => Err(e),
        Ok(l) => match rhs {
            Err(e) => Err(e),
            Ok(r) => Ok((l, r)),
        },
    }
}

/// The checked operands of the instruction `ir`.
fn checked_operands(ir: &IR) -> (r: Result<(usize, usize), EmitError>)
    ensures
        r == operands(*ir),
{
    match &ir.op {
        IROp::Add | IROp::Sub | IROp::Mul | IROp::Div | IROp::Eq | IROp::Ne | IROp::Lt | IROp::Le => pair(
            reg_operand(ir.lhs),
            reg_operand(ir.rhs),
        ),
        IROp::Imm | IROp::Bprel | IROp::Unless => pair(reg_operand(ir.lhs), num_operand(ir.rhs)),
        IROp::Return => pair(reg_operand(ir.lhs), Ok(0)),
        IROp::Label | IROp::Jmp => pair(num_operand(ir.lhs), Ok(0)),
        IROp::Load(size) | IROp::Store(size) => {
            if *size == 1 || *size == 8 {
                pair(reg_operand(ir.lhs), reg_operand(ir.rhs))
            } else {
                Err(EmitError::BadWidth)
            }
        },
        IROp::StoreArg(size) => {
            if *size == 1 || *size == 8 {
                pair(num_operand(ir.lhs), arg_operand(ir.rhs))
            } else {
                Err(EmitError::BadWidth)
            }
        },
        IROp::Call(_, _) => Err(EmitError::UnmappedOpcode),
    }
}

/// The assembly text of a program at work: the text so far, and the number
/// of the function whose routine comes next.
struct Generator {
    src: String,
    label: usize,
}

impl Generator {
    /// A generator that has written the directive for the syntax.
    fn new() -> (g: Self)
        ensures
            g.src@ == ".intel_syntax noprefix\n"@,
            g.label == 0,
    {
        Self { src: String::from_str(".intel_syntax noprefix\n"), label: 0 }
    }

    /// Writes a line with an instruction without operands.
    fn emit(&mut self, mnemonic: &str)
        ensures
            final(self).src@ == op0(old(self).src@, mnemonic@),
            final(self).label == old(self).label,
    {
        self.src.append("  ");
        self.src.append(mnemonic);
        self.src.append("\n");
    }

    /// Writes a line with an instruction with one operand.
    fn emit1(&mut self, mnemonic: &str, a: &str)
        ensures
            final(self).src@ == op1(old(self).src@, mnemonic@, a@),
            final(self).label == old(self).label,
    {
        self.src.append("  ");
        self.src.append(mnemonic);
        self.src.append(" ");
        self.src.append(a);
        self.src.append("\n");
    }

    /// Writes a line with an instruction with two operands.
    fn emit2(&mut self, mnemonic: &str, a: &str, b: &str)
        ensures
            final(self).src@ == op2(old(self).src@, mnemonic@, a@, b@),
            final(self).label == old(self).label,
    {
        self.src.append("  ");
        self.src.append(mnemonic);
        self.src.append(" ");
        self.src.append(a);
        self.src.append(", ");
        self.src.append(b);
        self.src.append("\n");
    }

    /// Writes a line that defines the label `name`.
    fn emit_label(&mut self, name: &str)
        ensures
            final(self).src@ == label_line(old(self).src@, name@),
            final(self).label == old(self).label,
    {
        self.src.append(name);
        self.src.append(":\n");
    }

    /// Writes the three lines of a comparison whose flag `set` names.
    fn emit_cmp(&mut self, lhs: usize, rhs: usize, set: &str)
        requires
            lhs < NUM_REGS,
            rhs < NUM_REGS,
        ensures
            final(self).src@ == comparison(old(self).src@, lhs, rhs, set@),
            final(self).label == old(self).label,
    {
        self.emit2("cmp", reg(lhs), reg(rhs));
        self.emit1(set, reg8(lhs));
        self.emit2("movzb", reg(lhs), reg8(lhs));
    }

    /// Writes the lines of the instruction `ir` of the function with number
    /// `ret`.
    fn emit_ir(&mut self, ir: &IR, ret: usize) -> (r: Result<(), EmitError>)
        ensures
            final(self).label == old(self).label,
            match emit_ir(old(self).src@, *ir, count(ret)) {
                Ok(text) => r is Ok && final(self).src@ == text,
                Err(e) => r == Err::<(), EmitError>(e),
            },
    {
        let (lhs, rhs) = match checked_operands(ir) {
            Ok(operands) => operands,
            Err(e) => {
                return Err(e);
            },
        };
        match &ir.op {
            IROp::Imm => {
                let value = immediate(rhs);
                self.emit2("mov", reg(lhs), value.as_str());
            },
            IROp::Add => {
                self.emit2("add", reg(lhs), reg(rhs));
            },
            IROp::Sub => {
                self.emit2("sub", reg(lhs), reg(rhs));
            },
            IROp::Mul => {
                self.emit2("mov", "rax", reg(rhs));
                self.emit1("mul", reg(lhs));
                self.emit2("mov", reg(lhs), "rax");
            },
            IROp::Div => {
                self.emit2("mov", "rax", reg(lhs));
                self.emit("cqo");
                self.emit1("idiv", reg(rhs));
                self.emit2("mov", reg(lhs), "rax");
            },
            IROp::Eq => {
                self.emit_cmp(lhs, rhs, "sete");
            },
            IROp::Ne => {
                self.emit_cmp(lhs, rhs, "setne");
            },
            IROp::Lt => {
                self.emit_cmp(lhs, rhs, "setl");
            },
            IROp::Le => {
                self.emit_cmp(lhs, rhs, "setle");
            },
            IROp::Label => {
                let name = label(lhs);
                self.emit_label(name.as_str());
            },
            IROp::Return => {
                let name = end_label(ret);
                self.emit2("mov", "rax", reg(lhs));
                self.emit1("jmp", name.as_str());
            },
            IROp::Jmp => {
                let name = label(lhs);
                self.emit1("jmp", name.as_str());
            },
            IROp::Unless => {
                let name = label(rhs);
                self.emit2("cmp", reg(lhs), "0");
                self.emit1("je", name.as_str());
            },
            IROp::Load(size) => {
                let from = address(reg(rhs));
                self.emit2("mov", sized_reg(lhs, *size), from.as_str());
                if *size == 1 {
                    self.emit2("movzb", reg(lhs), reg8(lhs));
                }
            },
            IROp::Store(size) => {
                let to = address(reg(lhs));
                self.emit2("mov", to.as_str(), sized_reg(rhs, *size));
            },
            IROp::Bprel => {
                let from = slot(rhs);
                self.emit2("lea", reg(lhs), from.as_str());
            },
            IROp::StoreArg(size) => {
                let to = slot(lhs);
                self.emit2("mov", to.as_str(), sized_argreg(rhs, *size));
            },
            IROp::Call(_, _) => {},
        }
        Ok(())
    }

    /// Writes the routine of the function `f`, which takes the next number.
    #[verifier::loop_isolation(false)]
    fn gen(&mut self, f: &Function) -> (r: Result<(), EmitError>)
        requires
            old(self).label < usize::MAX,
        ensures
            match emit_function(old(self).src@, f@, old(self).label as nat) {
                Ok(text) => r is Ok && final(self).src@ == text && final(self).label == old(
                    self,
                ).label + 1,
                Err(e) => r == Err::<(), EmitError>(e),
            },
    {
        let ret = self.label;
        self.label += 1;
        self.src.append(".global ");
        self.src.append(f.name.as_str());
        self.src.append("\n");
        self.emit_label(f.name.as_str());
        self.emit1("push", "rbp");
        self.emit2("mov", "rbp", "rsp");
        let size = number(f.stacksize);
        self.emit2("sub", "rsp", size.as_str());
        let ghost start = self.src@;
        let mut i: usize = 0;
        while i < f.code.len()
            invariant
                i <= f.code.len(),
                self.label == ret + 1,
                emit_code(start, f.code@, 0, ret as nat) == emit_code(
                    self.src@,
                    f.code@,
                    i as int,
                    ret as nat,
                ),
            decreases f.code.len() - i,
        {
            proof {
                lemma_emit_code(self.src@, f.code@, i as int, ret as nat);
            }
            match self.emit_ir(&f.code[i], ret) {
                Ok(()) => {},
                Err(e) => {
                    return Err(e);
                },
            }
            i += 1;
        }
        proof {
            lemma_emit_code(self.src@, f.code@, i as int, ret as nat);
        }
        let name = end_label(ret);
        self.emit_label(name.as_str());
        self.emit2("mov", "rsp", "rbp");
        self.emit1("pop", "rbp");
        self.emit("ret");
        Ok(())
    }
}

/// The assembly text of the program `fns`: one routine for each function,
/// in order, behind the directive for the syntax. The result is the error
/// of the first instruction that cannot be turned into assembly, if there
/// is one.
pub fn gen_x86(fns: Vec<Function>) -> (r: Result<String, EmitError>)
    ensures
        match emit_program(functions_view(fns@)) {
            Ok(text) => r is Ok && r->Ok_0@ == text,
            Err(e) => r == Err::<String, EmitError>(e),
        },
{
    let mut generator = Generator::new();
    let mut i: usize = 0;
    while i < fns.len()
        invariant
            i <= fns.len(),
            generator.label == i,
            emit_program(functions_view(fns@)) == emit_functions(
                generator.src@,
                functions_view(fns@),
                i as int,
            ),
        decreases fns.len() - i,
    {
        proof {
            lemma_emit_functions(generator.src@, functions_view(fns@), i as int);
            assert(functions_view(fns@)[i as int] == fns[i as int]@);
        }
        match generator.gen(&fns[i]) {
            Ok(()) => {},
            Err(e) => {
                return Err(e);
            },
        }
        i += 1;
    }
    proof {
        lemma_emit_functions(generator.src@, functions_view(fns@), i as int);
    }
    Ok(generator.src)
}

} // verus!
