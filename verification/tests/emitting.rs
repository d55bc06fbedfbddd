use rustcc::gen_ir::{Function, IROp, IR};
use rustcc::gen_x86::{gen_x86, EmitError, NUM_ARGREGS, NUM_REGS};

fn function(name: &str, code: Vec<IR>) -> Function {
    Function::new(name.to_string(), code, 208)
}

fn ir(op: IROp, lhs: usize, rhs: usize) -> IR {
    IR::new(op, Some(lhs), Some(rhs))
}

fn lines_of(code: Vec<IR>) -> Vec<String> {
    let text = gen_x86(vec![function("f", code)]).unwrap();
    let all: Vec<&str> = text.lines().collect();
    assert_eq!(
        all[..6],
        [".intel_syntax noprefix", ".global f", "f:", "  push rbp", "  mov rbp, rsp", "  sub rsp, 208"]
    );
    assert_eq!(all[all.len() - 4..], [".Lend0:", "  mov rsp, rbp", "  pop rbp", "  ret"]);
    assert!(text.ends_with("  ret\n"));
    all[6..all.len() - 4].iter().map(|l| l.to_string()).collect()
}

fn error_of(code: Vec<IR>) -> EmitError {
    gen_x86(vec![function("f", code)]).unwrap_err()
}

#[test]
fn an_empty_program_is_the_directive_alone() {
    assert_eq!(gen_x86(vec![]).unwrap(), ".intel_syntax noprefix\n");
}

#[test]
fn a_function_has_a_prologue_and_one_epilogue() {
    let text = gen_x86(vec![Function::new("main".to_string(), vec![], 16)]).unwrap();
    assert_eq!(
        text,
        ".intel_syntax noprefix\n.global main\nmain:\n  push rbp\n  mov rbp, rsp\n  sub rsp, 16\n\
         .Lend0:\n  mov rsp, rbp\n  pop rbp\n  ret\n"
    );
}

#[test]
fn every_return_jumps_to_the_one_epilogue() {
    let text = gen_x86(vec![function(
        "main",
        vec![
            ir(IROp::Imm, 0, 1),
            IR::new(IROp::Return, Some(0), None),
            ir(IROp::Imm, 1, 2),
            IR::new(IROp::Return, Some(1), None),
        ],
    )])
    .unwrap();
    assert_eq!(text.matches("  jmp .Lend0\n").count(), 2);
    assert_eq!(text.matches(".Lend0:\n").count(), 1);
    assert_eq!(text.matches("  ret\n").count(), 1);
}

#[test]
fn functions_come_in_order_with_end_labels_of_their_own() {
    let text = gen_x86(vec![
        function("f", vec![IR::new(IROp::Return, Some(0), None)]),
        Function::new("g".to_string(), vec![IR::new(IROp::Return, Some(1), None)], 0),
    ])
    .unwrap();
    assert_eq!(
        text,
        ".intel_syntax noprefix\n\
         .global f\nf:\n  push rbp\n  mov rbp, rsp\n  sub rsp, 208\n\
         \x20 mov rax, r10\n  jmp .Lend0\n.Lend0:\n  mov rsp, rbp\n  pop rbp\n  ret\n\
         .global g\ng:\n  push rbp\n  mov rbp, rsp\n  sub rsp, 0\n\
         \x20 mov rax, r11\n  jmp .Lend1\n.Lend1:\n  mov rsp, rbp\n  pop rbp\n  ret\n"
    );
}

#[test]
fn a_virtual_register_is_the_physical_register_with_its_index() {
    let names = ["r10", "r11", "rbx", "r12", "r13", "r14", "r15"];
    assert_eq!(names.len(), NUM_REGS);
    for (r, name) in names.iter().enumerate() {
        assert_eq!(lines_of(vec![ir(IROp::Imm, r, 5)]), [format!("  mov {}, 5", name)]);
    }
}

#[test]
fn an_immediate_is_a_signed_number_of_32_bits() {
    assert_eq!(lines_of(vec![ir(IROp::Imm, 0, 0)]), ["  mov r10, 0"]);
    assert_eq!(lines_of(vec![ir(IROp::Imm, 0, 2147483647)]), ["  mov r10, 2147483647"]);
    assert_eq!(lines_of(vec![ir(IROp::Imm, 0, usize::MAX)]), ["  mov r10, -1"]);
    assert_eq!(lines_of(vec![ir(IROp::Imm, 0, 0x8000_0000)]), ["  mov r10, -2147483648"]);
    assert_eq!(lines_of(vec![ir(IROp::Imm, 0, (-120i64) as usize)]), ["  mov r10, -120"]);
}

#[test]
fn addition_and_subtraction_work_in_place() {
    assert_eq!(lines_of(vec![ir(IROp::Add, 0, 1)]), ["  add r10, r11"]);
    assert_eq!(lines_of(vec![ir(IROp::Sub, 2, 6)]), ["  sub rbx, r15"]);
}

#[test]
fn multiplication_goes_through_the_accumulator() {
    assert_eq!(
        lines_of(vec![ir(IROp::Mul, 0, 1)]),
        ["  mov rax, r11", "  mul r10", "  mov r10, rax"]
    );
}

#[test]
fn division_goes_through_the_accumulator() {
    assert_eq!(
        lines_of(vec![ir(IROp::Div, 3, 4)]),
        ["  mov rax, r12", "  cqo", "  idiv r13", "  mov r12, rax"]
    );
}

#[test]
fn a_comparison_sets_the_low_byte_and_widens_it() {
    assert_eq!(
        lines_of(vec![ir(IROp::Eq, 0, 1)]),
        ["  cmp r10, r11", "  sete r10b", "  movzb r10, r10b"]
    );
    assert_eq!(
        lines_of(vec![ir(IROp::Ne, 2, 1)]),
        ["  cmp rbx, r11", "  setne bl", "  movzb rbx, bl"]
    );
    assert_eq!(
        lines_of(vec![ir(IROp::Lt, 5, 6)]),
        ["  cmp r14, r15", "  setl r14b", "  movzb r14, r14b"]
    );
    assert_eq!(
        lines_of(vec![ir(IROp::Le, 1, 0)]),
        ["  cmp r11, r10", "  setle r11b", "  movzb r11, r11b"]
    );
}

#[test]
fn labels_and_jumps_use_the_number_of_the_label() {
    assert_eq!(lines_of(vec![IR::new(IROp::Label, Some(12), None)]), [".L12:"]);
    assert_eq!(lines_of(vec![IR::new(IROp::Jmp, Some(3), None)]), ["  jmp .L3"]);
    assert_eq!(lines_of(vec![ir(IROp::Unless, 1, 40)]), ["  cmp r11, 0", "  je .L40"]);
    assert_eq!(lines_of(vec![ir(IROp::Label, 7, 99)]), [".L7:"]);
}

#[test]
fn a_load_honours_its_width() {
    assert_eq!(lines_of(vec![ir(IROp::Load(8), 0, 1)]), ["  mov r10, [r11]"]);
    assert_eq!(
        lines_of(vec![ir(IROp::Load(1), 2, 1)]),
        ["  mov bl, [r11]", "  movzb rbx, bl"]
    );
}

#[test]
fn a_store_honours_its_width() {
    assert_eq!(lines_of(vec![ir(IROp::Store(8), 0, 1)]), ["  mov [r10], r11"]);
    assert_eq!(lines_of(vec![ir(IROp::Store(1), 0, 2)]), ["  mov [r10], bl"]);
}

#[test]
fn an_address_is_relative_to_the_frame_pointer() {
    assert_eq!(lines_of(vec![ir(IROp::Bprel, 0, 8)]), ["  lea r10, [rbp-8]"]);
    assert_eq!(lines_of(vec![ir(IROp::Bprel, 6, 208)]), ["  lea r15, [rbp-208]"]);
    assert_eq!(
        lines_of(vec![ir(IROp::Bprel, 0, 18446744073709551615)]),
        ["  lea r10, [rbp-18446744073709551615]"]
    );
}

#[test]
fn an_argument_is_stored_from_its_register() {
    let names = ["rdi", "rsi", "rdx", "rcx", "r8", "r9"];
    let bytes = ["dil", "sil", "dl", "cl", "r8b", "r9b"];
    assert_eq!(names.len(), NUM_ARGREGS);
    for i in 0..NUM_ARGREGS {
        assert_eq!(
            lines_of(vec![ir(IROp::StoreArg(8), 8 * (i + 1), i)]),
            [format!("  mov [rbp-{}], {}", 8 * (i + 1), names[i])]
        );
        assert_eq!(
            lines_of(vec![ir(IROp::StoreArg(1), i, i)]),
            [format!("  mov [rbp-{}], {}", i, bytes[i])]
        );
    }
}

#[test]
fn a_return_moves_the_value_and_jumps_to_the_epilogue() {
    assert_eq!(
        lines_of(vec![IR::new(IROp::Return, Some(4), None)]),
        ["  mov rax, r13", "  jmp .Lend0"]
    );
    assert_eq!(lines_of(vec![ir(IROp::Return, 4, 100)]), ["  mov rax, r13", "  jmp .Lend0"]);
}

#[test]
fn an_eighth_register_is_reported() {
    assert_eq!(error_of(vec![ir(IROp::Imm, 7, 1)]), EmitError::RegisterOutOfRange);
    assert_eq!(error_of(vec![ir(IROp::Add, 0, 7)]), EmitError::RegisterOutOfRange);
    assert_eq!(error_of(vec![ir(IROp::Add, 7, 0)]), EmitError::RegisterOutOfRange);
    assert_eq!(error_of(vec![ir(IROp::Unless, 100, 0)]), EmitError::RegisterOutOfRange);
    assert_eq!(error_of(vec![ir(IROp::Load(8), 6, 7)]), EmitError::RegisterOutOfRange);
    assert_eq!(error_of(vec![ir(IROp::Store(1), 7, 6)]), EmitError::RegisterOutOfRange);
    assert_eq!(error_of(vec![ir(IROp::Bprel, usize::MAX, 8)]), EmitError::RegisterOutOfRange);
    assert_eq!(
        error_of(vec![IR::new(IROp::Return, Some(7), None)]),
        EmitError::RegisterOutOfRange
    );
}

#[test]
fn a_seventh_argument_is_reported() {
    assert_eq!(error_of(vec![ir(IROp::StoreArg(8), 8, 6)]), EmitError::ArgumentOutOfRange);
}

#[test]
fn a_missing_operand_is_reported() {
    assert_eq!(error_of(vec![IR::new(IROp::Imm, None, Some(1))]), EmitError::MissingOperand);
    assert_eq!(error_of(vec![IR::new(IROp::Imm, Some(0), None)]), EmitError::MissingOperand);
    assert_eq!(error_of(vec![IR::new(IROp::Add, Some(0), None)]), EmitError::MissingOperand);
    assert_eq!(error_of(vec![IR::new(IROp::Return, None, None)]), EmitError::MissingOperand);
    assert_eq!(error_of(vec![IR::new(IROp::Label, None, Some(1))]), EmitError::MissingOperand);
    assert_eq!(error_of(vec![IR::new(IROp::Jmp, None, None)]), EmitError::MissingOperand);
    assert_eq!(error_of(vec![IR::new(IROp::Unless, Some(0), None)]), EmitError::MissingOperand);
    assert_eq!(error_of(vec![IR::new(IROp::Bprel, Some(0), None)]), EmitError::MissingOperand);
    assert_eq!(error_of(vec![IR::new(IROp::Load(8), Some(0), None)]), EmitError::MissingOperand);
    assert_eq!(error_of(vec![IR::new(IROp::StoreArg(8), None, Some(0))]), EmitError::MissingOperand);
}

#[test]
fn the_left_operand_is_checked_first() {
    assert_eq!(error_of(vec![IR::new(IROp::Add, Some(7), None)]), EmitError::RegisterOutOfRange);
    assert_eq!(error_of(vec![IR::new(IROp::Add, None, Some(7))]), EmitError::MissingOperand);
}

#[test]
fn a_width_other_than_one_or_eight_is_reported() {
    assert_eq!(error_of(vec![ir(IROp::Load(4), 0, 1)]), EmitError::BadWidth);
    assert_eq!(error_of(vec![ir(IROp::Store(0), 0, 1)]), EmitError::BadWidth);
    assert_eq!(error_of(vec![ir(IROp::StoreArg(2), 8, 0)]), EmitError::BadWidth);
    assert_eq!(error_of(vec![IR::new(IROp::Load(3), None, None)]), EmitError::BadWidth);
}

#[test]
fn a_call_has_no_assembly() {
    assert_eq!(
        error_of(vec![ir(IROp::Call("f".to_string(), 0), 0, 0)]),
        EmitError::UnmappedOpcode
    );
}

#[test]
fn the_first_bad_instruction_is_reported() {
    assert_eq!(
        error_of(vec![ir(IROp::Imm, 0, 1), ir(IROp::Load(2), 0, 0), ir(IROp::Imm, 9, 1)]),
        EmitError::BadWidth
    );
    let second = function("g", vec![ir(IROp::Imm, 9, 1)]);
    assert_eq!(
        gen_x86(vec![function("f", vec![]), second]).unwrap_err(),
        EmitError::RegisterOutOfRange
    );
}
