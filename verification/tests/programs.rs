use rustcc::compile::{compile, CompileError};
use rustcc::gen_ir::{gen_ir, IROp, LowerError, IR};
use rustcc::gen_x86::EmitError;
use rustcc::parse::{parse, ParseError, ParseErrorKind};
use rustcc::token::{tokenize, LexError, LexErrorKind};
use std::collections::HashMap;

/// Runs the instructions of one function and gives the value it returns.
fn run(code: &[IR], args: &[i64]) -> i64 {
    let place = |label: usize| {
        let at: Vec<usize> = (0..code.len())
            .filter(|&i| code[i].op == IROp::Label && code[i].lhs == Some(label))
            .collect();
        assert_eq!(at.len(), 1);
        at[0]
    };
    let mut regs: HashMap<usize, i64> = HashMap::new();
    let mut memory: HashMap<i64, i64> = HashMap::new();
    let mut pc = 0;
    let mut steps = 0;
    while pc < code.len() {
        steps += 1;
        assert!(steps < 10000);
        let ir = &code[pc];
        pc += 1;
        let lhs = ir.lhs.unwrap();
        let rhs = ir.rhs.unwrap_or(0);
        match ir.op {
            IROp::Imm => {
                regs.insert(lhs, rhs as i32 as i64);
            }
            IROp::Add => {
                regs.insert(lhs, regs[&lhs].wrapping_add(regs[&rhs]));
            }
            IROp::Sub => {
                regs.insert(lhs, regs[&lhs].wrapping_sub(regs[&rhs]));
            }
            IROp::Mul => {
                regs.insert(lhs, regs[&lhs].wrapping_mul(regs[&rhs]));
            }
            IROp::Div => {
                regs.insert(lhs, regs[&lhs] / regs[&rhs]);
            }
            IROp::Eq => {
                regs.insert(lhs, (regs[&lhs] == regs[&rhs]) as i64);
            }
            IROp::Ne => {
                regs.insert(lhs, (regs[&lhs] != regs[&rhs]) as i64);
            }
            IROp::Lt => {
                regs.insert(lhs, (regs[&lhs] < regs[&rhs]) as i64);
            }
            IROp::Le => {
                regs.insert(lhs, (regs[&lhs] <= regs[&rhs]) as i64);
            }
            IROp::Bprel => {
                regs.insert(lhs, -(rhs as i64));
            }
            IROp::Load(_) => {
                regs.insert(lhs, memory[&regs[&rhs]]);
            }
            IROp::Store(_) => {
                memory.insert(regs[&lhs], regs[&rhs]);
            }
            IROp::StoreArg(_) => {
                memory.insert(-(lhs as i64), args[rhs]);
            }
            IROp::Label => {}
            IROp::Jmp => pc = place(lhs),
            IROp::Unless => {
                if regs[&lhs] == 0 {
                    pc = place(rhs);
                }
            }
            IROp::Return => return regs[&lhs],
            _ => panic!("{:?}", ir),
        }
    }
    panic!("no return");
}

fn value(body: &str) -> i64 {
    let tokens = tokenize(&format!("main() {{ {} }}", body)).unwrap();
    let fns = gen_ir(parse(&tokens).unwrap()).unwrap();
    run(&fns[0].code, &[])
}

fn call(src: &str, args: &[i64]) -> i64 {
    let tokens = tokenize(src).unwrap();
    let fns = gen_ir(parse(&tokens).unwrap()).unwrap();
    run(&fns[0].code, args)
}

#[test]
fn a_literal_is_returned() {
    assert_eq!(value("return 0;"), 0);
    assert_eq!(value("return 42;"), 42);
    assert_eq!(value("return 2147483647;"), 2147483647);
}

#[test]
fn arithmetic_follows_precedence_and_groups_to_the_left() {
    assert_eq!(value("return 1+2*3;"), 7);
    assert_eq!(value("return (1+2)*3;"), 9);
    assert_eq!(value("return 10-2-3;"), 5);
    assert_eq!(value("return 100/5/2;"), 10);
    assert_eq!(value("return 2*3+4*5;"), 26);
    assert_eq!(value("return -3+5;"), 2);
    assert_eq!(value("return -(3+5)*2;"), -16);
    assert_eq!(value("return 1+2+3 - (4-5);"), 7);
}

#[test]
fn division_is_signed_and_rounds_towards_zero() {
    assert_eq!(value("return (1-3)/2;"), -1);
    assert_eq!(value("return 6/(0-2);"), -3);
    assert_eq!(value("return -7/2;"), -3);
    assert_eq!(value("return 7/-2;"), -3);
    assert_eq!(value("return -7/-2;"), 3);
    assert_eq!(value("return 7/2;"), 3);
}

#[test]
fn compile_divides_with_the_signed_instruction() {
    let text = compile("main() { return (1-3)/2; }").unwrap();
    let lines: Vec<&str> = text.lines().collect();
    let at = lines.iter().position(|l| *l == "  cqo").unwrap();
    assert_eq!(lines[at - 1], "  mov rax, r10");
    assert_eq!(lines[at + 1], "  idiv rbx");
    assert_eq!(lines[at + 2], "  mov r10, rax");
    assert!(!text.contains("  div "));
}

#[test]
fn comparisons_give_one_or_zero() {
    assert_eq!(value("return 1<2;"), 1);
    assert_eq!(value("return 2<1;"), 0);
    assert_eq!(value("return 2>1;"), 1);
    assert_eq!(value("return 1>2;"), 0);
    assert_eq!(value("return 2<=2;"), 1);
    assert_eq!(value("return 3<=2;"), 0);
    assert_eq!(value("return 2>=2;"), 1);
    assert_eq!(value("return 2>=3;"), 0);
    assert_eq!(value("return 1==1;"), 1);
    assert_eq!(value("return 1!=1;"), 0);
    assert_eq!(value("return 1+1==2;"), 1);
}

#[test]
fn assignment_is_right_associative_and_has_a_value() {
    assert_eq!(value("a=b=3; return a;"), 3);
    assert_eq!(value("a=b=3; return b;"), 3);
    assert_eq!(value("return a=b=3;"), 3);
    assert_eq!(value("a=1; b=2; return a+b;"), 3);
}

#[test]
fn a_variable_that_is_named_again_is_the_same_variable() {
    assert_eq!(value("a=1; a=a+1; return a;"), 2);
}

#[test]
fn a_conditional_takes_one_of_its_branches() {
    assert_eq!(value("if (0) return 1; return 2;"), 2);
    assert_eq!(value("if (1) return 1; else return 2;"), 1);
    assert_eq!(value("if (1) return 1; return 2;"), 1);
    assert_eq!(value("if (0) return 1; else return 2;"), 2);
    assert_eq!(value("a=5; if (a>3) { a=a*2; } else { a=0; } return a;"), 10);
    assert_eq!(value("a=1; if (a>3) { a=a*2; } else { a=0; } return a;"), 0);
    assert_eq!(value("if (1) if (0) return 1; else return 2; return 3;"), 2);
}

#[test]
fn a_function_computes_with_its_arguments() {
    assert_eq!(call("add(x, y) { return x + y; }", &[2, 40]), 42);
    assert_eq!(call("pick(a, b) { if (a) return b; return a; }", &[1, 7]), 7);
    assert_eq!(call("pick(a, b) { if (a) return b; return a; }", &[0, 7]), 0);
    assert_eq!(call("max(a, b) { if (a > b) return a; else return b; }", &[3, 9]), 9);
    assert_eq!(call("max(a, b) { if (a > b) return a; else return b; }", &[9, 3]), 9);
    assert_eq!(call("f(a) { b = a * a; a = b - a; return a / 2; }", &[5]), 10);
}

#[test]
fn a_function_stores_its_arguments_before_it_runs() {
    let tokens = tokenize("pick(a, b) { if (a) return b; return a; }").unwrap();
    let fns = gen_ir(parse(&tokens).unwrap()).unwrap();
    let code = &fns[0].code;
    assert_eq!(code[0].op, IROp::StoreArg(8));
    assert_eq!((code[0].lhs, code[0].rhs), (Some(8), Some(0)));
    assert_eq!(code[1].op, IROp::StoreArg(8));
    assert_eq!((code[1].lhs, code[1].rhs), (Some(16), Some(1)));
}

#[test]
fn compile_returns_a_literal() {
    assert_eq!(
        compile("main() { return 42; }").unwrap(),
        ".intel_syntax noprefix\n.global main\nmain:\n  push rbp\n  mov rbp, rsp\n  sub rsp, 208\n\
         \x20 mov r10, 42\n  mov rax, r10\n  jmp .Lend0\n.Lend0:\n  mov rsp, rbp\n  pop rbp\n  ret\n"
    );
}

#[test]
fn compile_writes_a_whole_program() {
    let text = compile("twice(x) { return x * 2; } main() { a = 3; if (a >= 3) return a; return 0; }")
        .unwrap();
    let expected = [
        ".intel_syntax noprefix",
        ".global twice",
        "twice:",
        "  push rbp",
        "  mov rbp, rsp",
        "  sub rsp, 208",
        "  mov [rbp-8], rdi",
        "  lea r10, [rbp-8]",
        "  mov r10, [r10]",
        "  mov r11, 2",
        "  mov rax, r11",
        "  mul r10",
        "  mov r10, rax",
        "  mov rax, r10",
        "  jmp .Lend0",
        ".Lend0:",
        "  mov rsp, rbp",
        "  pop rbp",
        "  ret",
        ".global main",
        "main:",
        "  push rbp",
        "  mov rbp, rsp",
        "  sub rsp, 208",
        "  mov r10, 3",
        "  lea r11, [rbp-8]",
        "  mov [r11], r10",
        "  mov rbx, 3",
        "  lea r12, [rbp-8]",
        "  mov r12, [r12]",
        "  cmp rbx, r12",
        "  setle bl",
        "  movzb rbx, bl",
        "  cmp rbx, 0",
        "  je .L0",
        "  lea r13, [rbp-8]",
        "  mov r13, [r13]",
        "  mov rax, r13",
        "  jmp .Lend1",
        ".L0:",
        "  mov r14, 0",
        "  mov rax, r14",
        "  jmp .Lend1",
        ".Lend1:",
        "  mov rsp, rbp",
        "  pop rbp",
        "  ret",
    ];
    assert_eq!(text.lines().collect::<Vec<_>>(), expected);
}

#[test]
fn compile_writes_the_same_text_for_greater_than_and_swapped_less_than() {
    assert_eq!(
        compile("main() { return 1 > 2; }").unwrap(),
        compile("main() { return 2 < 1; }").unwrap()
    );
    assert_eq!(
        compile("main() { return 1 >= 2; }").unwrap(),
        compile("main() { return 2 <= 1; }").unwrap()
    );
}

#[test]
fn every_routine_has_one_end_label_and_one_epilogue() {
    let text = compile(
        "f(a) { if (a) return 1; else return 2; return 3; } g() { 1; } h(x) { return x / 2; }",
    )
    .unwrap();
    let lines: Vec<&str> = text.lines().collect();
    let count = |line: &str| lines.iter().filter(|l| **l == line).count();
    assert_eq!(count("  ret"), 3);
    for (n, jumps) in [(0, 3), (1, 0), (2, 1)] {
        let place = format!(".Lend{}:", n);
        let jump = format!("  jmp .Lend{}", n);
        assert_eq!(count(&place), 1);
        assert_eq!(count(&jump), jumps);
        let at = lines.iter().position(|l| **l == place).unwrap();
        assert_eq!(lines[at + 1..at + 4], ["  mov rsp, rbp", "  pop rbp", "  ret"]);
        for (i, line) in lines.iter().enumerate() {
            if **line == jump {
                assert!(i < at);
                assert!(lines[i - 1].starts_with("  mov rax, r"), "{}", lines[i - 1]);
            }
        }
    }
    assert_eq!(lines.last(), Some(&"  ret"));
}

#[test]
fn compile_of_nothing_is_the_directive() {
    assert_eq!(compile("").unwrap(), ".intel_syntax noprefix\n");
}

#[test]
fn compile_reports_the_stage_that_fails() {
    assert_eq!(
        compile("main() { return 1 $ 2; }"),
        Err(CompileError::Lex(LexError { pos: 18, kind: LexErrorKind::UnsupportedSymbol }))
    );
    assert_eq!(
        compile("main() { return 1 }"),
        Err(CompileError::Parse(ParseError { pos: 6, kind: ParseErrorKind::ExpectedSemicolon }))
    );
    assert_eq!(compile("main() { return f(1); }"), Err(CompileError::Lower(LowerError::UnknownExpr)));
    assert_eq!(
        compile("main() { return 1+(2+(3+(4+(5+(6+(7+8)))))); }"),
        Err(CompileError::Emit(EmitError::RegisterOutOfRange))
    );
}

#[test]
fn compile_uses_seven_registers_and_no_more() {
    let text = compile("main() { return 1+(2+(3+(4+(5+(6+7))))); }").unwrap();
    assert!(text.contains("  mov r15, 7\n"));
    assert!(text.contains("  add r14, r15\n"));
    assert_eq!(
        compile("main() { 1; 2; 3; 4; 5; 6; 7; 8; }"),
        Err(CompileError::Emit(EmitError::RegisterOutOfRange))
    );
}

#[test]
fn compile_stops_at_the_first_stage_with_an_error() {
    assert_eq!(
        compile("main( { return f(1) $"),
        Err(CompileError::Lex(LexError { pos: 20, kind: LexErrorKind::UnsupportedSymbol }))
    );
    assert_eq!(
        compile("main( { return f(1); }"),
        Err(CompileError::Parse(ParseError { pos: 2, kind: ParseErrorKind::ExpectedParameter }))
    );
}

#[test]
fn compile_does_not_accept_a_second_line() {
    assert_eq!(
        compile("main() {\n}"),
        Err(CompileError::Parse(ParseError { pos: 4, kind: ParseErrorKind::ExpectedPrimary }))
    );
}
