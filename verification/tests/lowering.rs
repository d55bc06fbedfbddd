use rustcc::gen_ir::{gen_function, gen_ir, Function, IROp, IrGenerator, LowerError, IR};
use rustcc::parse::{parse, NodeType, Parser};
use rustcc::token::tokenize;

fn show(code: &[IR]) -> Vec<String> {
    code.iter()
        .map(|ir| {
            let operand = |o: Option<usize>| match o {
                Some(n) => n.to_string(),
                None => "-".to_string(),
            };
            format!("{:?} {} {}", ir.op, operand(ir.lhs), operand(ir.rhs))
        })
        .collect()
}

fn lower(src: &str) -> Vec<Function> {
    let tokens = tokenize(src).unwrap();
    gen_ir(parse(&tokens).unwrap()).unwrap()
}

fn body(src: &str) -> Vec<String> {
    let fns = lower(&format!("main() {{ {} }}", src));
    assert_eq!(fns.len(), 1);
    show(&fns[0].code)
}

fn num(n: i32) -> Box<NodeType> {
    Box::new(NodeType::Num(n))
}

fn func(body: NodeType) -> NodeType {
    NodeType::Func("f".to_string(), vec![], Box::new(body), 208)
}

#[test]
fn a_literal_takes_the_next_register() {
    assert_eq!(body("return 42;"), ["Imm 0 42", "Return 0 -"]);
}

#[test]
fn a_binary_operation_leaves_its_result_in_the_left_register() {
    assert_eq!(body("return 1+2;"), ["Imm 0 1", "Imm 1 2", "Add 0 1", "Return 0 -"]);
    assert_eq!(body("return 1-2;"), ["Imm 0 1", "Imm 1 2", "Sub 0 1", "Return 0 -"]);
    assert_eq!(body("return 1*2;"), ["Imm 0 1", "Imm 1 2", "Mul 0 1", "Return 0 -"]);
    assert_eq!(body("return 1/2;"), ["Imm 0 1", "Imm 1 2", "Div 0 1", "Return 0 -"]);
    assert_eq!(body("return 1==2;"), ["Imm 0 1", "Imm 1 2", "Eq 0 1", "Return 0 -"]);
    assert_eq!(body("return 1!=2;"), ["Imm 0 1", "Imm 1 2", "Ne 0 1", "Return 0 -"]);
    assert_eq!(body("return 1<2;"), ["Imm 0 1", "Imm 1 2", "Lt 0 1", "Return 0 -"]);
    assert_eq!(body("return 1<=2;"), ["Imm 0 1", "Imm 1 2", "Le 0 1", "Return 0 -"]);
}

#[test]
fn operands_are_lowered_from_the_left() {
    assert_eq!(
        body("return 1+2*3;"),
        ["Imm 0 1", "Imm 1 2", "Imm 2 3", "Mul 1 2", "Add 0 1", "Return 0 -"]
    );
    assert_eq!(
        body("return (1+2)*3;"),
        ["Imm 0 1", "Imm 1 2", "Add 0 1", "Imm 2 3", "Mul 0 2", "Return 0 -"]
    );
}

#[test]
fn greater_than_is_lowered_as_less_than_with_the_operands_swapped() {
    assert_eq!(body("return 1>2;"), body("return 2<1;"));
    assert_eq!(body("return 1>=2;"), body("return 2<=1;"));
    assert_eq!(body("return 1>2;"), ["Imm 0 2", "Imm 1 1", "Lt 0 1", "Return 0 -"]);
    assert_eq!(body("return 1>=2;"), ["Imm 0 2", "Imm 1 1", "Le 0 1", "Return 0 -"]);
}

#[test]
fn a_variable_is_loaded_through_its_address() {
    assert_eq!(body("return a;"), ["Bprel 0 8", "Load(8) 0 0", "Return 0 -"]);
}

#[test]
fn an_assignment_stores_the_value_and_has_it() {
    assert_eq!(
        body("a=3; return a;"),
        ["Imm 0 3", "Bprel 1 8", "Store(8) 1 0", "Bprel 2 8", "Load(8) 2 2", "Return 2 -"]
    );
    assert_eq!(
        body("return a=b=3;"),
        ["Imm 0 3", "Bprel 1 16", "Store(8) 1 0", "Bprel 2 8", "Store(8) 2 0", "Return 0 -"]
    );
}

#[test]
fn a_negation_subtracts_from_zero() {
    assert_eq!(body("return -5;"), ["Imm 0 0", "Imm 1 5", "Sub 0 1", "Return 0 -"]);
}

#[test]
fn an_expression_statement_drops_its_value() {
    assert_eq!(body("1; 2;"), ["Imm 0 1", "Imm 1 2"]);
}

#[test]
fn a_conditional_jumps_over_its_branch() {
    assert_eq!(
        body("if (0) return 1; return 2;"),
        ["Imm 0 0", "Unless 0 0", "Imm 1 1", "Return 1 -", "Label 0 -", "Imm 2 2", "Return 2 -"]
    );
}

#[test]
fn a_conditional_with_else_has_two_labels() {
    assert_eq!(
        body("if (1) return 1; else return 2;"),
        [
            "Imm 0 1",
            "Unless 0 0",
            "Imm 1 1",
            "Return 1 -",
            "Jmp 1 -",
            "Label 0 -",
            "Imm 2 2",
            "Return 2 -",
            "Label 1 -",
        ]
    );
}

#[test]
fn nested_conditionals_take_their_labels_after_the_outer_one() {
    assert_eq!(
        body("if (1) { if (2) 3; else 4; } else if (5) 6;"),
        [
            "Imm 0 1",
            "Unless 0 0",
            "Imm 1 2",
            "Unless 1 2",
            "Imm 2 3",
            "Jmp 3 -",
            "Label 2 -",
            "Imm 3 4",
            "Label 3 -",
            "Jmp 1 -",
            "Label 0 -",
            "Imm 4 5",
            "Unless 4 4",
            "Imm 5 6",
            "Label 4 -",
            "Label 1 -",
        ]
    );
}

#[test]
fn a_block_is_lowered_in_order() {
    assert_eq!(body("{ 1; { 2; } } 3;"), ["Imm 0 1", "Imm 1 2", "Imm 2 3"]);
    assert_eq!(body("{ }"), Vec::<String>::new());
}

#[test]
fn parameters_are_stored_before_the_body() {
    let fns = lower("add(x, y) { return x + y; }");
    assert_eq!(fns[0].name, "add");
    assert_eq!(fns[0].stacksize, 208);
    assert_eq!(
        show(&fns[0].code),
        [
            "StoreArg(8) 8 0",
            "StoreArg(8) 16 1",
            "Bprel 0 8",
            "Load(8) 0 0",
            "Bprel 1 16",
            "Load(8) 1 1",
            "Add 0 1",
            "Return 0 -",
        ]
    );
}

#[test]
fn every_function_counts_registers_and_labels_from_zero() {
    let fns = lower("f() { if (1) 2; } g() { if (3) 4; }");
    assert_eq!(fns.len(), 2);
    assert_eq!(fns[0].name, "f");
    assert_eq!(fns[1].name, "g");
    assert_eq!(show(&fns[0].code), ["Imm 0 1", "Unless 0 0", "Imm 1 2", "Label 0 -"]);
    assert_eq!(show(&fns[1].code), ["Imm 0 3", "Unless 0 0", "Imm 1 4", "Label 0 -"]);
}

#[test]
fn gen_function_counts_registers_and_labels() {
    let tokens = tokenize("main() { a = 1; if (a) return 2; else return 3; if (a) 4; }").unwrap();
    let nodes = parse(&tokens).unwrap();
    let (f, regs, labels) = gen_function(&nodes[0]).unwrap();
    assert_eq!(f.name, "main");
    assert_eq!(regs, 7);
    assert_eq!(labels, 3);
    assert_eq!(f.code.len(), 18);
    let (_, regs, labels) = gen_function(&func(NodeType::CompStmt(vec![]))).unwrap();
    assert_eq!((regs, labels), (0, 0));
}

#[test]
fn a_negative_literal_is_kept_in_two_s_complement() {
    let (f, _, _) =
        gen_function(&func(NodeType::CompStmt(vec![NodeType::Return(num(-1))]))).unwrap();
    assert_eq!(f.code[0].rhs, Some(usize::MAX));
    assert_eq!(f.code[0].rhs.unwrap() as i32, -1);
}

#[test]
fn a_generator_goes_on_behind_the_code_it_is_given() {
    let tokens = tokenize("1+a").unwrap();
    let mut locals = Vec::new();
    let tree = Parser::new(&tokens, &mut locals).expr().unwrap();
    let mut generator = IrGenerator::new(vec![IR::new(IROp::Label, Some(9), None)]);
    assert_eq!(generator.gen_expr(&tree), Ok(0));
    assert_eq!(generator.gen_expr(&tree), Ok(2));
    assert_eq!(generator.num_regs(), 4);
    assert_eq!(generator.num_labels(), 0);
    assert_eq!(generator.gen_stmt(&NodeType::ExprStmt(num(5))), Ok(()));
    assert_eq!(generator.num_regs(), 5);
}

#[test]
fn a_call_has_no_instructions() {
    let tokens = tokenize("main() { return f(); }").unwrap();
    assert_eq!(gen_ir(parse(&tokens).unwrap()).unwrap_err(), LowerError::UnknownExpr);
}

#[test]
fn a_statement_is_no_expression() {
    let tree = func(NodeType::CompStmt(vec![NodeType::Return(Box::new(NodeType::Return(num(1))))]));
    assert_eq!(gen_ir(vec![tree]).unwrap_err(), LowerError::UnknownExpr);
}

#[test]
fn a_loop_has_no_instructions() {
    let tree = func(NodeType::CompStmt(vec![NodeType::While(
        num(1),
        Box::new(NodeType::ExprStmt(num(2))),
    )]));
    assert_eq!(gen_ir(vec![tree]).unwrap_err(), LowerError::UnknownStmt);
    let tree = func(NodeType::CompStmt(vec![NodeType::For(
        None,
        None,
        None,
        Box::new(NodeType::Block(vec![])),
    )]));
    assert_eq!(gen_ir(vec![tree]).unwrap_err(), LowerError::UnknownStmt);
}

#[test]
fn an_expression_is_no_statement() {
    let tree = func(NodeType::CompStmt(vec![NodeType::Num(1)]));
    assert_eq!(gen_ir(vec![tree]).unwrap_err(), LowerError::UnknownStmt);
    let tree = func(NodeType::CompStmt(vec![NodeType::CompStmt(vec![])]));
    assert_eq!(gen_ir(vec![tree]).unwrap_err(), LowerError::UnknownStmt);
}

#[test]
fn only_a_variable_can_be_assigned() {
    let tokens = tokenize("main() { 1 = 2; }").unwrap();
    assert_eq!(gen_ir(parse(&tokens).unwrap()).unwrap_err(), LowerError::NotAnLvalue);
    let tokens = tokenize("main() { a + 1 = 2; }").unwrap();
    assert_eq!(gen_ir(parse(&tokens).unwrap()).unwrap_err(), LowerError::NotAnLvalue);
}

#[test]
fn the_value_of_an_assignment_is_lowered_before_its_target() {
    let tokens = tokenize("main() { 1 = f(); }").unwrap();
    assert_eq!(gen_ir(parse(&tokens).unwrap()).unwrap_err(), LowerError::UnknownExpr);
}

#[test]
fn only_functions_are_lowered() {
    assert_eq!(gen_ir(vec![NodeType::Num(1)]).unwrap_err(), LowerError::NotAFunction);
    assert_eq!(
        gen_ir(vec![func(NodeType::CompStmt(vec![])), NodeType::Block(vec![])]).unwrap_err(),
        LowerError::NotAFunction
    );
    assert!(gen_ir(vec![]).unwrap().is_empty());
}

#[test]
fn a_parameter_is_a_variable() {
    let tree = NodeType::Func(
        "f".to_string(),
        vec![NodeType::LVar(8), NodeType::Num(1)],
        Box::new(NodeType::CompStmt(vec![])),
        208,
    );
    assert_eq!(gen_ir(vec![tree]).unwrap_err(), LowerError::BadParameter);
}

#[test]
fn a_body_is_a_list_of_statements() {
    assert_eq!(gen_ir(vec![func(NodeType::Block(vec![]))]).unwrap_err(), LowerError::BadBody);
    let tree = NodeType::Func("f".to_string(), vec![NodeType::Num(1)], num(1), 208);
    assert_eq!(gen_ir(vec![tree]).unwrap_err(), LowerError::BadParameter);
}

#[test]
fn every_jump_has_one_label_behind_it() {
    let fns = lower(
        "main() { if (1) { if (2) 3; else 4; } else if (5) 6; if (7) { if (8) 9; } return 0; }",
    );
    let code = &fns[0].code;
    for (i, ir) in code.iter().enumerate() {
        let target = match ir.op {
            IROp::Jmp => ir.lhs,
            IROp::Unless => ir.rhs,
            _ => continue,
        };
        let places: Vec<usize> = code
            .iter()
            .enumerate()
            .filter(|(_, l)| l.op == IROp::Label && l.lhs == target)
            .map(|(j, _)| j)
            .collect();
        assert_eq!(places.len(), 1, "label {:?}", target);
        assert!(places[0] > i);
    }
    let labels = code.iter().filter(|ir| ir.op == IROp::Label).count();
    assert_eq!(labels, 7);
    for (j, ir) in code.iter().enumerate() {
        if ir.op != IROp::Label {
            continue;
        }
        let jumps = code[..j]
            .iter()
            .filter(|i| match i.op {
                IROp::Jmp => i.lhs == ir.lhs,
                IROp::Unless => i.rhs == ir.lhs,
                _ => false,
            })
            .count();
        assert_eq!(jumps, 1, "label {:?}", ir.lhs);
    }
}
