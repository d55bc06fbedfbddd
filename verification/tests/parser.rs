use rustcc::parse::{parse, LVar, NodeType, ParseError, ParseErrorKind, Parser, FRAME_SIZE, MAX_LOCALS};
use rustcc::token::tokenize;
use rustcc::TokenType;

fn tree(src: &str) -> String {
    let tokens = tokenize(src).unwrap();
    format!("{:?}", parse(&tokens).unwrap())
}

fn expr_tree(src: &str) -> String {
    let tokens = tokenize(src).unwrap();
    let mut locals = Vec::new();
    let mut parser = Parser::new(&tokens, &mut locals);
    format!("{:?}", parser.expr().unwrap())
}

fn error(src: &str) -> ParseError {
    let tokens = tokenize(src).unwrap();
    parse(&tokens).unwrap_err()
}

fn ident(name: &str) -> TokenType {
    TokenType::Ident(name.to_string())
}

#[test]
fn parse_reads_an_empty_program() {
    assert_eq!(tree(""), "[]");
}

#[test]
fn parse_reads_a_function_that_returns_a_number() {
    assert_eq!(
        tree("main() { return 42; }"),
        "[Func(\"main\", [], CompStmt([Return(Num(42))]), 208)]"
    );
}

#[test]
fn the_frame_has_room_for_every_local() {
    assert_eq!(FRAME_SIZE, 208);
    assert_eq!(MAX_LOCALS, 26);
    assert_eq!(FRAME_SIZE, 8 * MAX_LOCALS);
}

#[test]
fn multiplication_binds_tighter_than_addition() {
    assert_eq!(expr_tree("1+2*3"), "Plus(Num(1), Mul(Num(2), Num(3)))");
    assert_eq!(expr_tree("1*2+3"), "Plus(Mul(Num(1), Num(2)), Num(3))");
    assert_eq!(expr_tree("8/2-1"), "Minus(Div(Num(8), Num(2)), Num(1))");
}

#[test]
fn parentheses_group() {
    assert_eq!(expr_tree("(1+2)*3"), "Mul(Plus(Num(1), Num(2)), Num(3))");
    assert_eq!(expr_tree("((7))"), "Num(7)");
}

#[test]
fn binary_operators_group_to_the_left() {
    assert_eq!(expr_tree("10-2-3"), "Minus(Minus(Num(10), Num(2)), Num(3))");
    assert_eq!(expr_tree("8/4/2"), "Div(Div(Num(8), Num(4)), Num(2))");
    assert_eq!(expr_tree("1==2!=3"), "Ne(Eq(Num(1), Num(2)), Num(3))");
    assert_eq!(expr_tree("1<2<=3"), "Le(Lt(Num(1), Num(2)), Num(3))");
}

#[test]
fn comparison_binds_tighter_than_equality_and_looser_than_addition() {
    assert_eq!(expr_tree("1+2<3==4"), "Eq(Lt(Plus(Num(1), Num(2)), Num(3)), Num(4))");
}

#[test]
fn greater_than_is_less_than_with_the_operands_swapped() {
    assert_eq!(expr_tree("1>2"), "Lt(Num(2), Num(1))");
    assert_eq!(expr_tree("1>=2"), "Le(Num(2), Num(1))");
    assert_eq!(expr_tree("2<1"), "Lt(Num(2), Num(1))");
    assert_eq!(expr_tree("2<=1"), "Le(Num(2), Num(1))");
}

#[test]
fn greater_than_keeps_the_offsets_of_first_reference() {
    assert_eq!(expr_tree("a>b"), "Lt(LVar(16), LVar(8))");
    assert_eq!(expr_tree("b<a"), "Lt(LVar(8), LVar(16))");
}

#[test]
fn a_chain_of_greater_than_swaps_at_every_step() {
    assert_eq!(expr_tree("1>2>3"), "Lt(Num(3), Lt(Num(2), Num(1)))");
}

#[test]
fn assignment_groups_to_the_right() {
    assert_eq!(expr_tree("a=b=3"), "Assign(LVar(8), Assign(LVar(16), Num(3)))");
}

#[test]
fn assignment_binds_looser_than_equality() {
    assert_eq!(expr_tree("a=1==2"), "Assign(LVar(8), Eq(Num(1), Num(2)))");
}

#[test]
fn unary_minus_negates_a_primary() {
    assert_eq!(expr_tree("-3"), "Negative(Num(3))");
    assert_eq!(expr_tree("-a*2"), "Mul(Negative(LVar(8)), Num(2))");
    assert_eq!(expr_tree("1--2"), "Minus(Num(1), Negative(Num(2)))");
    assert_eq!(expr_tree("-(1+2)"), "Negative(Plus(Num(1), Num(2)))");
}

#[test]
fn unary_plus_is_dropped() {
    assert_eq!(expr_tree("+3"), "Num(3)");
    assert_eq!(expr_tree("1++2"), "Plus(Num(1), Num(2))");
}

#[test]
fn locals_take_offsets_in_the_order_of_first_reference() {
    assert_eq!(
        tree("main() { a=b=3; return a; }"),
        "[Func(\"main\", [], CompStmt([ExprStmt(Assign(LVar(8), Assign(LVar(16), Num(3)))), \
         Return(LVar(8))]), 208)]"
    );
}

#[test]
fn a_local_keeps_its_offset() {
    assert_eq!(
        tree("main() { a=1; a=a+1; return a; }"),
        "[Func(\"main\", [], CompStmt([ExprStmt(Assign(LVar(8), Num(1))), \
         ExprStmt(Assign(LVar(8), Plus(LVar(8), Num(1)))), Return(LVar(8))]), 208)]"
    );
}

#[test]
fn a_reference_to_a_known_local_leaves_the_table_alone() {
    let tokens = tokenize("a=1; a=a+1; b; a;").unwrap();
    let mut locals = Vec::new();
    let mut parser = Parser::new(&tokens, &mut locals);
    for _ in 0..4 {
        parser.stmt().unwrap();
    }
    let a = parser.find_lvar(&ident("a")).unwrap();
    assert_eq!((a.name.as_str(), a.len, a.offset), ("a", 1, 8));
    let b = parser.find_lvar(&ident("b")).unwrap();
    assert_eq!((b.name.as_str(), b.len, b.offset), ("b", 1, 16));
    assert!(parser.find_lvar(&ident("c")).is_none());
    assert!(parser.find_lvar(&TokenType::Num(1)).is_none());
}

#[test]
fn a_new_local_comes_behind_those_of_the_table() {
    let tokens = tokenize("x + y + caf\u{e9}").unwrap();
    let mut locals = vec![
        LVar { name: "y".to_string(), len: 1, offset: 8 },
        LVar { name: "z".to_string(), len: 1, offset: 16 },
    ];
    let mut parser = Parser::new(&tokens, &mut locals);
    assert_eq!(
        format!("{:?}", parser.expr().unwrap()),
        "Plus(Plus(LVar(24), LVar(8)), LVar(32))"
    );
    let last = parser.find_lvar(&ident("caf\u{e9}")).unwrap();
    assert_eq!((last.len, last.offset), (5, 32));
    let names: Vec<&str> = locals.iter().map(|v| v.name.as_str()).collect();
    assert_eq!(names, ["y", "z", "x", "caf\u{e9}"]);
}

#[test]
fn every_function_has_a_table_of_its_own() {
    assert_eq!(
        tree("f() { a; b; } g() { b; a; }"),
        "[Func(\"f\", [], CompStmt([ExprStmt(LVar(8)), ExprStmt(LVar(16))]), 208), \
         Func(\"g\", [], CompStmt([ExprStmt(LVar(8)), ExprStmt(LVar(16))]), 208)]"
    );
}

#[test]
fn parameters_are_the_first_locals() {
    assert_eq!(
        tree("add(x, y) { z = x + y; return z; }"),
        "[Func(\"add\", [LVar(8), LVar(16)], CompStmt([ExprStmt(Assign(LVar(24), \
         Plus(LVar(8), LVar(16)))), Return(LVar(24))]), 208)]"
    );
    assert_eq!(tree("id(x) { return x; }"), "[Func(\"id\", [LVar(8)], CompStmt([Return(LVar(8))]), 208)]");
}

#[test]
fn a_function_may_have_twenty_six_locals() {
    let body: String = ('a'..='z').map(|c| format!("{};", c)).collect();
    let tokens = tokenize(&format!("main() {{ {} return z; }}", body)).unwrap();
    let nodes = parse(&tokens).unwrap();
    let text = format!("{:?}", nodes);
    assert!(text.ends_with("Return(LVar(208))]), 208)]"), "{}", text);
}

#[test]
fn a_function_may_not_have_more_locals() {
    let body: String = ('a'..='z').map(|c| format!("{};", c)).collect();
    let src = format!("main() {{ {} return aa; }}", body);
    let at = tokenize(&src).unwrap().len() - 3;
    assert_eq!(error(&src), ParseError { pos: at, kind: ParseErrorKind::TooManyLocals });
}

#[test]
fn a_conditional_may_have_an_else() {
    assert_eq!(
        tree("main() { if (1) return 1; else return 2; }"),
        "[Func(\"main\", [], CompStmt([If(Num(1), Return(Num(1)), Some(Return(Num(2))))]), 208)]"
    );
    assert_eq!(
        tree("main() { if (0) return 1; return 2; }"),
        "[Func(\"main\", [], CompStmt([If(Num(0), Return(Num(1)), None), Return(Num(2))]), 208)]"
    );
}

#[test]
fn an_else_belongs_to_the_nearest_if() {
    assert_eq!(
        tree("main() { if (1) if (2) a; else b; }"),
        "[Func(\"main\", [], CompStmt([If(Num(1), If(Num(2), ExprStmt(LVar(8)), \
         Some(ExprStmt(LVar(16)))), None)]), 208)]"
    );
}

#[test]
fn braces_make_a_block() {
    assert_eq!(
        tree("main() { { 1; { } 2; } }"),
        "[Func(\"main\", [], CompStmt([Block([ExprStmt(Num(1)), Block([]), ExprStmt(Num(2))])]), 208)]"
    );
}

#[test]
fn a_call_takes_primaries() {
    assert_eq!(expr_tree("f()"), "Call(\"f\", [])");
    assert_eq!(expr_tree("f(1)"), "Call(\"f\", [Num(1)])");
    assert_eq!(expr_tree("f(1, a, (2+3))"), "Call(\"f\", [Num(1), LVar(8), Plus(Num(2), Num(3))])");
    assert_eq!(expr_tree("f(g(1))+1"), "Plus(Call(\"f\", [Call(\"g\", [Num(1)])]), Num(1))");
}

#[test]
fn the_name_of_a_call_is_no_local() {
    assert_eq!(expr_tree("f() + a"), "Plus(Call(\"f\", []), LVar(8))");
}

#[test]
fn loops_are_read_from_their_tokens() {
    let tokens = vec![
        TokenType::While,
        TokenType::LeftParen,
        ident("a"),
        TokenType::RightParen,
        ident("a"),
        TokenType::Assign,
        TokenType::Num(0),
        TokenType::Semicolon,
    ];
    let mut locals = Vec::new();
    let mut parser = Parser::new(&tokens, &mut locals);
    assert_eq!(
        format!("{:?}", parser.stmt().unwrap()),
        "While(LVar(8), ExprStmt(Assign(LVar(8), Num(0))))"
    );
    let tokens = vec![
        TokenType::For,
        TokenType::LeftParen,
        ident("i"),
        TokenType::Assign,
        TokenType::Num(0),
        TokenType::Semicolon,
        TokenType::Semicolon,
        ident("i"),
        TokenType::RightParen,
        TokenType::LeftBrace,
        TokenType::RightBrace,
    ];
    let mut locals = Vec::new();
    let mut parser = Parser::new(&tokens, &mut locals);
    assert_eq!(
        format!("{:?}", parser.stmt().unwrap()),
        "For(Some(Assign(LVar(8), Num(0))), None, Some(LVar(8)), Block([]))"
    );
}

#[test]
fn a_missing_parenthesis_is_an_error() {
    assert_eq!(error("main { }"), ParseError { pos: 1, kind: ParseErrorKind::ExpectedLeftParen });
    assert_eq!(
        error("main() { return (1; }"),
        ParseError { pos: 7, kind: ParseErrorKind::ExpectedRightParen }
    );
    assert_eq!(
        error("main() { if 1) return 1; }"),
        ParseError { pos: 5, kind: ParseErrorKind::ExpectedLeftParen }
    );
    assert_eq!(
        error("main() { f(1 2); }"),
        ParseError { pos: 7, kind: ParseErrorKind::ExpectedRightParen }
    );
}

#[test]
fn a_missing_semicolon_is_an_error() {
    assert_eq!(
        error("main() { return 1 }"),
        ParseError { pos: 6, kind: ParseErrorKind::ExpectedSemicolon }
    );
    assert_eq!(
        error("main() { 1 2; }"),
        ParseError { pos: 5, kind: ParseErrorKind::ExpectedSemicolon }
    );
}

#[test]
fn a_missing_brace_is_an_error() {
    assert_eq!(
        error("main() return 1;"),
        ParseError { pos: 3, kind: ParseErrorKind::ExpectedLeftBrace }
    );
}

#[test]
fn a_missing_operand_is_an_error() {
    assert_eq!(
        error("main() { return ; }"),
        ParseError { pos: 5, kind: ParseErrorKind::ExpectedPrimary }
    );
    assert_eq!(
        error("main() { 1 + ; }"),
        ParseError { pos: 6, kind: ParseErrorKind::ExpectedPrimary }
    );
}

#[test]
fn the_end_of_the_input_is_an_error_inside_a_function() {
    assert_eq!(
        error("main() { return 1;"),
        ParseError { pos: 7, kind: ParseErrorKind::ExpectedPrimary }
    );
    assert_eq!(error("main"), ParseError { pos: 1, kind: ParseErrorKind::ExpectedLeftParen });
}

#[test]
fn a_line_feed_is_no_part_of_a_program() {
    assert_eq!(
        error("main() {\n return 1; }"),
        ParseError { pos: 4, kind: ParseErrorKind::ExpectedPrimary }
    );
}

#[test]
fn a_program_is_made_of_functions() {
    assert_eq!(error("1;"), ParseError { pos: 0, kind: ParseErrorKind::ExpectedFunctionName });
    assert_eq!(
        error("main() { } return 1;"),
        ParseError { pos: 5, kind: ParseErrorKind::ExpectedFunctionName }
    );
}

#[test]
fn a_parameter_is_a_name() {
    assert_eq!(error("f(1) { }"), ParseError { pos: 2, kind: ParseErrorKind::ExpectedParameter });
    assert_eq!(error("f(a,) { }"), ParseError { pos: 4, kind: ParseErrorKind::ExpectedParameter });
    assert_eq!(error("f(a b) { }"), ParseError { pos: 3, kind: ParseErrorKind::ExpectedRightParen });
    assert_eq!(error("f("), ParseError { pos: 2, kind: ParseErrorKind::ExpectedParameter });
}

#[test]
fn parameters_have_different_names() {
    assert_eq!(
        error("f(a, b, a) { }"),
        ParseError { pos: 6, kind: ParseErrorKind::DuplicateParameter }
    );
}

#[test]
fn the_first_error_is_reported() {
    assert_eq!(
        error("main() { return (1; } g( { }"),
        ParseError { pos: 7, kind: ParseErrorKind::ExpectedRightParen }
    );
}

#[test]
fn expect_takes_the_token_it_is_given() {
    let tokens = vec![TokenType::Comma, TokenType::Semicolon];
    let mut locals = Vec::new();
    let mut parser = Parser::new(&tokens, &mut locals);
    assert_eq!(parser.expect(TokenType::Comma), Ok(()));
    assert_eq!(
        parser.expect(TokenType::Comma),
        Err(ParseError { pos: 1, kind: ParseErrorKind::UnexpectedToken })
    );
    assert_eq!(
        parser.expect(TokenType::LeftBrace),
        Err(ParseError { pos: 1, kind: ParseErrorKind::ExpectedLeftBrace })
    );
    assert_eq!(parser.expect(TokenType::Semicolon), Ok(()));
    assert_eq!(
        parser.expect(TokenType::Semicolon),
        Err(ParseError { pos: 2, kind: ParseErrorKind::ExpectedSemicolon })
    );
}

#[test]
fn consume_takes_the_token_only_if_it_is_there() {
    let tokens = vec![TokenType::Plus, ident("a")];
    let mut locals = Vec::new();
    let mut parser = Parser::new(&tokens, &mut locals);
    assert!(!parser.consume(TokenType::Minus));
    assert!(parser.consume(TokenType::Plus));
    assert!(!parser.consume(TokenType::Plus));
    assert!(!parser.consume(ident("b")));
    assert!(parser.consume(ident("a")));
    assert!(!parser.consume(ident("a")));
    assert!(parser.at_end());
}

#[test]
fn a_tree_can_be_copied() {
    let tokens = tokenize(
        "f(a, b) { if (a) { b = g(1, a); } else return -b; return a * (b + 2) >= 3; }",
    )
    .unwrap();
    let nodes = parse(&tokens).unwrap();
    let copy = nodes[0].clone();
    assert_eq!(format!("{:?}", copy), format!("{:?}", nodes[0]));
    assert!(format!("{:?}", copy).starts_with("Func(\"f\", [LVar(8), LVar(16)], CompStmt([If("));
    let copies = nodes.clone();
    assert_eq!(format!("{:?}", copies), format!("{:?}", nodes));
}

#[test]
fn expect_leaves_the_parser_where_it_stood_when_it_fails() {
    let tokens = vec![TokenType::Semicolon, TokenType::Comma];
    let mut locals = Vec::new();
    let mut parser = Parser::new(&tokens, &mut locals);
    assert!(parser.expect(TokenType::Comma).is_err());
    assert!(parser.expect(TokenType::RightParen).is_err());
    assert_eq!(parser.expect(TokenType::Semicolon), Ok(()));
    assert!(parser.expect(TokenType::Semicolon).is_err());
    assert_eq!(parser.expect(TokenType::Comma), Ok(()));
    assert!(parser.at_end());
}

#[test]
fn a_tree_can_be_built_by_hand() {
    let tree = NodeType::Plus(Box::new(NodeType::Num(1)), Box::new(NodeType::LVar(8)));
    assert_eq!(format!("{:?}", tree), "Plus(Num(1), LVar(8))");
}
