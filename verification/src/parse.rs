//! The parser: tokens to one syntax tree per function.
//!
//! The grammar is written down as spec functions, one per production, over a
//! sequence of tokens, a position in it and the table of local variables.
//! [`Parser`] computes them by recursive descent; [`parse`] reads a whole
//! program.

use vstd::prelude::*;
use vstd::utf8::encode_utf8;
use crate::token::left;
use crate::{Token, TokenType, tokens_in_range, tokens_view};

verus! {

/// The number of local variables that a function's frame has room for.
pub const MAX_LOCALS: usize = 26;

/// The size in bytes of every function's frame: eight for each of
/// `MAX_LOCALS` variables.
pub const FRAME_SIZE: usize = 208;

/// A syntax tree.
#[derive(Debug)]
pub enum NodeType {
    /// An integer literal.
    Num(i32),
    Plus(Box<NodeType>, Box<NodeType>),
    Minus(Box<NodeType>, Box<NodeType>),
    Mul(Box<NodeType>, Box<NodeType>),
    Div(Box<NodeType>, Box<NodeType>),
    Eq(Box<NodeType>, Box<NodeType>),
    Ne(Box<NodeType>, Box<NodeType>),
    /// `lhs <= rhs`; also stands for `rhs >= lhs`.
    Le(Box<NodeType>, Box<NodeType>),
    /// `lhs < rhs`; also stands for `rhs > lhs`.
    Lt(Box<NodeType>, Box<NodeType>),
    /// The negation of its operand.
    Negative(Box<NodeType>),
    /// The local variable at this offset below the frame pointer.
    LVar(i32),
    /// A call: the function's name and the arguments.
    Call(String, Vec<NodeType>),
    /// A function: name, parameters, body and frame size.
    Func(String, Vec<NodeType>, Box<NodeType>, usize),
    /// An assignment of the second to the first.
    Assign(Box<NodeType>, Box<NodeType>),
    Return(Box<NodeType>),
    /// A conditional: condition, then-branch and, if there is one, else-branch.
    If(Box<NodeType>, Box<NodeType>, Option<Box<NodeType>>),
    /// A loop: condition and body.
    While(Box<NodeType>, Box<NodeType>),
    /// A loop: the three optional clauses and the body.
    For(Option<Box<NodeType>>, Option<Box<NodeType>>, Option<Box<NodeType>>, Box<NodeType>),
    /// The statements between braces.
    Block(Vec<NodeType>),
    /// An expression whose value is dropped.
    ExprStmt(Box<NodeType>),
    /// The statements of a function's body.
    CompStmt(Vec<NodeType>),
}

/// The mathematical value of a [`NodeType`]: the same tree over integers and
/// sequences.
pub ghost enum Node {
    Num(int),
    Plus(Box<Node>, Box<Node>),
    Minus(Box<Node>, Box<Node>),
    Mul(Box<Node>, Box<Node>),
    Div(Box<Node>, Box<Node>),
    Eq(Box<Node>, Box<Node>),
    Ne(Box<Node>, Box<Node>),
    Le(Box<Node>, Box<Node>),
    Lt(Box<Node>, Box<Node>),
    Negative(Box<Node>),
    LVar(int),
    Call(Seq<char>, Seq<Node>),
    Func(Seq<char>, Seq<Node>, Box<Node>, nat),
    Assign(Box<Node>, Box<Node>),
    Return(Box<Node>),
    If(Box<Node>, Box<Node>, Option<Box<Node>>),
    While(Box<Node>, Box<Node>),
    For(Option<Box<Node>>, Option<Box<Node>>, Option<Box<Node>>, Box<Node>),
    Block(Seq<Node>),
    ExprStmt(Box<Node>),
    CompStmt(Seq<Node>),
}

/// The value of an optional subtree.
pub open spec fn option_view(n: Option<Box<NodeType>>) -> Option<Box<Node>> {
    match n {
        Some(b) => Some(Box::new(node_view(*b))),
        None => None,
    }
}

/// The value of a tree.
pub open spec fn node_view(n: NodeType) -> Node
    decreases n,
{
    match n {
        NodeType::Num(v) => Node::Num(v as int),
        NodeType::Plus(a, b) => Node::Plus(Box::new(node_view(*a)), Box::new(node_view(*b))),
        NodeType::Minus(a, b) => Node::Minus(Box::new(node_view(*a)), Box::new(node_view(*b))),
        NodeType::Mul(a, b) => Node::Mul(Box::new(node_view(*a)), Box::new(node_view(*b))),
        NodeType::Div(a, b) => Node::Div(Box::new(node_view(*a)), Box::new(node_view(*b))),
        NodeType::Eq(a, b) => Node::Eq(Box::new(node_view(*a)), Box::new(node_view(*b))),
        NodeType::Ne(a, b) => Node::Ne(Box::new(node_view(*a)), Box::new(node_view(*b))),
        NodeType::Le(a, b) => Node::Le(Box::new(node_view(*a)), Box::new(node_view(*b))),
        NodeType::Lt(a, b) => Node::Lt(Box::new(node_view(*a)), Box::new(node_view(*b))),
        NodeType::Negative(a) => Node::Negative(Box::new(node_view(*a))),
        NodeType::LVar(offset) => Node::LVar(offset as int),
        NodeType::Call(name, args) => Node::Call(name@, nodes_view(args@)),
        NodeType::Func(name, params, body, size) => Node::Func(
            name@,
            nodes_view(params@),
            Box::new(node_view(*body)),
            size as nat,
        ),
        NodeType::Assign(a, b) => Node::Assign(Box::new(node_view(*a)), Box::new(node_view(*b))),
        NodeType::Return(a) => Node::Return(Box::new(node_view(*a))),
        NodeType::If(c, t, e) => Node::If(
            Box::new(node_view(*c)),
            Box::new(node_view(*t)),
            match e {
                Some(e) => Some(Box::new(node_view(*e))),
                None => None,
            },
        ),
        NodeType::While(c, b) => Node::While(Box::new(node_view(*c)), Box::new(node_view(*b))),
        NodeType::For(init, cond, inc, body) => Node::For(
            match init {
                Some(e) => Some(Box::new(node_view(*e))),
                None => None,
            },
            match cond {
                Some(e) => Some(Box::new(node_view(*e))),
                None => None,
            },
            match inc {
                Some(e) => Some(Box::new(node_view(*e))),
                None => None,
            },
            Box::new(node_view(*body)),
        ),
        NodeType::Block(stmts) => Node::Block(nodes_view(stmts@)),
        NodeType::ExprStmt(a) => Node::ExprStmt(Box::new(node_view(*a))),
        NodeType::CompStmt(stmts) => Node::CompStmt(nodes_view(stmts@)),
    }
}

/// The values of a sequence of trees, one by one.
pub open spec fn nodes_view(s: Seq<NodeType>) -> Seq<Node>
    decreases s,
{
    Seq::new(
        s.len(),
        |i: int|
            if 0 <= i < s.len() {
                node_view(s[i])
            } else {
                Node::Num(0)
            },
    )
}

/// A copy of the tree `n`.
fn clone_node(n: &NodeType) -> (r: NodeType)
    ensures
        r@ == n@,
    decreases n,
{
    match n {
        NodeType::Num(v) => NodeType::Num(*v),
        NodeType::Plus(a, b) => NodeType::Plus(Box::new(clone_node(a)), Box::new(clone_node(b))),
        NodeType::Minus(a, b) => NodeType::Minus(Box::new(clone_node(a)), Box::new(clone_node(b))),
        NodeType::Mul(a, b) => NodeType::Mul(Box::new(clone_node(a)), Box::new(clone_node(b))),
        NodeType::Div(a, b) => NodeType::Div(Box::new(clone_node(a)), Box::new(clone_node(b))),
        NodeType::Eq(a, b) => NodeType::Eq(Box::new(clone_node(a)), Box::new(clone_node(b))),
        NodeType::Ne(a, b) => NodeType::Ne(Box::new(clone_node(a)), Box::new(clone_node(b))),
        NodeType::Le(a, b) => NodeType::Le(Box::new(clone_node(a)), Box::new(clone_node(b))),
        NodeType::Lt(a, b) => NodeType::Lt(Box::new(clone_node(a)), Box::new(clone_node(b))),
        NodeType::Negative(a) => NodeType::Negative(Box::new(clone_node(a))),
        NodeType::LVar(offset) => NodeType::LVar(*offset),
        NodeType::Call(name, args) => NodeType::Call(name.clone(), clone_nodes(args)),
        NodeType::Func(name, params, body, size) => NodeType::Func(
            name.clone(),
            clone_nodes(params),
            Box::new(clone_node(body)),
            *size,
        ),
        NodeType::Assign(a, b) => NodeType::Assign(
            Box::new(clone_node(a)),
            Box::new(clone_node(b)),
        ),
        NodeType::Return(a) => NodeType::Return(Box::new(clone_node(a))),
        NodeType::If(c, t, e) => NodeType::If(
            Box::new(clone_node(c)),
            Box::new(clone_node(t)),
            match e {
                Some(e) => Some(Box::new(clone_node(e))),
                None => None,
            },
        ),
        NodeType::While(c, b) => NodeType::While(Box::new(clone_node(c)), Box::new(clone_node(b))),
        NodeType::For(init, cond, inc, body) => NodeType::For(
            match init {
                Some(e) => Some(Box::new(clone_node(e))),
                None => None,
            },
            match cond {
                Some(e) => Some(Box::new(clone_node(e))),
                None => None,
            },
            match inc {
                Some(e) => Some(Box::new(clone_node(e))),
                None => None,
            },
            Box::new(clone_node(body)),
        ),
        NodeType::Block(stmts) => NodeType::Block(clone_nodes(stmts)),
        NodeType::ExprStmt(a) => NodeType::ExprStmt(Box::new(clone_node(a))),
        NodeType::CompStmt(stmts) => NodeType::CompStmt(clone_nodes(stmts)),
    }
}

/// Copies of the trees of `nodes`, in order.
fn clone_nodes(nodes: &Vec<NodeType>) -> (r: Vec<NodeType>)
    ensures
        nodes_view(r@) == nodes_view(nodes@),
    decreases nodes,
{
    let mut copies: Vec<NodeType> = Vec::new();
    let mut i: usize = 0;
    while i < nodes.len()
        invariant
            i <= nodes.len(),
            copies.len() == i,
            forall|k: int| 0 <= k < i ==> (#[trigger] copies[k])@ == nodes[k]@,
        decreases nodes.len() - i,
    {
        let copy = clone_node(&nodes[i]);
        copies.push(copy);
        i += 1;
    }
    assert(nodes_view(copies@) =~= nodes_view(nodes@));
    copies
}

impl Clone for NodeType {
    /// A copy of the tree, with the same value.
    fn clone(&self) -> (r: Self)
        ensures
            r@ == self@,
    {
        clone_node(self)
    }
}

impl View for NodeType {
    type V = Node;

    open spec fn view(&self) -> Node {
        node_view(*self)
    }
}

/// Whether every literal of the tree `n` is a number that a token can
/// hold: not negative, and not above `i32::MAX`.
pub open spec fn in_range(n: Node) -> bool
    decreases n,
{
    match n {
        Node::Num(v) => 0 <= v <= i32::MAX,
        Node::LVar(_) => true,
        Node::Negative(a) | Node::Return(a) | Node::ExprStmt(a) => in_range(*a),
        Node::Plus(a, b) | Node::Minus(a, b) | Node::Mul(a, b) | Node::Div(a, b) | Node::Eq(
            a,
            b,
        ) | Node::Ne(a, b) | Node::Le(a, b) | Node::Lt(a, b) | Node::Assign(a, b) | Node::While(
            a,
            b,
        ) => in_range(*a) && in_range(*b),
        Node::Call(_, args) => forall|i: int| 0 <= i < args.len() ==> in_range(#[trigger] args[i]),
        Node::Block(stmts) => forall|i: int|
            0 <= i < stmts.len() ==> in_range(#[trigger] stmts[i]),
        Node::CompStmt(stmts) => forall|i: int|
            0 <= i < stmts.len() ==> in_range(#[trigger] stmts[i]),
        Node::Func(_, params, body, _) => in_range(*body) && forall|i: int|
            0 <= i < params.len() ==> in_range(#[trigger] params[i]),
        Node::If(c, t, e) => in_range(*c) && in_range(*t) && match e {
            Some(e) => in_range(*e),
            None => true,
        },
        Node::For(init, cond, inc, body) => in_range(*body) && (match init {
            Some(e) => in_range(*e),
            None => true,
        }) && (match cond {
            Some(e) => in_range(*e),
            None => true,
        }) && (match inc {
            Some(e) => in_range(*e),
            None => true,
        }),
    }
}

/// As [`in_range`], for a tree that may be missing.
pub open spec fn option_in_range(n: Option<Box<Node>>) -> bool {
    match n {
        Some(n) => in_range(*n),
        None => true,
    }
}

/// As [`in_range`], for every tree of a sequence.
pub open spec fn all_in_range(nodes: Seq<Node>) -> bool {
    forall|i: int| 0 <= i < nodes.len() ==> in_range(#[trigger] nodes[i])
}

/// A local variable: its name, the length of the name in bytes, and its
/// offset below the frame pointer.
#[derive(Debug, Clone)]
pub struct LVar {
    pub name: String,
    pub len: i32,
    pub offset: i32,
}

/// The mathematical value of an [`LVar`].
pub ghost struct Local {
    pub name: Seq<char>,
    pub len: int,
    pub offset: int,
}

impl View for LVar {
    type V = Local;

    open spec fn view(&self) -> Local {
        Local { name: self.name@, len: self.len as int, offset: self.offset as int }
    }
}

/// The values of a table of local variables, one by one.
pub open spec fn locals_view(locals: Seq<LVar>) -> Seq<Local> {
    locals.map_values(|v: LVar| v@)
}

/// What the parser could not accept.
#[derive(Debug, Clone, Copy, PartialEq, Eq, Structural)]
pub enum ParseErrorKind {
    /// A token other than the one that the grammar asks for.
    UnexpectedToken,
    /// `(` was asked for.
    ExpectedLeftParen,
    /// `)` was asked for.
    ExpectedRightParen,
    /// `{` was asked for.
    ExpectedLeftBrace,
    /// `;` was asked for.
    ExpectedSemicolon,
    /// A number, an identifier or `(` was asked for.
    ExpectedPrimary,
    /// A function definition does not start with its name.
    ExpectedFunctionName,
    /// A parameter is not an identifier.
    ExpectedParameter,
    /// Two parameters of one function have the same name.
    DuplicateParameter,
    /// A function has more than `MAX_LOCALS` local variables.
    TooManyLocals,
}

/// A syntax error: the index of the token at which the parser stopped (the
/// number of tokens, at the end of the input), and the reason.
#[derive(Debug, Clone, Copy, PartialEq, Eq, Structural)]
pub struct ParseError {
    pub pos: usize,
    pub kind: ParseErrorKind,
}

/// What a production makes of the tokens from a position on: the tree, the
/// number of tokens it takes, and the table of local variables afterwards.
pub ghost struct Parsed {
    pub node: Node,
    pub used: nat,
    pub vars: Seq<Local>,
}

/// As [`Parsed`], for a production that makes a list of trees.
pub ghost struct ParsedList {
    pub nodes: Seq<Node>,
    pub used: nat,
    pub vars: Seq<Local>,
}

/// As [`Parsed`], for a clause that may be empty.
pub ghost struct ParsedClause {
    pub node: Option<Box<Node>>,
    pub used: nat,
    pub vars: Seq<Local>,
}

/// The token at `pos`, if the input goes that far.
pub open spec fn token_at(ts: Seq<Token>, pos: int) -> Option<Token> {
    if 0 <= pos < ts.len() {
        Some(ts[pos])
    } else {
        None
    }
}

/// The error for an input that lacks the token `t` where the grammar asks
/// for it.
pub open spec fn expected_kind(t: Token) -> ParseErrorKind {
    match t {
        Token::LeftParen => ParseErrorKind::ExpectedLeftParen,
        Token::RightParen => ParseErrorKind::ExpectedRightParen,
        Token::LeftBrace => ParseErrorKind::ExpectedLeftBrace,
        Token::Semicolon => ParseErrorKind::ExpectedSemicolon,
        _ => ParseErrorKind::UnexpectedToken,
    }
}

/// A syntax error of kind `kind` at `pos`.
pub open spec fn error_at(pos: int, kind: ParseErrorKind) -> ParseError {
    ParseError { pos: pos as usize, kind }
}

/// Nothing, if the token at `pos` is `t`; else the error.
pub open spec fn expect_token(ts: Seq<Token>, pos: int, t: Token) -> Result<(), ParseError> {
    if token_at(ts, pos) == Some(t) {
        Ok(())
    } else {
        Err(error_at(pos, expected_kind(t)))
    }
}

/// The index of the first variable named `name` at or after index `from`.
pub open spec fn find_from(vars: Seq<Local>, name: Seq<char>, from: int) -> Option<int>
    decreases left(vars.len(), from),
{
    if from < 0 || from >= vars.len() {
        None
    } else if vars[from].name == name {
        Some(from)
    } else {
        find_from(vars, name, from + 1)
    }
}

/// The index of the first variable named `name`.
pub open spec fn find(vars: Seq<Local>, name: Seq<char>) -> Option<int> {
    find_from(vars, name, 0)
}

/// The variable that a new name gets in the table `vars`: the next free
/// slot of eight bytes.
pub open spec fn new_local(vars: Seq<Local>, name: Seq<char>) -> Local {
    Local {
        name,
        len: ((encode_utf8(name).len() as usize) as i32) as int,
        offset: 8 * (vars.len() as int + 1),
    }
}

/// A reference to the variable `name` at token `pos`: its offset and the
/// table afterwards. A name that the table holds keeps its offset and
/// leaves the table as it is; a new name is added behind the others, unless
/// the table is full.
pub open spec fn variable(vars: Seq<Local>, name: Seq<char>, pos: int) -> Result<
    (int, Seq<Local>),
    ParseError,
> {
    match find(vars, name) {
        Some(i) => Ok((vars[i].offset, vars)),
        None => if vars.len() >= MAX_LOCALS {
            Err(error_at(pos, ParseErrorKind::TooManyLocals))
        } else {
            Ok((new_local(vars, name).offset, vars.push(new_local(vars, name))))
        },
    }
}

/// The call of `name` with the arguments `args`, if they could be read.
pub open spec fn call_of(name: Seq<char>, args: Result<ParsedList, ParseError>) -> Result<
    Parsed,
    ParseError,
> {
    match args {
        Err(e) => Err(e),
        Ok(args) => Ok(Parsed { node: Node::Call(name, args.nodes), used: args.used, vars: args.vars }),
    }
}

/// The block of the statements `list`, if they could be read.
pub open spec fn block_of(list: Result<ParsedList, ParseError>) -> Result<Parsed, ParseError> {
    match list {
        Err(e) => Err(e),
        Ok(list) => Ok(Parsed { node: Node::Block(list.nodes), used: list.used, vars: list.vars }),
    }
}

/// `primary = num | ident ("(" (primary ("," primary)*)? ")")? | "(" expr ")"`
///
/// An identifier before `(` is a call; any other identifier is a variable.
#[verifier::opaque]
pub open spec fn parse_primary(ts: Seq<Token>, pos: int, vars: Seq<Local>) -> Result<
    Parsed,
    ParseError,
>
    decreases left(ts.len(), pos), 0nat,
{
    match token_at(ts, pos) {
        Some(Token::Num(v)) => Ok(Parsed { node: Node::Num(v), used: 1, vars }),
        Some(Token::Ident(name)) => {
            if token_at(ts, pos + 1) != Some(Token::LeftParen) {
                match variable(vars, name, pos) {
                    Err(e) => Err(e),
                    Ok((offset, vars)) => Ok(Parsed { node: Node::LVar(offset), used: 1, vars }),
                }
            } else if token_at(ts, pos + 2) == Some(Token::RightParen) {
                Ok(Parsed { node: Node::Call(name, Seq::empty()), used: 3, vars })
            } else {
                match parse_primary(ts, pos + 2, vars) {
                    Err(e) => Err(e),
                    Ok(first) => call_of(
                        name,
                        parse_args_rest(
                            ts,
                            pos,
                            ParsedList {
                                nodes: seq![first.node],
                                used: 2 + first.used,
                                vars: first.vars,
                            },
                        ),
                    ),
                }
            }
        },
        Some(Token::LeftParen) => match parse_expr(ts, pos + 1, vars) {
            Err(e) => Err(e),
            Ok(inner) => match expect_token(ts, pos + 1 + inner.used, Token::RightParen) {
                Err(e) => Err(e),
                Ok(_) => Ok(Parsed { node: inner.node, used: inner.used + 2, vars: inner.vars }),
            },
        },
        _ => Err(error_at(pos, ParseErrorKind::ExpectedPrimary)),
    }
}

/// The rest of a call's arguments, `("," primary)* ")"`, behind those in
/// `acc`, which end `acc.used` tokens after `pos`.
#[verifier::opaque]
pub open spec fn parse_args_rest(ts: Seq<Token>, pos: int, acc: ParsedList) -> Result<
    ParsedList,
    ParseError,
>
    decreases left(ts.len(), pos + acc.used), 0nat,
{
    if token_at(ts, pos + acc.used) == Some(Token::Comma) {
        match parse_primary(ts, pos + acc.used + 1, acc.vars) {
            Err(e) => Err(e),
            Ok(next) => parse_args_rest(
                ts,
                pos,
                ParsedList {
                    nodes: acc.nodes.push(next.node),
                    used: acc.used + 1 + next.used,
                    vars: next.vars,
                },
            ),
        }
    } else {
        match expect_token(ts, pos + acc.used, Token::RightParen) {
            Err(e) => Err(e),
            Ok(_) => Ok(ParsedList { nodes: acc.nodes, used: acc.used + 1, vars: acc.vars }),
        }
    }
}

/// `unary = ("+" | "-")? primary`
#[verifier::opaque]
pub open spec fn parse_unary(ts: Seq<Token>, pos: int, vars: Seq<Local>) -> Result<
    Parsed,
    ParseError,
>
    decreases left(ts.len(), pos), 1nat,
{
    if token_at(ts, pos) == Some(Token::Minus) {
        match parse_primary(ts, pos + 1, vars) {
            Err(e) => Err(e),
            Ok(p) => Ok(
                Parsed { node: Node::Negative(Box::new(p.node)), used: p.used + 1, vars: p.vars },
            ),
        }
    } else if token_at(ts, pos) == Some(Token::Plus) {
        match parse_primary(ts, pos + 1, vars) {
            Err(e) => Err(e),
            Ok(p) => Ok(Parsed { node: p.node, used: p.used + 1, vars: p.vars }),
        }
    } else {
        parse_primary(ts, pos, vars)
    }
}

/// `mul = unary (("*" | "/") unary)*`, folded from the left.
#[verifier::opaque]
pub open spec fn parse_mul(ts: Seq<Token>, pos: int, vars: Seq<Local>) -> Result<
    Parsed,
    ParseError,
>
    decreases left(ts.len(), pos), 3nat,
{
    match parse_unary(ts, pos, vars) {
        Err(e) => Err(e),
        Ok(first) => parse_mul_rest(ts, pos, first),
    }
}

/// The rest of a product behind the operand `acc`, which ends `acc.used`
/// tokens after `pos`.
#[verifier::opaque]
pub open spec fn parse_mul_rest(ts: Seq<Token>, pos: int, acc: Parsed) -> Result<
    Parsed,
    ParseError,
>
    decreases left(ts.len(), pos + acc.used), 2nat,
{
    match token_at(ts, pos + acc.used) {
        Some(Token::Mul) => match parse_unary(ts, pos + acc.used + 1, acc.vars) {
            Err(e) => Err(e),
            Ok(rhs) => parse_mul_rest(
                ts,
                pos,
                Parsed {
                    node: Node::Mul(Box::new(acc.node), Box::new(rhs.node)),
                    used: acc.used + 1 + rhs.used,
                    vars: rhs.vars,
                },
            ),
        },
        Some(Token::Div) => match parse_unary(ts, pos + acc.used + 1, acc.vars) {
            Err(e) => Err(e),
            Ok(rhs) => parse_mul_rest(
                ts,
                pos,
                Parsed {
                    node: Node::Div(Box::new(acc.node), Box::new(rhs.node)),
                    used: acc.used + 1 + rhs.used,
                    vars: rhs.vars,
                },
            ),
        },
        _ => Ok(acc),
    }
}

/// `add = mul (("+" | "-") mul)*`, folded from the left.
#[verifier::opaque]
pub open spec fn parse_add(ts: Seq<Token>, pos: int, vars: Seq<Local>) -> Result<
    Parsed,
    ParseError,
>
    decreases left(ts.len(), pos), 5nat,
{
    match parse_mul(ts, pos, vars) {
        Err(e) => Err(e),
        Ok(first) => parse_add_rest(ts, pos, first),
    }
}

/// The rest of a sum behind the operand `acc`, which ends `acc.used` tokens
/// after `pos`.
#[verifier::opaque]
pub open spec fn parse_add_rest(ts: Seq<Token>, pos: int, acc: Parsed) -> Result<
    Parsed,
    ParseError,
>
    decreases left(ts.len(), pos + acc.used), 4nat,
{
    match token_at(ts, pos + acc.used) {
        Some(Token::Plus) => match parse_mul(ts, pos + acc.used + 1, acc.vars) {
            Err(e) => Err(e),
            Ok(rhs) => parse_add_rest(
                ts,
                pos,
                Parsed {
                    node: Node::Plus(Box::new(acc.node), Box::new(rhs.node)),
                    used: acc.used + 1 + rhs.used,
                    vars: rhs.vars,
                },
            ),
        },
        Some(Token::Minus) => match parse_mul(ts, pos + acc.used + 1, acc.vars) {
            Err(e) => Err(e),
            Ok(rhs) => parse_add_rest(
                ts,
                pos,
                Parsed {
                    node: Node::Minus(Box::new(acc.node), Box::new(rhs.node)),
                    used: acc.used + 1 + rhs.used,
                    vars: rhs.vars,
                },
            ),
        },
        _ => Ok(acc),
    }
}

/// The comparison that the operator `op` makes of the operand `lhs` before
/// it and the operand `rhs` behind it. There is no tree for `>` and `>=`:
/// `lhs > rhs` is the tree of `rhs < lhs`, and `lhs >= rhs` that of
/// `rhs <= lhs`.
pub open spec fn relation(op: Token, lhs: Node, rhs: Node) -> Option<Node> {
    match op {
        Token::Lt => Some(Node::Lt(Box::new(lhs), Box::new(rhs))),
        Token::Le => Some(Node::Le(Box::new(lhs), Box::new(rhs))),
        Token::Gt => Some(Node::Lt(Box::new(rhs), Box::new(lhs))),
        Token::Ge => Some(Node::Le(Box::new(rhs), Box::new(lhs))),
        _ => None,
    }
}

/// `relational = add (("<" | "<=" | ">" | ">=") add)*`, folded from the
/// left.
#[verifier::opaque]
pub open spec fn parse_relational(ts: Seq<Token>, pos: int, vars: Seq<Local>) -> Result<
    Parsed,
    ParseError,
>
    decreases left(ts.len(), pos), 7nat,
{
    match parse_add(ts, pos, vars) {
        Err(e) => Err(e),
        Ok(first) => parse_relational_rest(ts, pos, first),
    }
}

/// The rest of a chain of comparisons behind the operand `acc`, which ends
/// `acc.used` tokens after `pos`.
#[verifier::opaque]
pub open spec fn parse_relational_rest(ts: Seq<Token>, pos: int, acc: Parsed) -> Result<
    Parsed,
    ParseError,
>
    decreases left(ts.len(), pos + acc.used), 6nat,
{
    match token_at(ts, pos + acc.used) {
        Some(op) => if op == Token::Lt || op == Token::Le || op == Token::Gt || op == Token::Ge {
            match parse_add(ts, pos + acc.used + 1, acc.vars) {
                Err(e) => Err(e),
                Ok(rhs) => parse_relational_rest(
                    ts,
                    pos,
                    Parsed {
                        node: relation(op, acc.node, rhs.node)->Some_0,
                        used: acc.used + 1 + rhs.used,
                        vars: rhs.vars,
                    },
                ),
            }
        } else {
            Ok(acc)
        },
        None => Ok(acc),
    }
}

/// `equality = relational (("==" | "!=") relational)*`, folded from the
/// left.
#[verifier::opaque]
pub open spec fn parse_equality(ts: Seq<Token>, pos: int, vars: Seq<Local>) -> Result<
    Parsed,
    ParseError,
>
    decreases left(ts.len(), pos), 9nat,
{
    match parse_relational(ts, pos, vars) {
        Err(e) => Err(e),
        Ok(first) => parse_equality_rest(ts, pos, first),
    }
}

/// The rest of a chain of equalities behind the operand `acc`, which ends
/// `acc.used` tokens after `pos`.
#[verifier::opaque]
pub open spec fn parse_equality_rest(ts: Seq<Token>, pos: int, acc: Parsed) -> Result<
    Parsed,
    ParseError,
>
    decreases left(ts.len(), pos + acc.used), 8nat,
{
    match token_at(ts, pos + acc.used) {
        Some(Token::Eq) => match parse_relational(ts, pos + acc.used + 1, acc.vars) {
            Err(e) => Err(e),
            Ok(rhs) => parse_equality_rest(
                ts,
                pos,
                Parsed {
                    node: Node::Eq(Box::new(acc.node), Box::new(rhs.node)),
                    used: acc.used + 1 + rhs.used,
                    vars: rhs.vars,
                },
            ),
        },
        Some(Token::Ne) => match parse_relational(ts, pos + acc.used + 1, acc.vars) {
            Err(e) => Err(e),
            Ok(rhs) => parse_equality_rest(
                ts,
                pos,
                Parsed {
                    node: Node::Ne(Box::new(acc.node), Box::new(rhs.node)),
                    used: acc.used + 1 + rhs.used,
                    vars: rhs.vars,
                },
            ),
        },
        _ => Ok(acc),
    }
}

/// `assign = equality ("=" assign)?`: assignment groups to the right.
#[verifier::opaque]
pub open spec fn parse_assign(ts: Seq<Token>, pos: int, vars: Seq<Local>) -> Result<
    Parsed,
    ParseError,
>
    decreases left(ts.len(), pos), 10nat,
{
    match parse_equality(ts, pos, vars) {
        Err(e) => Err(e),
        Ok(lhs) => if token_at(ts, pos + lhs.used) == Some(Token::Assign) {
            match parse_assign(ts, pos + lhs.used + 1, lhs.vars) {
                Err(e) => Err(e),
                Ok(rhs) => Ok(
                    Parsed {
                        node: Node::Assign(Box::new(lhs.node), Box::new(rhs.node)),
                        used: lhs.used + 1 + rhs.used,
                        vars: rhs.vars,
                    },
                ),
            }
        } else {
            Ok(lhs)
        },
    }
}

/// `expr = assign`
#[verifier::opaque]
pub open spec fn parse_expr(ts: Seq<Token>, pos: int, vars: Seq<Local>) -> Result<
    Parsed,
    ParseError,
>
    decreases left(ts.len(), pos), 11nat,
{
    parse_assign(ts, pos, vars)
}

/// `expr_stmt = expr ";"`
#[verifier::opaque]
pub open spec fn parse_expr_stmt(ts: Seq<Token>, pos: int, vars: Seq<Local>) -> Result<
    Parsed,
    ParseError,
>
    decreases left(ts.len(), pos), 12nat,
{
    match parse_expr(ts, pos, vars) {
        Err(e) => Err(e),
        Ok(e) => match expect_token(ts, pos + e.used, Token::Semicolon) {
            Err(e) => Err(e),
            Ok(_) => Ok(
                Parsed { node: Node::ExprStmt(Box::new(e.node)), used: e.used + 1, vars: e.vars },
            ),
        },
    }
}

/// A clause of a `for`: `end` alone, or `expr end`.
#[verifier::opaque]
pub open spec fn parse_clause(ts: Seq<Token>, pos: int, vars: Seq<Local>, end: Token) -> Result<
    ParsedClause,
    ParseError,
>
    decreases left(ts.len(), pos), 12nat,
{
    if token_at(ts, pos) == Some(end) {
        Ok(ParsedClause { node: None, used: 1, vars })
    } else {
        match parse_expr(ts, pos, vars) {
            Err(e) => Err(e),
            Ok(e) => match expect_token(ts, pos + e.used, end) {
                Err(e) => Err(e),
                Ok(_) => Ok(
                    ParsedClause { node: Some(Box::new(e.node)), used: e.used + 1, vars: e.vars },
                ),
            },
        }
    }
}

/// `"if" "(" expr ")" stmt ("else" stmt)?`, from the `if` on.
#[verifier::opaque]
pub open spec fn parse_if(ts: Seq<Token>, pos: int, vars: Seq<Local>) -> Result<Parsed, ParseError>
    decreases left(ts.len(), pos + 1), 15nat,
{
    match expect_token(ts, pos + 1, Token::LeftParen) {
        Err(e) => Err(e),
        Ok(_) => match parse_expr(ts, pos + 2, vars) {
            Err(e) => Err(e),
            Ok(c) => match expect_token(ts, pos + 2 + c.used, Token::RightParen) {
                Err(e) => Err(e),
                Ok(_) => match parse_stmt(ts, pos + 3 + c.used, c.vars) {
                    Err(e) => Err(e),
                    Ok(t) => if token_at(ts, pos + 3 + c.used + t.used) == Some(Token::Else) {
                        match parse_stmt(ts, pos + 4 + c.used + t.used, t.vars) {
                            Err(e) => Err(e),
                            Ok(f) => Ok(
                                Parsed {
                                    node: Node::If(
                                        Box::new(c.node),
                                        Box::new(t.node),
                                        Some(Box::new(f.node)),
                                    ),
                                    used: 4 + c.used + t.used + f.used,
                                    vars: f.vars,
                                },
                            ),
                        }
                    } else {
                        Ok(
                            Parsed {
                                node: Node::If(Box::new(c.node), Box::new(t.node), None),
                                used: 3 + c.used + t.used,
                                vars: t.vars,
                            },
                        )
                    },
                },
            },
        },
    }
}

/// `"for" "(" expr? ";" expr? ";" expr? ")" stmt`, from the `for` on.
#[verifier::opaque]
pub open spec fn parse_for(ts: Seq<Token>, pos: int, vars: Seq<Local>) -> Result<Parsed, ParseError>
    decreases left(ts.len(), pos + 1), 15nat,
{
    match expect_token(ts, pos + 1, Token::LeftParen) {
        Err(e) => Err(e),
        Ok(_) => match parse_clause(ts, pos + 2, vars, Token::Semicolon) {
            Err(e) => Err(e),
            Ok(init) => match parse_clause(ts, pos + 2 + init.used, init.vars, Token::Semicolon) {
                Err(e) => Err(e),
                Ok(cond) => match parse_clause(
                    ts,
                    pos + 2 + init.used + cond.used,
                    cond.vars,
                    Token::RightParen,
                ) {
                    Err(e) => Err(e),
                    Ok(inc) => match parse_stmt(
                        ts,
                        pos + 2 + init.used + cond.used + inc.used,
                        inc.vars,
                    ) {
                        Err(e) => Err(e),
                        Ok(body) => Ok(
                            Parsed {
                                node: Node::For(init.node, cond.node, inc.node, Box::new(body.node)),
                                used: 2 + init.used + cond.used + inc.used + body.used,
                                vars: body.vars,
                            },
                        ),
                    },
                },
            },
        },
    }
}

/// `"while" "(" expr ")" stmt`, from the `while` on.
#[verifier::opaque]
pub open spec fn parse_while(ts: Seq<Token>, pos: int, vars: Seq<Local>) -> Result<
    Parsed,
    ParseError,
>
    decreases left(ts.len(), pos + 1), 15nat,
{
    match expect_token(ts, pos + 1, Token::LeftParen) {
        Err(e) => Err(e),
        Ok(_) => match parse_expr(ts, pos + 2, vars) {
            Err(e) => Err(e),
            Ok(c) => match expect_token(ts, pos + 2 + c.used, Token::RightParen) {
                Err(e) => Err(e),
                Ok(_) => match parse_stmt(ts, pos + 3 + c.used, c.vars) {
                    Err(e) => Err(e),
                    Ok(body) => Ok(
                        Parsed {
                            node: Node::While(Box::new(c.node), Box::new(body.node)),
                            used: 3 + c.used + body.used,
                            vars: body.vars,
                        },
                    ),
                },
            },
        },
    }
}

/// `"return" expr ";"`, from the `return` on.
#[verifier::opaque]
pub open spec fn parse_return(ts: Seq<Token>, pos: int, vars: Seq<Local>) -> Result<
    Parsed,
    ParseError,
>
    decreases left(ts.len(), pos + 1), 15nat,
{
    match parse_expr(ts, pos + 1, vars) {
        Err(e) => Err(e),
        Ok(e) => match expect_token(ts, pos + 1 + e.used, Token::Semicolon) {
            Err(e) => Err(e),
            Ok(_) => Ok(
                Parsed { node: Node::Return(Box::new(e.node)), used: e.used + 2, vars: e.vars },
            ),
        },
    }
}

/// ```text
/// stmt = "if" "(" expr ")" stmt ("else" stmt)?
///      | "for" "(" expr? ";" expr? ";" expr? ")" stmt
///      | "while" "(" expr ")" stmt
///      | "return" expr ";"
///      | "{" stmt* "}"
///      | expr ";"
/// ```
#[verifier::opaque]
pub open spec fn parse_stmt(ts: Seq<Token>, pos: int, vars: Seq<Local>) -> Result<
    Parsed,
    ParseError,
>
    decreases left(ts.len(), pos), 13nat,
{
    match token_at(ts, pos) {
        Some(Token::If) => parse_if(ts, pos, vars),
        Some(Token::For) => parse_for(ts, pos, vars),
        Some(Token::While) => parse_while(ts, pos, vars),
        Some(Token::Return) => parse_return(ts, pos, vars),
        Some(Token::LeftBrace) => block_of(
            parse_stmts_rest(ts, pos, ParsedList { nodes: Seq::empty(), used: 1, vars }),
        ),
        _ => parse_expr_stmt(ts, pos, vars),
    }
}

/// The rest of a list of statements, `stmt* "}"`, behind those in `acc`,
/// which end `acc.used` tokens after `pos`.
///
/// A statement takes at least one token ([`crate::progress::lemma_stmt`]), so the list
/// always goes on behind a statement; the definition says so to be
/// well-founded.
#[verifier::opaque]
pub open spec fn parse_stmts_rest(ts: Seq<Token>, pos: int, acc: ParsedList) -> Result<
    ParsedList,
    ParseError,
>
    decreases left(ts.len(), pos + acc.used), 14nat,
{
    if token_at(ts, pos + acc.used) == Some(Token::RightBrace) {
        Ok(ParsedList { nodes: acc.nodes, used: acc.used + 1, vars: acc.vars })
    } else {
        match parse_stmt(ts, pos + acc.used, acc.vars) {
            Err(e) => Err(e),
            Ok(s) => {
                let list = ParsedList {
                    nodes: acc.nodes.push(s.node),
                    used: acc.used + s.used,
                    vars: s.vars,
                };
                if s.used > 0 && pos + acc.used < ts.len() {
                    parse_stmts_rest(ts, pos, list)
                } else {
                    Ok(list)
                }
            },
        }
    }
}

/// The rest of a function's parameters, `ident ("," ident)* ")"`, behind
/// those in `acc`, which end `acc.used` tokens after `pos`. Each parameter
/// is a new local variable, in the order of the list.
#[verifier::opaque]
pub open spec fn parse_params_rest(ts: Seq<Token>, pos: int, acc: ParsedList) -> Result<
    ParsedList,
    ParseError,
>
    decreases left(ts.len(), pos + acc.used),
{
    match token_at(ts, pos + acc.used) {
        Some(Token::Ident(name)) => if find(acc.vars, name) is Some {
            Err(error_at(pos + acc.used, ParseErrorKind::DuplicateParameter))
        } else {
            match variable(acc.vars, name, pos + acc.used) {
                Err(e) => Err(e),
                Ok((offset, vars)) => {
                    let nodes = acc.nodes.push(Node::LVar(offset));
                    if token_at(ts, pos + acc.used + 1) == Some(Token::Comma) {
                        parse_params_rest(ts, pos, ParsedList { nodes, used: acc.used + 2, vars })
                    } else {
                        match expect_token(ts, pos + acc.used + 1, Token::RightParen) {
                            Err(e) => Err(e),
                            Ok(_) => Ok(ParsedList { nodes, used: acc.used + 2, vars }),
                        }
                    }
                },
            }
        },
        _ => Err(error_at(pos + acc.used, ParseErrorKind::ExpectedParameter)),
    }
}

/// The parameters of a function from the token behind `(` on, with the
/// closing `)`.
#[verifier::opaque]
pub open spec fn parse_params(ts: Seq<Token>, pos: int) -> Result<ParsedList, ParseError> {
    if token_at(ts, pos) == Some(Token::RightParen) {
        Ok(ParsedList { nodes: Seq::empty(), used: 1, vars: Seq::empty() })
    } else {
        parse_params_rest(ts, pos, ParsedList { nodes: Seq::empty(), used: 0, vars: Seq::empty() })
    }
}

/// `function = ident "(" (ident ("," ident)*)? ")" "{" stmt* "}"`
///
/// The function's table of local variables starts empty, takes the
/// parameters first, and then each new name of the body as it appears.
#[verifier::opaque]
pub open spec fn parse_toplevel(ts: Seq<Token>, pos: int) -> Result<Parsed, ParseError> {
    match token_at(ts, pos) {
        Some(Token::Ident(name)) => match expect_token(ts, pos + 1, Token::LeftParen) {
            Err(e) => Err(e),
            Ok(_) => match parse_params(ts, pos + 2) {
                Err(e) => Err(e),
                Ok(params) => match expect_token(ts, pos + 2 + params.used, Token::LeftBrace) {
                    Err(e) => Err(e),
                    Ok(_) => match parse_stmts_rest(
                        ts,
                        pos + 2 + params.used,
                        ParsedList { nodes: Seq::empty(), used: 1, vars: params.vars },
                    ) {
                        Err(e) => Err(e),
                        Ok(body) => Ok(
                            Parsed {
                                node: Node::Func(
                                    name,
                                    params.nodes,
                                    Box::new(Node::CompStmt(body.nodes)),
                                    FRAME_SIZE as nat,
                                ),
                                used: 2 + params.used + body.used,
                                vars: body.vars,
                            },
                        ),
                    },
                },
            },
        },
        _ => Err(error_at(pos, ParseErrorKind::ExpectedFunctionName)),
    }
}

/// The functions of a program from `pos` on, behind those in `acc`.
///
/// A function takes at least one token ([`crate::progress::lemma_toplevel`]), so the program
/// always goes on behind a function; the definition says so to be
/// well-founded.
#[verifier::opaque]
pub open spec fn parse_program_rest(ts: Seq<Token>, pos: int, acc: Seq<Node>) -> Result<
    Seq<Node>,
    ParseError,
>
    decreases left(ts.len(), pos),
{
    if pos < 0 || pos >= ts.len() {
        Ok(acc)
    } else {
        match parse_toplevel(ts, pos) {
            Err(e) => Err(e),
            Ok(f) => if f.used > 0 {
                parse_program_rest(ts, pos + f.used, acc.push(f.node))
            } else {
                Ok(acc.push(f.node))
            },
        }
    }
}

/// `program = function*`: the trees of the functions of `ts`, in order, or
/// the first syntax error.
pub open spec fn parse_program(ts: Seq<Token>) -> Result<Seq<Node>, ParseError> {
    parse_program_rest(ts, 0, Seq::empty())
}


/// The defining equation of [`parse_primary`].
pub proof fn lemma_parse_primary(ts: Seq<Token>, pos: int, vars: Seq<Local>)
    ensures
        parse_primary(ts, pos, vars) == ({
        match token_at(ts, pos) {
            Some(Token::Num(v)) => Ok(Parsed { node: Node::Num(v), used: 1, vars }),
            Some(Token::Ident(name)) => {
                if token_at(ts, pos + 1) != Some(Token::LeftParen) {
                    match variable(vars, name, pos) {
                        Err(e) => Err(e),
                        Ok((offset, vars)) => Ok(Parsed { node: Node::LVar(offset), used: 1, vars }),
                    }
                } else if token_at(ts, pos + 2) == Some(Token::RightParen) {
                    Ok(Parsed { node: Node::Call(name, Seq::empty()), used: 3, vars })
                } else {
                    match parse_primary(ts, pos + 2, vars) {
                        Err(e) => Err(e),
                        Ok(first) => call_of(
                            name,
                            parse_args_rest(
                                ts,
                                pos,
                                ParsedList {
                                    nodes: seq![first.node],
                                    used: 2 + first.used,
                                    vars: first.vars,
                                },
                            ),
                        ),
                    }
                }
            },
            Some(Token::LeftParen) => match parse_expr(ts, pos + 1, vars) {
                Err(e) => Err(e),
                Ok(inner) => match expect_token(ts, pos + 1 + inner.used, Token::RightParen) {
                    Err(e) => Err(e),
                    Ok(_) => Ok(Parsed { node: inner.node, used: inner.used + 2, vars: inner.vars }),
                },
            },
            _ => Err(error_at(pos, ParseErrorKind::ExpectedPrimary)),
        }
        }),
{
    reveal(parse_args_rest);
    reveal(parse_expr);
    reveal(parse_primary);
}

/// The defining equation of [`parse_args_rest`].
pub proof fn lemma_parse_args_rest(ts: Seq<Token>, pos: int, acc: ParsedList)
    ensures
        parse_args_rest(ts, pos, acc) == ({
        if token_at(ts, pos + acc.used) == Some(Token::Comma) {
            match parse_primary(ts, pos + acc.used + 1, acc.vars) {
                Err(e) => Err(e),
                Ok(next) => parse_args_rest(
                    ts,
                    pos,
                    ParsedList {
                        nodes: acc.nodes.push(next.node),
                        used: acc.used + 1 + next.used,
                        vars: next.vars,
                    },
                ),
            }
        } else {
            match expect_token(ts, pos + acc.used, Token::RightParen) {
                Err(e) => Err(e),
                Ok(_) => Ok(ParsedList { nodes: acc.nodes, used: acc.used + 1, vars: acc.vars }),
            }
        }
        }),
{
    reveal(parse_args_rest);
    reveal(parse_primary);
}

/// The defining equation of [`parse_unary`].
pub proof fn lemma_parse_unary(ts: Seq<Token>, pos: int, vars: Seq<Local>)
    ensures
        parse_unary(ts, pos, vars) == ({
        if token_at(ts, pos) == Some(Token::Minus) {
            match parse_primary(ts, pos + 1, vars) {
                Err(e) => Err(e),
                Ok(p) => Ok(
                    Parsed { node: Node::Negative(Box::new(p.node)), used: p.used + 1, vars: p.vars },
                ),
            }
        } else if token_at(ts, pos) == Some(Token::Plus) {
            match parse_primary(ts, pos + 1, vars) {
                Err(e) => Err(e),
                Ok(p) => Ok(Parsed { node: p.node, used: p.used + 1, vars: p.vars }),
            }
        } else {
            parse_primary(ts, pos, vars)
        }
        }),
{
    reveal(parse_primary);
    reveal(parse_unary);
}

/// The defining equation of [`parse_mul`].
pub proof fn lemma_parse_mul(ts: Seq<Token>, pos: int, vars: Seq<Local>)
    ensures
        parse_mul(ts, pos, vars) == ({
        match parse_unary(ts, pos, vars) {
            Err(e) => Err(e),
            Ok(first) => parse_mul_rest(ts, pos, first),
        }
        }),
{
    reveal(parse_mul);
    reveal(parse_mul_rest);
    reveal(parse_unary);
}

/// The defining equation of [`parse_mul_rest`].
pub proof fn lemma_parse_mul_rest(ts: Seq<Token>, pos: int, acc: Parsed)
    ensures
        parse_mul_rest(ts, pos, acc) == ({
        match token_at(ts, pos + acc.used) {
            Some(Token::Mul) => match parse_unary(ts, pos + acc.used + 1, acc.vars) {
                Err(e) => Err(e),
                Ok(rhs) => parse_mul_rest(
                    ts,
                    pos,
                    Parsed {
                        node: Node::Mul(Box::new(acc.node), Box::new(rhs.node)),
                        used: acc.used + 1 + rhs.used,
                        vars: rhs.vars,
                    },
                ),
            },
            Some(Token::Div) => match parse_unary(ts, pos + acc.used + 1, acc.vars) {
                Err(e) => Err(e),
                Ok(rhs) => parse_mul_rest(
                    ts,
                    pos,
                    Parsed {
                        node: Node::Div(Box::new(acc.node), Box::new(rhs.node)),
                        used: acc.used + 1 + rhs.used,
                        vars: rhs.vars,
                    },
                ),
            },
            _ => Ok(acc),
        }
        }),
{
    reveal(parse_mul_rest);
    reveal(parse_unary);
}

/// The defining equation of [`parse_add`].
pub proof fn lemma_parse_add(ts: Seq<Token>, pos: int, vars: Seq<Local>)
    ensures
        parse_add(ts, pos, vars) == ({
        match parse_mul(ts, pos, vars) {
            Err(e) => Err(e),
            Ok(first) => parse_add_rest(ts, pos, first),
        }
        }),
{
    reveal(parse_add);
    reveal(parse_add_rest);
    reveal(parse_mul);
}

/// The defining equation of [`parse_add_rest`].
pub proof fn lemma_parse_add_rest(ts: Seq<Token>, pos: int, acc: Parsed)
    ensures
        parse_add_rest(ts, pos, acc) == ({
        match token_at(ts, pos + acc.used) {
            Some(Token::Plus) => match parse_mul(ts, pos + acc.used + 1, acc.vars) {
                Err(e) => Err(e),
                Ok(rhs) => parse_add_rest(
                    ts,
                    pos,
                    Parsed {
                        node: Node::Plus(Box::new(acc.node), Box::new(rhs.node)),
                        used: acc.used + 1 + rhs.used,
                        vars: rhs.vars,
                    },
                ),
            },
            Some(Token::Minus) => match parse_mul(ts, pos + acc.used + 1, acc.vars) {
                Err(e) => Err(e),
                Ok(rhs) => parse_add_rest(
                    ts,
                    pos,
                    Parsed {
                        node: Node::Minus(Box::new(acc.node), Box::new(rhs.node)),
                        used: acc.used + 1 + rhs.used,
                        vars: rhs.vars,
                    },
                ),
            },
            _ => Ok(acc),
        }
        }),
{
    reveal(parse_add_rest);
    reveal(parse_mul);
}

/// The defining equation of [`parse_relational`].
pub proof fn lemma_parse_relational(ts: Seq<Token>, pos: int, vars: Seq<Local>)
    ensures
        parse_relational(ts, pos, vars) == ({
        match parse_add(ts, pos, vars) {
            Err(e) => Err(e),
            Ok(first) => parse_relational_rest(ts, pos, first),
        }
        }),
{
    reveal(parse_add);
    reveal(parse_relational);
    reveal(parse_relational_rest);
}

/// The defining equation of [`parse_relational_rest`].
pub proof fn lemma_parse_relational_rest(ts: Seq<Token>, pos: int, acc: Parsed)
    ensures
        parse_relational_rest(ts, pos, acc) == ({
        match token_at(ts, pos + acc.used) {
            Some(op) => if op == Token::Lt || op == Token::Le || op == Token::Gt || op == Token::Ge {
                match parse_add(ts, pos + acc.used + 1, acc.vars) {
                    Err(e) => Err(e),
                    Ok(rhs) => parse_relational_rest(
                        ts,
                        pos,
                        Parsed {
                            node: relation(op, acc.node, rhs.node)->Some_0,
                            used: acc.used + 1 + rhs.used,
                            vars: rhs.vars,
                        },
                    ),
                }
            } else {
                Ok(acc)
            },
            None => Ok(acc),
        }
        }),
{
    reveal(parse_add);
    reveal(parse_relational_rest);
}

/// The defining equation of [`parse_equality`].
pub proof fn lemma_parse_equality(ts: Seq<Token>, pos: int, vars: Seq<Local>)
    ensures
        parse_equality(ts, pos, vars) == ({
        match parse_relational(ts, pos, vars) {
            Err(e) => Err(e),
            Ok(first) => parse_equality_rest(ts, pos, first),
        }
        }),
{
    reveal(parse_equality);
    reveal(parse_equality_rest);
    reveal(parse_relational);
}

/// The defining equation of [`parse_equality_rest`].
pub proof fn lemma_parse_equality_rest(ts: Seq<Token>, pos: int, acc: Parsed)
    ensures
        parse_equality_rest(ts, pos, acc) == ({
        match token_at(ts, pos + acc.used) {
            Some(Token::Eq) => match parse_relational(ts, pos + acc.used + 1, acc.vars) {
                Err(e) => Err(e),
                Ok(rhs) => parse_equality_rest(
                    ts,
                    pos,
                    Parsed {
                        node: Node::Eq(Box::new(acc.node), Box::new(rhs.node)),
                        used: acc.used + 1 + rhs.used,
                        vars: rhs.vars,
                    },
                ),
            },
            Some(Token::Ne) => match parse_relational(ts, pos + acc.used + 1, acc.vars) {
                Err(e) => Err(e),
                Ok(rhs) => parse_equality_rest(
                    ts,
                    pos,
                    Parsed {
                        node: Node::Ne(Box::new(acc.node), Box::new(rhs.node)),
                        used: acc.used + 1 + rhs.used,
                        vars: rhs.vars,
                    },
                ),
            },
            _ => Ok(acc),
        }
        }),
{
    reveal(parse_equality_rest);
    reveal(parse_relational);
}

/// The defining equation of [`parse_assign`].
pub proof fn lemma_parse_assign(ts: Seq<Token>, pos: int, vars: Seq<Local>)
    ensures
        parse_assign(ts, pos, vars) == ({
        match parse_equality(ts, pos, vars) {
            Err(e) => Err(e),
            Ok(lhs) => if token_at(ts, pos + lhs.used) == Some(Token::Assign) {
                match parse_assign(ts, pos + lhs.used + 1, lhs.vars) {
                    Err(e) => Err(e),
                    Ok(rhs) => Ok(
                        Parsed {
                            node: Node::Assign(Box::new(lhs.node), Box::new(rhs.node)),
                            used: lhs.used + 1 + rhs.used,
                            vars: rhs.vars,
                        },
                    ),
                }
            } else {
                Ok(lhs)
            },
        }
        }),
{
    reveal(parse_assign);
    reveal(parse_equality);
}

/// The defining equation of [`parse_expr`].
pub proof fn lemma_parse_expr(ts: Seq<Token>, pos: int, vars: Seq<Local>)
    ensures
        parse_expr(ts, pos, vars) == ({
        parse_assign(ts, pos, vars)
        }),
{
    reveal(parse_assign);
    reveal(parse_expr);
}

/// The defining equation of [`parse_expr_stmt`].
pub proof fn lemma_parse_expr_stmt(ts: Seq<Token>, pos: int, vars: Seq<Local>)
    ensures
        parse_expr_stmt(ts, pos, vars) == ({
        match parse_expr(ts, pos, vars) {
            Err(e) => Err(e),
            Ok(e) => match expect_token(ts, pos + e.used, Token::Semicolon) {
                Err(e) => Err(e),
                Ok(_) => Ok(
                    Parsed { node: Node::ExprStmt(Box::new(e.node)), used: e.used + 1, vars: e.vars },
                ),
            },
        }
        }),
{
    reveal(parse_expr);
    reveal(parse_expr_stmt);
}

/// The defining equation of [`parse_clause`].
pub proof fn lemma_parse_clause(ts: Seq<Token>, pos: int, vars: Seq<Local>, end: Token)
    ensures
        parse_clause(ts, pos, vars, end) == ({
        if token_at(ts, pos) == Some(end) {
            Ok(ParsedClause { node: None, used: 1, vars })
        } else {
            match parse_expr(ts, pos, vars) {
                Err(e) => Err(e),
                Ok(e) => match expect_token(ts, pos + e.used, end) {
                    Err(e) => Err(e),
                    Ok(_) => Ok(
                        ParsedClause { node: Some(Box::new(e.node)), used: e.used + 1, vars: e.vars },
                    ),
                },
            }
        }
        }),
{
    reveal(parse_clause);
    reveal(parse_expr);
}

/// The defining equation of [`parse_if`].
pub proof fn lemma_parse_if(ts: Seq<Token>, pos: int, vars: Seq<Local>)
    ensures
        parse_if(ts, pos, vars) == ({
        match expect_token(ts, pos + 1, Token::LeftParen) {
            Err(e) => Err(e),
            Ok(_) => match parse_expr(ts, pos + 2, vars) {
                Err(e) => Err(e),
                Ok(c) => match expect_token(ts, pos + 2 + c.used, Token::RightParen) {
                    Err(e) => Err(e),
                    Ok(_) => match parse_stmt(ts, pos + 3 + c.used, c.vars) {
                        Err(e) => Err(e),
                        Ok(t) => if token_at(ts, pos + 3 + c.used + t.used) == Some(Token::Else) {
                            match parse_stmt(ts, pos + 4 + c.used + t.used, t.vars) {
                                Err(e) => Err(e),
                                Ok(f) => Ok(
                                    Parsed {
                                        node: Node::If(
                                            Box::new(c.node),
                                            Box::new(t.node),
                                            Some(Box::new(f.node)),
                                        ),
                                        used: 4 + c.used + t.used + f.used,
                                        vars: f.vars,
                                    },
                                ),
                            }
                        } else {
                            Ok(
                                Parsed {
                                    node: Node::If(Box::new(c.node), Box::new(t.node), None),
                                    used: 3 + c.used + t.used,
                                    vars: t.vars,
                                },
                            )
                        },
                    },
                },
            },
        }
        }),
{
    reveal(parse_expr);
    reveal(parse_if);
    reveal(parse_stmt);
}

/// The defining equation of [`parse_for`].
pub proof fn lemma_parse_for(ts: Seq<Token>, pos: int, vars: Seq<Local>)
    ensures
        parse_for(ts, pos, vars) == ({
        match expect_token(ts, pos + 1, Token::LeftParen) {
            Err(e) => Err(e),
            Ok(_) => match parse_clause(ts, pos + 2, vars, Token::Semicolon) {
                Err(e) => Err(e),
                Ok(init) => match parse_clause(ts, pos + 2 + init.used, init.vars, Token::Semicolon) {
                    Err(e) => Err(e),
                    Ok(cond) => match parse_clause(
                        ts,
                        pos + 2 + init.used + cond.used,
                        cond.vars,
                        Token::RightParen,
                    ) {
                        Err(e) => Err(e),
                        Ok(inc) => match parse_stmt(
                            ts,
                            pos + 2 + init.used + cond.used + inc.used,
                            inc.vars,
                        ) {
                            Err(e) => Err(e),
                            Ok(body) => Ok(
                                Parsed {
                                    node: Node::For(init.node, cond.node, inc.node, Box::new(body.node)),
                                    used: 2 + init.used + cond.used + inc.used + body.used,
                                    vars: body.vars,
                                },
                            ),
                        },
                    },
                },
            },
        }
        }),
{
    reveal(parse_clause);
    reveal(parse_for);
    reveal(parse_stmt);
}

/// The defining equation of [`parse_while`].
pub proof fn lemma_parse_while(ts: Seq<Token>, pos: int, vars: Seq<Local>)
    ensures
        parse_while(ts, pos, vars) == ({
        match expect_token(ts, pos + 1, Token::LeftParen) {
            Err(e) => Err(e),
            Ok(_) => match parse_expr(ts, pos + 2, vars) {
                Err(e) => Err(e),
                Ok(c) => match expect_token(ts, pos + 2 + c.used, Token::RightParen) {
                    Err(e) => Err(e),
                    Ok(_) => match parse_stmt(ts, pos + 3 + c.used, c.vars) {
                        Err(e) => Err(e),
                        Ok(body) => Ok(
                            Parsed {
                                node: Node::While(Box::new(c.node), Box::new(body.node)),
                                used: 3 + c.used + body.used,
                                vars: body.vars,
                            },
                        ),
                    },
                },
            },
        }
        }),
{
    reveal(parse_expr);
    reveal(parse_stmt);
    reveal(parse_while);
}

/// The defining equation of [`parse_return`].
pub proof fn lemma_parse_return(ts: Seq<Token>, pos: int, vars: Seq<Local>)
    ensures
        parse_return(ts, pos, vars) == ({
        match parse_expr(ts, pos + 1, vars) {
            Err(e) => Err(e),
            Ok(e) => match expect_token(ts, pos + 1 + e.used, Token::Semicolon) {
                Err(e) => Err(e),
                Ok(_) => Ok(
                    Parsed { node: Node::Return(Box::new(e.node)), used: e.used + 2, vars: e.vars },
                ),
            },
        }
        }),
{
    reveal(parse_expr);
    reveal(parse_return);
}

/// The defining equation of [`parse_stmt`].
pub proof fn lemma_parse_stmt(ts: Seq<Token>, pos: int, vars: Seq<Local>)
    ensures
        parse_stmt(ts, pos, vars) == ({
        match token_at(ts, pos) {
            Some(Token::If) => parse_if(ts, pos, vars),
            Some(Token::For) => parse_for(ts, pos, vars),
            Some(Token::While) => parse_while(ts, pos, vars),
            Some(Token::Return) => parse_return(ts, pos, vars),
            Some(Token::LeftBrace) => block_of(
                parse_stmts_rest(ts, pos, ParsedList { nodes: Seq::empty(), used: 1, vars }),
            ),
            _ => parse_expr_stmt(ts, pos, vars),
        }
        }),
{
    reveal(parse_expr_stmt);
    reveal(parse_for);
    reveal(parse_if);
    reveal(parse_return);
    reveal(parse_stmt);
    reveal(parse_stmts_rest);
    reveal(parse_while);
}

/// The defining equation of [`parse_stmts_rest`].
pub proof fn lemma_parse_stmts_rest(ts: Seq<Token>, pos: int, acc: ParsedList)
    ensures
        parse_stmts_rest(ts, pos, acc) == ({
        if token_at(ts, pos + acc.used) == Some(Token::RightBrace) {
            Ok(ParsedList { nodes: acc.nodes, used: acc.used + 1, vars: acc.vars })
        } else {
            match parse_stmt(ts, pos + acc.used, acc.vars) {
                Err(e) => Err(e),
                Ok(s) => {
                    let list = ParsedList {
                        nodes: acc.nodes.push(s.node),
                        used: acc.used + s.used,
                        vars: s.vars,
                    };
                    if s.used > 0 && pos + acc.used < ts.len() {
                        parse_stmts_rest(ts, pos, list)
                    } else {
                        Ok(list)
                    }
                },
            }
        }
        }),
{
    reveal(parse_stmt);
    reveal(parse_stmts_rest);
}

/// The defining equation of [`parse_params_rest`].
pub proof fn lemma_parse_params_rest(ts: Seq<Token>, pos: int, acc: ParsedList)
    ensures
        parse_params_rest(ts, pos, acc) == ({
        match token_at(ts, pos + acc.used) {
            Some(Token::Ident(name)) => if find(acc.vars, name) is Some {
                Err(error_at(pos + acc.used, ParseErrorKind::DuplicateParameter))
            } else {
                match variable(acc.vars, name, pos + acc.used) {
                    Err(e) => Err(e),
                    Ok((offset, vars)) => {
                        let nodes = acc.nodes.push(Node::LVar(offset));
                        if token_at(ts, pos + acc.used + 1) == Some(Token::Comma) {
                            parse_params_rest(ts, pos, ParsedList { nodes, used: acc.used + 2, vars })
                        } else {
                            match expect_token(ts, pos + acc.used + 1, Token::RightParen) {
                                Err(e) => Err(e),
                                Ok(_) => Ok(ParsedList { nodes, used: acc.used + 2, vars }),
                            }
                        }
                    },
                }
            },
            _ => Err(error_at(pos + acc.used, ParseErrorKind::ExpectedParameter)),
        }
        }),
{
    reveal(parse_params_rest);
}

/// The defining equation of [`parse_params`].
pub proof fn lemma_parse_params(ts: Seq<Token>, pos: int)
    ensures
        parse_params(ts, pos) == ({
        if token_at(ts, pos) == Some(Token::RightParen) {
            Ok(ParsedList { nodes: Seq::empty(), used: 1, vars: Seq::empty() })
        } else {
            parse_params_rest(ts, pos, ParsedList { nodes: Seq::empty(), used: 0, vars: Seq::empty() })
        }
        }),
{
    reveal(parse_params);
    reveal(parse_params_rest);
}

/// The defining equation of [`parse_toplevel`].
pub proof fn lemma_parse_toplevel(ts: Seq<Token>, pos: int)
    ensures
        parse_toplevel(ts, pos) == ({
        match token_at(ts, pos) {
            Some(Token::Ident(name)) => match expect_token(ts, pos + 1, Token::LeftParen) {
                Err(e) => Err(e),
                Ok(_) => match parse_params(ts, pos + 2) {
                    Err(e) => Err(e),
                    Ok(params) => match expect_token(ts, pos + 2 + params.used, Token::LeftBrace) {
                        Err(e) => Err(e),
                        Ok(_) => match parse_stmts_rest(
                            ts,
                            pos + 2 + params.used,
                            ParsedList { nodes: Seq::empty(), used: 1, vars: params.vars },
                        ) {
                            Err(e) => Err(e),
                            Ok(body) => Ok(
                                Parsed {
                                    node: Node::Func(
                                        name,
                                        params.nodes,
                                        Box::new(Node::CompStmt(body.nodes)),
                                        FRAME_SIZE as nat,
                                    ),
                                    used: 2 + params.used + body.used,
                                    vars: body.vars,
                                },
                            ),
                        },
                    },
                },
            },
            _ => Err(error_at(pos, ParseErrorKind::ExpectedFunctionName)),
        }
        }),
{
    reveal(parse_params);
    reveal(parse_stmts_rest);
    reveal(parse_toplevel);
}

/// The defining equation of [`parse_program_rest`].
pub proof fn lemma_parse_program_rest(ts: Seq<Token>, pos: int, acc: Seq<Node>)
    ensures
        parse_program_rest(ts, pos, acc) == ({
        if pos < 0 || pos >= ts.len() {
            Ok(acc)
        } else {
            match parse_toplevel(ts, pos) {
                Err(e) => Err(e),
                Ok(f) => if f.used > 0 {
                    parse_program_rest(ts, pos + f.used, acc.push(f.node))
                } else {
                    Ok(acc.push(f.node))
                },
            }
        }
        }),
{
    reveal(parse_program_rest);
    reveal(parse_toplevel);
}

/// A parser at work: the tokens, the index of the next token to read, and
/// the table of the local variables of the function being read.
pub struct Parser<'a> {
    tokens: &'a Vec<TokenType>,
    pos: usize,
    locals: &'a mut Vec<LVar>,
}

impl<'a> Parser<'a> {
    /// The tokens that the parser reads.
    #[verifier::opaque]
    pub closed spec fn tokens(&self) -> Seq<Token> {
        tokens_view(self.tokens@)
    }

    /// The index of the next token to read.
    #[verifier::opaque]
    pub closed spec fn position(&self) -> int {
        self.pos as int
    }

    /// The table of local variables.
    #[verifier::opaque]
    pub closed spec fn table(&self) -> Seq<Local> {
        locals_view(self.locals@)
    }

    /// The parser stands inside its input.
    #[verifier::opaque]
    pub closed spec fn wf(&self) -> bool {
        self.pos <= self.tokens@.len()
    }

    /// The number of tokens that are left to read.
    pub open spec fn remaining(&self) -> nat {
        left(self.tokens().len(), self.position())
    }

    /// Whether this parser is what `before` becomes by a production whose
    /// outcome on the state of `before` is `expected`, and `r` what the
    /// production returns: on success the tree, with the parser moved on by
    /// the tokens taken and holding the new table; else the error.
    pub open spec fn took(
        &self,
        before: &Self,
        r: Result<NodeType, ParseError>,
        expected: Result<Parsed, ParseError>,
    ) -> bool {
        &&& self.wf()
        &&& self.tokens() == before.tokens()
        &&& match expected {
            Ok(p) => {
                &&& r is Ok
                &&& r->Ok_0@ == p.node
                &&& p.used >= 1
                &&& self.position() == before.position() + p.used
                &&& self.table() == p.vars
            },
            Err(e) => r == Err::<NodeType, ParseError>(e),
        }
    }

    /// A parser that stands inside its input has a position between zero
    /// and the number of tokens.
    pub proof fn lemma_wf(&self)
        requires
            self.wf(),
        ensures
            0 <= self.position() <= self.tokens().len(),
    {
        reveal(Parser::wf);
        reveal(Parser::position);
        reveal(Parser::tokens);
    }

    /// A parser at the start of `tokens`, with the table `locals`.
    pub fn new(tokens: &'a Vec<TokenType>, locals: &'a mut Vec<LVar>) -> (p: Self)
        ensures
            p.wf(),
            p.tokens() == tokens_view(tokens@),
            p.position() == 0,
            p.table() == locals_view(old(locals)@),
    {
        reveal(Parser::wf);
        reveal(Parser::position);
        reveal(Parser::tokens);
        reveal(Parser::table);
        Parser { tokens, pos: 0, locals }
    }

    /// The first variable of the table with the name that the token `ty`
    /// holds; none if `ty` is no identifier.
    pub fn find_lvar(&self, ty: &TokenType) -> (r: Option<&LVar>)
        ensures
            match ty@ {
                Token::Ident(name) => match find(self.table(), name) {
                    Some(i) => r is Some && r->Some_0@ == self.table()[i],
                    None => r is None,
                },
                _ => r is None,
            },
    {
        reveal(Parser::table);
        let ident = match ty {
            TokenType::Ident(name) => name,
            _ => {
                return None;
            },
        };
        let mut i: usize = 0;
        while i < self.locals.len()
            invariant
                i <= self.locals.len(),
                ty@ == Token::Ident(ident@),
                self.table() == locals_view(self.locals@),
                find(self.table(), ident@) == find_from(self.table(), ident@, i as int),
            decreases self.locals.len() - i,
        {
            assert(self.table()[i as int] == self.locals@[i as int]@);
            if self.locals[i].name == *ident {
                return Some(&self.locals[i]);
            }
            i += 1;
        }
        None
    }

    /// The next token, if there is one.
    fn current(&self) -> (r: Option<&'a TokenType>)
        requires
            self.wf(),
        ensures
            match token_at(self.tokens(), self.position()) {
                Some(t) => r is Some && r->Some_0@ == t,
                None => r is None,
            },
    {
        reveal(Parser::wf);
        reveal(Parser::position);
        reveal(Parser::tokens);
        if self.pos < self.tokens.len() {
            let tokens: &'a Vec<TokenType> = self.tokens;
            Some(&tokens[self.pos])
        } else {
            None
        }
    }

    /// Steps over the next token.
    fn bump(&mut self)
        requires
            old(self).wf(),
            old(self).position() < old(self).tokens().len(),
        ensures
            final(self).wf(),
            final(self).tokens() == old(self).tokens(),
            final(self).table() == old(self).table(),
            final(self).position() == old(self).position() + 1,
    {
        reveal(Parser::wf);
        reveal(Parser::position);
        reveal(Parser::tokens);
        reveal(Parser::table);
        let len = self.tokens.len();
        assert(self.pos < len);
        self.pos += 1;
    }

    /// Whether every token was read.
    pub fn at_end(&self) -> (r: bool)
        requires
            self.wf(),
        ensures
            r == (self.position() >= self.tokens().len()),
    {
        reveal(Parser::wf);
        reveal(Parser::position);
        reveal(Parser::tokens);
        self.pos >= self.tokens.len()
    }

    /// The index of the next token, for an error that is found there.
    fn place(&self) -> (r: usize)
        ensures
            r == self.position(),
    {
        reveal(Parser::position);
        self.pos
    }

    /// Takes the next token if it is `ty`, and fails otherwise.
    pub fn expect(&mut self, ty: TokenType) -> (r: Result<(), ParseError>)
        requires
            old(self).wf(),
        ensures
            final(self).wf(),
            final(self).tokens() == old(self).tokens(),
            final(self).table() == old(self).table(),
            r == expect_token(old(self).tokens(), old(self).position(), ty@),
            r is Ok ==> final(self).position() == old(self).position() + 1,
            r is Err ==> final(self).position() == old(self).position(),
    {
        reveal(Parser::wf);
        reveal(Parser::position);
        reveal(Parser::tokens);
        reveal(Parser::table);
        if self.pos < self.tokens.len() {
            if self.tokens[self.pos] == ty {
                self.pos += 1;
                return Ok(());
            }
        }
        let kind = match ty {
            TokenType::LeftParen => ParseErrorKind::ExpectedLeftParen,
            TokenType::RightParen => ParseErrorKind::ExpectedRightParen,
            TokenType::LeftBrace => ParseErrorKind::ExpectedLeftBrace,
            TokenType::Semicolon => ParseErrorKind::ExpectedSemicolon,
            _ => ParseErrorKind::UnexpectedToken,
        };
        Err(ParseError { pos: self.pos, kind })
    }

    /// Takes the next token if it is `ty`, and says whether it did.
    pub fn consume(&mut self, ty: TokenType) -> (r: bool)
        requires
            old(self).wf(),
        ensures
            final(self).wf(),
            final(self).tokens() == old(self).tokens(),
            final(self).table() == old(self).table(),
            r == (token_at(old(self).tokens(), old(self).position()) == Some(ty@)),
            final(self).position() == old(self).position() + if r {
                1int
            } else {
                0int
            },
    {
        reveal(Parser::wf);
        reveal(Parser::position);
        reveal(Parser::tokens);
        reveal(Parser::table);
        if self.pos < self.tokens.len() {
            if self.tokens[self.pos] == ty {
                self.pos += 1;
                return true;
            }
        }
        false
    }

    /// Whether the token `ahead` places after the next one is `ty`.
    fn peek(&self, ahead: usize, ty: &TokenType) -> (r: bool)
        requires
            self.wf(),
        ensures
            r == (token_at(self.tokens(), self.position() + ahead) == Some(ty@)),
    {
        reveal(Parser::wf);
        reveal(Parser::position);
        reveal(Parser::tokens);
        if ahead < self.tokens.len() - self.pos {
            self.tokens[self.pos + ahead] == *ty
        } else {
            false
        }
    }

    /// The offset of the variable `name`, which the token at the parser's
    /// position refers to or declares; a new name enters the table.
    fn variable(&mut self, name: &String) -> (r: Result<i32, ParseError>)
        requires
            old(self).wf(),
        ensures
            final(self).wf(),
            final(self).tokens() == old(self).tokens(),
            final(self).position() == old(self).position(),
            match variable(old(self).table(), name@, old(self).position()) {
                Ok((offset, vars)) => r == Ok::<i32, ParseError>(offset as i32) && offset
                    == offset as i32 && final(self).table() == vars,
                Err(e) => r == Err::<i32, ParseError>(e),
            },
    {
        reveal(Parser::wf);
        reveal(Parser::position);
        reveal(Parser::tokens);
        reveal(Parser::table);
        let mut i: usize = 0;
        while i < self.locals.len()
            invariant
                self.wf(),
                self.locals == old(self).locals,
                self.pos == old(self).pos,
                self.tokens == old(self).tokens,
                i <= self.locals.len(),
                self.table() == locals_view(self.locals@),
                find(self.table(), name@) == find_from(self.table(), name@, i as int),
            decreases self.locals.len() - i,
        {
            assert(self.table()[i as int] == self.locals@[i as int]@);
            if self.locals[i].name == *name {
                return Ok(self.locals[i].offset);
            }
            i += 1;
        }
        if self.locals.len() >= MAX_LOCALS {
            return Err(ParseError { pos: self.pos, kind: ParseErrorKind::TooManyLocals });
        }
        let offset: i32 = 8 * (self.locals.len() as i32 + 1);
        let bytes: usize = name.as_str().len();
        let len: i32 = #[verifier::truncate]
        (bytes as i32);
        let var = LVar { name: name.clone(), len, offset };
        proof {
            assert(var@ == new_local(self.table(), name@));
            assert(locals_view(self.locals@.push(var)) =~= locals_view(self.locals@).push(var@));
        }
        self.locals.push(var);
        Ok(offset)
    }

    /// Empties the table of local variables.
    fn forget_locals(&mut self)
        requires
            old(self).wf(),
        ensures
            final(self).wf(),
            final(self).tokens() == old(self).tokens(),
            final(self).position() == old(self).position(),
            final(self).table() == Seq::<Local>::empty(),
    {
        reveal(Parser::wf);
        reveal(Parser::position);
        reveal(Parser::tokens);
        reveal(Parser::table);
        self.locals.clear();
        assert(locals_view(self.locals@) =~= Seq::<Local>::empty());
    }
}

impl<'a> Parser<'a> {
    /// Reads the production [`parse_primary`].
    pub fn primary(&mut self) -> (r: Result<NodeType, ParseError>)
        requires
            old(self).wf(),
        ensures
            final(self).took(
                old(self),
                r,
                parse_primary(old(self).tokens(), old(self).position(), old(self).table()),
            ),
        decreases old(self).remaining(), 0nat,
    {
        proof {
            self.lemma_wf();
            lemma_parse_primary(self.tokens(), self.position(), self.table());
        }
        let token = match self.current() {
            Some(token) => token,
            None => {
                return Err(
                    ParseError { pos: self.place(), kind: ParseErrorKind::ExpectedPrimary },
                );
            },
        };
        match token {
            TokenType::Num(val) => {
                self.bump();
                Ok(NodeType::Num(*val))
            },
            TokenType::Ident(ident) => {
                if !self.peek(1, &TokenType::LeftParen) {
                    match self.variable(ident) {
                        Ok(offset) => {
                            self.bump();
                            Ok(NodeType::LVar(offset))
                        },
                        Err(e) => Err(e),
                    }
                } else {
                    self.bump();
                    self.bump();
                    let mut args: Vec<NodeType> = Vec::new();
                    if self.consume(TokenType::RightParen) {
                        assert(nodes_view(args@) =~= Seq::<Node>::empty());
                        return Ok(NodeType::Call(ident.clone(), args));
                    }
                    match self.primary() {
                        Ok(arg) => {
                            args.push(arg);
                            assert(nodes_view(args@) =~= seq![arg@]);
                        },
                        Err(e) => {
                            return Err(e);
                        },
                    }
                    loop
                        invariant
                            self.wf(),
                            self.tokens() == old(self).tokens(),
                            self.position() > old(self).position(),
                            old(self).position() >= 0,
                            parse_primary(
                                old(self).tokens(),
                                old(self).position(),
                                old(self).table(),
                            ) == call_of(
                                ident@,
                                parse_args_rest(
                                    self.tokens(),
                                    old(self).position(),
                                    ParsedList {
                                        nodes: nodes_view(args@),
                                        used: (self.position() - old(self).position()) as nat,
                                        vars: self.table(),
                                    },
                                ),
                            ),
                        decreases self.remaining(),
                    {
                        proof {
                            self.lemma_wf();
                            lemma_parse_args_rest(
                                self.tokens(),
                                old(self).position(),
                                ParsedList {
                                    nodes: nodes_view(args@),
                                    used: (self.position() - old(self).position()) as nat,
                                    vars: self.table(),
                                },
                            );
                        }
                        if self.consume(TokenType::Comma) {
                            match self.primary() {
                                Ok(arg) => {
                                    assert(nodes_view(args@.push(arg)) =~= nodes_view(args@).push(
                                        arg@,
                                    ));
                                    args.push(arg);
                                },
                                Err(e) => {
                                    return Err(e);
                                },
                            }
                        } else {
                            match self.expect(TokenType::RightParen) {
                                Ok(()) => {
                                    return Ok(NodeType::Call(ident.clone(), args));
                                },
                                Err(e) => {
                                    return Err(e);
                                },
                            }
                        }
                    }
                }
            },
            TokenType::LeftParen => {
                self.bump();
                match self.expr() {
                    Ok(node) => match self.expect(TokenType::RightParen) {
                        Ok(()) => Ok(node),
                        Err(e) => Err(e),
                    },
                    Err(e) => Err(e),
                }
            },
            _ => Err(ParseError { pos: self.place(), kind: ParseErrorKind::ExpectedPrimary }),
        }
    }

    /// Reads the production [`parse_unary`].
    pub fn unary(&mut self) -> (r: Result<NodeType, ParseError>)
        requires
            old(self).wf(),
        ensures
            final(self).took(
                old(self),
                r,
                parse_unary(old(self).tokens(), old(self).position(), old(self).table()),
            ),
        decreases old(self).remaining(), 1nat,
    {
        proof {
            self.lemma_wf();
            lemma_parse_unary(self.tokens(), self.position(), self.table());
        }
        if self.consume(TokenType::Minus) {
            match self.primary() {
                Ok(node) => Ok(NodeType::Negative(Box::new(node))),
                Err(e) => Err(e),
            }
        } else if self.consume(TokenType::Plus) {
            self.primary()
        } else {
            self.primary()
        }
    }

    /// Reads the production [`parse_mul`].
    pub fn mul(&mut self) -> (r: Result<NodeType, ParseError>)
        requires
            old(self).wf(),
        ensures
            final(self).took(
                old(self),
                r,
                parse_mul(old(self).tokens(), old(self).position(), old(self).table()),
            ),
        decreases old(self).remaining(), 3nat,
    {
        proof {
            self.lemma_wf();
            lemma_parse_mul(self.tokens(), self.position(), self.table());
        }
        let mut node = match self.unary() {
            Ok(node) => node,
            Err(e) => {
                return Err(e);
            },
        };
        loop
            invariant
                self.wf(),
                self.tokens() == old(self).tokens(),
                self.position() > old(self).position(),
                old(self).position() >= 0,
                parse_mul(old(self).tokens(), old(self).position(), old(self).table()) == parse_mul_rest(
                    self.tokens(),
                    old(self).position(),
                    Parsed {
                        node: node@,
                        used: (self.position() - old(self).position()) as nat,
                        vars: self.table(),
                    },
                ),
            decreases self.remaining(),
        {
            proof {
                self.lemma_wf();
                lemma_parse_mul_rest(
                    self.tokens(),
                    old(self).position(),
                    Parsed {
                        node: node@,
                        used: (self.position() - old(self).position()) as nat,
                        vars: self.table(),
                    },
                );
            }
            if self.consume(TokenType::Mul) {
                let rhs = match self.unary() {
                    Ok(rhs) => rhs,
                    Err(e) => {
                        return Err(e);
                    },
                };
                node = NodeType::Mul(Box::new(node), Box::new(rhs));
            } else if self.consume(TokenType::Div) {
                let rhs = match self.unary() {
                    Ok(rhs) => rhs,
                    Err(e) => {
                        return Err(e);
                    },
                };
                node = NodeType::Div(Box::new(node), Box::new(rhs));
            } else {
                return Ok(node);
            }
        }
    }

    /// Reads the production [`parse_add`].
    pub fn add(&mut self) -> (r: Result<NodeType, ParseError>)
        requires
            old(self).wf(),
        ensures
            final(self).took(
                old(self),
                r,
                parse_add(old(self).tokens(), old(self).position(), old(self).table()),
            ),
        decreases old(self).remaining(), 5nat,
    {
        proof {
            self.lemma_wf();
            lemma_parse_add(self.tokens(), self.position(), self.table());
        }
        let mut node = match self.mul() {
            Ok(node) => node,
            Err(e) => {
                return Err(e);
            },
        };
        loop
            invariant
                self.wf(),
                self.tokens() == old(self).tokens(),
                self.position() > old(self).position(),
                old(self).position() >= 0,
                parse_add(old(self).tokens(), old(self).position(), old(self).table()) == parse_add_rest(
                    self.tokens(),
                    old(self).position(),
                    Parsed {
                        node: node@,
                        used: (self.position() - old(self).position()) as nat,
                        vars: self.table(),
                    },
                ),
            decreases self.remaining(),
        {
            proof {
                self.lemma_wf();
                lemma_parse_add_rest(
                    self.tokens(),
                    old(self).position(),
                    Parsed {
                        node: node@,
                        used: (self.position() - old(self).position()) as nat,
                        vars: self.table(),
                    },
                );
            }
            if self.consume(TokenType::Plus) {
                let rhs = match self.mul() {
                    Ok(rhs) => rhs,
                    Err(e) => {
                        return Err(e);
                    },
                };
                node = NodeType::Plus(Box::new(node), Box::new(rhs));
            } else if self.consume(TokenType::Minus) {
                let rhs = match self.mul() {
                    Ok(rhs) => rhs,
                    Err(e) => {
                        return Err(e);
                    },
                };
                node = NodeType::Minus(Box::new(node), Box::new(rhs));
            } else {
                return Ok(node);
            }
        }
    }

    /// Reads the production [`parse_relational`].
    pub fn relational(&mut self) -> (r: Result<NodeType, ParseError>)
        requires
            old(self).wf(),
        ensures
            final(self).took(
                old(self),
                r,
                parse_relational(old(self).tokens(), old(self).position(), old(self).table()),
            ),
        decreases old(self).remaining(), 7nat,
    {
        proof {
            self.lemma_wf();
            lemma_parse_relational(self.tokens(), self.position(), self.table());
        }
        let mut node = match self.add() {
            Ok(node) => node,
            Err(e) => {
                return Err(e);
            },
        };
        loop
            invariant
                self.wf(),
                self.tokens() == old(self).tokens(),
                self.position() > old(self).position(),
                old(self).position() >= 0,
                parse_relational(old(self).tokens(), old(self).position(), old(self).table()) == parse_relational_rest(
                    self.tokens(),
                    old(self).position(),
                    Parsed {
                        node: node@,
                        used: (self.position() - old(self).position()) as nat,
                        vars: self.table(),
                    },
                ),
            decreases self.remaining(),
        {
            proof {
                self.lemma_wf();
                lemma_parse_relational_rest(
                    self.tokens(),
                    old(self).position(),
                    Parsed {
                        node: node@,
                        used: (self.position() - old(self).position()) as nat,
                        vars: self.table(),
                    },
                );
            }
            if self.consume(TokenType::Lt) {
                let rhs = match self.add() {
                    Ok(rhs) => rhs,
                    Err(e) => {
                        return Err(e);
                    },
                };
                node = NodeType::Lt(Box::new(node), Box::new(rhs));
            } else if self.consume(TokenType::Le) {
                let rhs = match self.add() {
                    Ok(rhs) => rhs,
                    Err(e) => {
                        return Err(e);
                    },
                };
                node = NodeType::Le(Box::new(node), Box::new(rhs));
            } else if self.consume(TokenType::Gt) {
                let rhs = match self.add() {
                    Ok(rhs) => rhs,
                    Err(e) => {
                        return Err(e);
                    },
                };
                node = NodeType::Lt(Box::new(rhs), Box::new(node));
            } else if self.consume(TokenType::Ge) {
                let rhs = match self.add() {
                    Ok(rhs) => rhs,
                    Err(e) => {
                        return Err(e);
                    },
                };
                node = NodeType::Le(Box::new(rhs), Box::new(node));
            } else {
                return Ok(node);
            }
        }
    }

    /// Reads the production [`parse_equality`].
    pub fn equality(&mut self) -> (r: Result<NodeType, ParseError>)
        requires
            old(self).wf(),
        ensures
            final(self).took(
                old(self),
                r,
                parse_equality(old(self).tokens(), old(self).position(), old(self).table()),
            ),
        decreases old(self).remaining(), 9nat,
    {
        proof {
            self.lemma_wf();
            lemma_parse_equality(self.tokens(), self.position(), self.table());
        }
        let mut node = match self.relational() {
            Ok(node) => node,
            Err(e) => {
                return Err(e);
            },
        };
        loop
            invariant
                self.wf(),
                self.tokens() == old(self).tokens(),
                self.position() > old(self).position(),
                old(self).position() >= 0,
                parse_equality(old(self).tokens(), old(self).position(), old(self).table()) == parse_equality_rest(
                    self.tokens(),
                    old(self).position(),
                    Parsed {
                        node: node@,
                        used: (self.position() - old(self).position()) as nat,
                        vars: self.table(),
                    },
                ),
            decreases self.remaining(),
        {
            proof {
                self.lemma_wf();
                lemma_parse_equality_rest(
                    self.tokens(),
                    old(self).position(),
                    Parsed {
                        node: node@,
                        used: (self.position() - old(self).position()) as nat,
                        vars: self.table(),
                    },
                );
            }
            if self.consume(TokenType::Eq) {
                let rhs = match self.relational() {
                    Ok(rhs) => rhs,
                    Err(e) => {
                        return Err(e);
                    },
                };
                node = NodeType::Eq(Box::new(node), Box::new(rhs));
            } else if self.consume(TokenType::Ne) {
                let rhs = match self.relational() {
                    Ok(rhs) => rhs,
                    Err(e) => {
                        return Err(e);
                    },
                };
                node = NodeType::Ne(Box::new(node), Box::new(rhs));
            } else {
                return Ok(node);
            }
        }
    }

    /// Reads the production [`parse_assign`].
    pub fn assign(&mut self) -> (r: Result<NodeType, ParseError>)
        requires
            old(self).wf(),
        ensures
            final(self).took(
                old(self),
                r,
                parse_assign(old(self).tokens(), old(self).position(), old(self).table()),
            ),
        decreases old(self).remaining(), 10nat,
    {
        proof {
            self.lemma_wf();
            lemma_parse_assign(self.tokens(), self.position(), self.table());
        }
        let lhs = match self.equality() {
            Ok(lhs) => lhs,
            Err(e) => {
                return Err(e);
            },
        };
        if self.consume(TokenType::Assign) {
            match self.assign() {
                Ok(rhs) => Ok(NodeType::Assign(Box::new(lhs), Box::new(rhs))),
                Err(e) => Err(e),
            }
        } else {
            Ok(lhs)
        }
    }

    /// Reads the production [`parse_expr`].
    pub fn expr(&mut self) -> (r: Result<NodeType, ParseError>)
        requires
            old(self).wf(),
        ensures
            final(self).took(
                old(self),
                r,
                parse_expr(old(self).tokens(), old(self).position(), old(self).table()),
            ),
        decreases old(self).remaining(), 11nat,
    {
        proof {
            self.lemma_wf();
            lemma_parse_expr(self.tokens(), self.position(), self.table());
        }
        self.assign()
    }

    /// Reads the production [`parse_expr_stmt`].
    pub fn expr_stmt(&mut self) -> (r: Result<NodeType, ParseError>)
        requires
            old(self).wf(),
        ensures
            final(self).took(
                old(self),
                r,
                parse_expr_stmt(old(self).tokens(), old(self).position(), old(self).table()),
            ),
        decreases old(self).remaining(), 12nat,
    {
        proof {
            self.lemma_wf();
            lemma_parse_expr_stmt(self.tokens(), self.position(), self.table());
        }
        let expr = match self.expr() {
            Ok(expr) => expr,
            Err(e) => {
                return Err(e);
            },
        };
        match self.expect(TokenType::Semicolon) {
            Ok(()) => Ok(NodeType::ExprStmt(Box::new(expr))),
            Err(e) => Err(e),
        }
    }

    /// Reads the production [`parse_stmt`].
    pub fn stmt(&mut self) -> (r: Result<NodeType, ParseError>)
        requires
            old(self).wf(),
        ensures
            final(self).took(
                old(self),
                r,
                parse_stmt(old(self).tokens(), old(self).position(), old(self).table()),
            ),
        decreases old(self).remaining(), 13nat,
    {
        proof {
            self.lemma_wf();
            lemma_parse_stmt(self.tokens(), self.position(), self.table());
        }
        proof {
            lemma_parse_if(self.tokens(), self.position(), self.table());
            lemma_parse_for(self.tokens(), self.position(), self.table());
            lemma_parse_while(self.tokens(), self.position(), self.table());
            lemma_parse_return(self.tokens(), self.position(), self.table());
        }
        if self.consume(TokenType::If) {
            match self.expect(TokenType::LeftParen) {
                Ok(()) => {},
                Err(e) => {
                    return Err(e);
                },
            }
            let expr = match self.expr() {
                Ok(expr) => expr,
                Err(e) => {
                    return Err(e);
                },
            };
            match self.expect(TokenType::RightParen) {
                Ok(()) => {},
                Err(e) => {
                    return Err(e);
                },
            }
            let stmt = match self.stmt() {
                Ok(stmt) => stmt,
                Err(e) => {
                    return Err(e);
                },
            };
            if self.consume(TokenType::Else) {
                match self.stmt() {
                    Ok(else_stmt) => Ok(
                        NodeType::If(Box::new(expr), Box::new(stmt), Some(Box::new(else_stmt))),
                    ),
                    Err(e) => Err(e),
                }
            } else {
                Ok(NodeType::If(Box::new(expr), Box::new(stmt), None))
            }
        } else if self.consume(TokenType::For) {
            match self.expect(TokenType::LeftParen) {
                Ok(()) => {},
                Err(e) => {
                    return Err(e);
                },
            }
            let init = match self.clause(TokenType::Semicolon) {
                Ok(init) => init,
                Err(e) => {
                    return Err(e);
                },
            };
            let cond = match self.clause(TokenType::Semicolon) {
                Ok(cond) => cond,
                Err(e) => {
                    return Err(e);
                },
            };
            let inc = match self.clause(TokenType::RightParen) {
                Ok(inc) => inc,
                Err(e) => {
                    return Err(e);
                },
            };
            match self.stmt() {
                Ok(stmt) => Ok(NodeType::For(init, cond, inc, Box::new(stmt))),
                Err(e) => Err(e),
            }
        } else if self.consume(TokenType::While) {
            match self.expect(TokenType::LeftParen) {
                Ok(()) => {},
                Err(e) => {
                    return Err(e);
                },
            }
            let expr = match self.expr() {
                Ok(expr) => expr,
                Err(e) => {
                    return Err(e);
                },
            };
            match self.expect(TokenType::RightParen) {
                Ok(()) => {},
                Err(e) => {
                    return Err(e);
                },
            }
            match self.stmt() {
                Ok(stmt) => Ok(NodeType::While(Box::new(expr), Box::new(stmt))),
                Err(e) => Err(e),
            }
        } else if self.consume(TokenType::Return) {
            let expr = match self.expr() {
                Ok(expr) => expr,
                Err(e) => {
                    return Err(e);
                },
            };
            match self.expect(TokenType::Semicolon) {
                Ok(()) => Ok(NodeType::Return(Box::new(expr))),
                Err(e) => Err(e),
            }
        } else if self.consume(TokenType::LeftBrace) {
            match self.statements() {
                Ok(stmts) => Ok(NodeType::Block(stmts)),
                Err(e) => Err(e),
            }
        } else {
            self.expr_stmt()
        }
    }

    /// Reads a clause of a `for`, [`parse_clause`], that ends with `end`.
    fn clause(&mut self, end: TokenType) -> (r: Result<Option<Box<NodeType>>, ParseError>)
        requires
            old(self).wf(),
        ensures
            final(self).wf(),
            final(self).tokens() == old(self).tokens(),
            match parse_clause(old(self).tokens(), old(self).position(), old(self).table(), end@) {
                Ok(c) => {
                    &&& r is Ok
                    &&& option_view(r->Ok_0) == c.node
                    &&& c.used >= 1
                    &&& final(self).position() == old(self).position() + c.used
                    &&& final(self).table() == c.vars
                },
                Err(e) => r == Err::<Option<Box<NodeType>>, ParseError>(e),
            },
        decreases old(self).remaining(), 12nat,
    {
        proof {
            self.lemma_wf();
            lemma_parse_clause(self.tokens(), self.position(), self.table(), end@);
        }
        if self.peek(0, &end) {
            self.bump();
            return Ok(None);
        }
        let expr = match self.expr() {
            Ok(expr) => expr,
            Err(e) => {
                return Err(e);
            },
        };
        match self.expect(end) {
            Ok(()) => Ok(Some(Box::new(expr))),
            Err(e) => Err(e),
        }
    }

    /// Reads the statements behind a `{` that was just taken, and the `}`
    /// that ends them: [`parse_stmts_rest`] from the brace on.
    fn statements(&mut self) -> (r: Result<Vec<NodeType>, ParseError>)
        requires
            old(self).wf(),
            old(self).position() >= 1,
        ensures
            final(self).wf(),
            final(self).tokens() == old(self).tokens(),
            match parse_stmts_rest(
                old(self).tokens(),
                old(self).position() - 1,
                ParsedList { nodes: Seq::empty(), used: 1, vars: old(self).table() },
            ) {
                Ok(list) => {
                    &&& r is Ok
                    &&& nodes_view(r->Ok_0@) == list.nodes
                    &&& list.used >= 2
                    &&& final(self).position() == old(self).position() - 1 + list.used
                    &&& final(self).table() == list.vars
                },
                Err(e) => r == Err::<Vec<NodeType>, ParseError>(e),
            },
        decreases old(self).remaining(), 14nat,
    {
        let mut stmts: Vec<NodeType> = Vec::new();
        assert(nodes_view(stmts@) =~= Seq::<Node>::empty());
        loop
            invariant
                self.wf(),
                self.tokens() == old(self).tokens(),
                self.position() >= old(self).position() >= 1,
                parse_stmts_rest(
                    old(self).tokens(),
                    old(self).position() - 1,
                    ParsedList { nodes: Seq::empty(), used: 1, vars: old(self).table() },
                ) == parse_stmts_rest(
                    self.tokens(),
                    old(self).position() - 1,
                    ParsedList {
                        nodes: nodes_view(stmts@),
                        used: (self.position() - old(self).position() + 1) as nat,
                        vars: self.table(),
                    },
                ),
            decreases self.remaining(),
        {
            proof {
                self.lemma_wf();
                lemma_parse_stmts_rest(
                    self.tokens(),
                    old(self).position() - 1,
                    ParsedList {
                        nodes: nodes_view(stmts@),
                        used: (self.position() - old(self).position() + 1) as nat,
                        vars: self.table(),
                    },
                );
            }
            if self.consume(TokenType::RightBrace) {
                return Ok(stmts);
            }
            match self.stmt() {
                Ok(stmt) => {
                    proof {
                        self.lemma_wf();
                    }
                    assert(nodes_view(stmts@.push(stmt)) =~= nodes_view(stmts@).push(stmt@));
                    stmts.push(stmt);
                },
                Err(e) => {
                    return Err(e);
                },
            }
        }
    }

    /// Reads the body of a function behind its `{`, which was just taken.
    fn compound_stmt(&mut self) -> (r: Result<NodeType, ParseError>)
        requires
            old(self).wf(),
            old(self).position() >= 1,
        ensures
            final(self).wf(),
            final(self).tokens() == old(self).tokens(),
            match parse_stmts_rest(
                old(self).tokens(),
                old(self).position() - 1,
                ParsedList { nodes: Seq::empty(), used: 1, vars: old(self).table() },
            ) {
                Ok(list) => {
                    &&& r is Ok
                    &&& r->Ok_0@ == Node::CompStmt(list.nodes)
                    &&& list.used >= 2
                    &&& final(self).position() == old(self).position() - 1 + list.used
                    &&& final(self).table() == list.vars
                },
                Err(e) => r == Err::<NodeType, ParseError>(e),
            },
    {
        match self.statements() {
            Ok(stmts) => Ok(NodeType::CompStmt(stmts)),
            Err(e) => Err(e),
        }
    }

    /// Reads the parameters of a function behind its `(`, and the `)` that
    /// ends them: [`parse_params`].
    fn params(&mut self) -> (r: Result<Vec<NodeType>, ParseError>)
        requires
            old(self).wf(),
            old(self).table() == Seq::<Local>::empty(),
        ensures
            final(self).wf(),
            final(self).tokens() == old(self).tokens(),
            match parse_params(old(self).tokens(), old(self).position()) {
                Ok(list) => {
                    &&& r is Ok
                    &&& nodes_view(r->Ok_0@) == list.nodes
                    &&& list.used >= 1
                    &&& final(self).position() == old(self).position() + list.used
                    &&& final(self).table() == list.vars
                },
                Err(e) => r == Err::<Vec<NodeType>, ParseError>(e),
            },
    {
        proof {
            self.lemma_wf();
            lemma_parse_params(self.tokens(), self.position());
        }
        let mut params: Vec<NodeType> = Vec::new();
        assert(nodes_view(params@) =~= Seq::<Node>::empty());
        if self.consume(TokenType::RightParen) {
            return Ok(params);
        }
        loop
            invariant
                self.wf(),
                self.tokens() == old(self).tokens(),
                self.position() >= old(self).position() >= 0,
                parse_params(old(self).tokens(), old(self).position()) == parse_params_rest(
                    self.tokens(),
                    old(self).position(),
                    ParsedList {
                        nodes: nodes_view(params@),
                        used: (self.position() - old(self).position()) as nat,
                        vars: self.table(),
                    },
                ),
            decreases self.remaining(),
        {
            proof {
                self.lemma_wf();
                lemma_parse_params_rest(
                    self.tokens(),
                    old(self).position(),
                    ParsedList {
                        nodes: nodes_view(params@),
                        used: (self.position() - old(self).position()) as nat,
                        vars: self.table(),
                    },
                );
            }
            let token = match self.current() {
                Some(token) => token,
                None => {
                    return Err(
                        ParseError { pos: self.place(), kind: ParseErrorKind::ExpectedParameter },
                    );
                },
            };
            let name = match token {
                TokenType::Ident(name) => name,
                _ => {
                    return Err(
                        ParseError { pos: self.place(), kind: ParseErrorKind::ExpectedParameter },
                    );
                },
            };
            if self.find_lvar(token).is_some() {
                return Err(
                    ParseError { pos: self.place(), kind: ParseErrorKind::DuplicateParameter },
                );
            }
            let offset = match self.variable(name) {
                Ok(offset) => offset,
                Err(e) => {
                    return Err(e);
                },
            };
            self.bump();
            let param = NodeType::LVar(offset);
            assert(nodes_view(params@.push(param)) =~= nodes_view(params@).push(param@));
            params.push(param);
            if !self.consume(TokenType::Comma) {
                match self.expect(TokenType::RightParen) {
                    Ok(()) => {
                        return Ok(params);
                    },
                    Err(e) => {
                        return Err(e);
                    },
                }
            }
        }
    }

    /// Reads one function definition, [`parse_toplevel`], with a table of
    /// local variables of its own.
    pub fn toplevel(&mut self) -> (r: Result<NodeType, ParseError>)
        requires
            old(self).wf(),
        ensures
            final(self).took(
                old(self),
                r,
                parse_toplevel(old(self).tokens(), old(self).position()),
            ),
    {
        proof {
            self.lemma_wf();
            lemma_parse_toplevel(self.tokens(), self.position());
        }
        let name = match self.current() {
            Some(TokenType::Ident(name)) => name.clone(),
            _ => {
                return Err(
                    ParseError { pos: self.place(), kind: ParseErrorKind::ExpectedFunctionName },
                );
            },
        };
        self.bump();
        match self.expect(TokenType::LeftParen) {
            Ok(()) => {},
            Err(e) => {
                return Err(e);
            },
        }
        self.forget_locals();
        let params = match self.params() {
            Ok(params) => params,
            Err(e) => {
                return Err(e);
            },
        };
        match self.expect(TokenType::LeftBrace) {
            Ok(()) => {},
            Err(e) => {
                return Err(e);
            },
        }
        match self.compound_stmt() {
            Ok(body) => Ok(NodeType::Func(name, params, Box::new(body), FRAME_SIZE)),
            Err(e) => Err(e),
        }
    }
}

/// The trees of the functions of the program `tokens`, in order, or the
/// first syntax error. The literals of the trees are numbers that the lexer
/// makes, if the numbers among the tokens are.
pub fn parse(tokens: &Vec<TokenType>) -> (r: Result<Vec<NodeType>, ParseError>)
    ensures
        match parse_program(tokens_view(tokens@)) {
            Ok(nodes) => r is Ok && nodes_view(r->Ok_0@) == nodes,
            Err(e) => r == Err::<Vec<NodeType>, ParseError>(e),
        },
        r is Ok && tokens_in_range(tokens_view(tokens@)) ==> all_in_range(nodes_view(r->Ok_0@)),
{
    let mut locals: Vec<LVar> = Vec::new();
    let mut parser = Parser::new(tokens, &mut locals);
    let mut nodes: Vec<NodeType> = Vec::new();
    assert(nodes_view(nodes@) =~= Seq::<Node>::empty());
    loop
        invariant
            parser.wf(),
            parser.tokens() == tokens_view(tokens@),
            parse_program(tokens_view(tokens@)) == parse_program_rest(
                parser.tokens(),
                parser.position(),
                nodes_view(nodes@),
            ),
        decreases parser.remaining(),
    {
        proof {
            parser.lemma_wf();
            lemma_parse_program_rest(parser.tokens(), parser.position(), nodes_view(nodes@));
        }
        if parser.at_end() {
            proof {
                if tokens_in_range(tokens_view(tokens@)) {
                    crate::progress::lemma_program_in_range(tokens_view(tokens@), 0, Seq::empty());
                }
            }
            return Ok(nodes);
        }
        match parser.toplevel() {
            Ok(node) => {
                proof {
                    parser.lemma_wf();
                }
                assert(nodes_view(nodes@.push(node)) =~= nodes_view(nodes@).push(node@));
                nodes.push(node);
            },
            Err(e) => {
                return Err(e);
            },
        }
    }
}

} // verus!
