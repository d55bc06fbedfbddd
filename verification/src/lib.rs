//! A small compiler for a C-like language of integer expressions, local
//! variables and conditionals.
//!
//! Source text is turned into tokens ([`token`]), tokens into one syntax tree
//! per function ([`parse`]), each tree into a linear list of instructions over
//! virtual registers ([`gen_ir`]), and the instructions into assembly text
//! ([`gen_x86`]). [`compile`] chains the four stages.
//!
//! Every stage is a total function: an input that cannot be handled is
//! answered with an error value, and each contract says exactly which.
//!
//! What holds of the stages together is proved in modules of their own:
//! - [`progress`]: every production of the grammar takes tokens, and the
//!   table of local variables only grows, in the order of first reference;
//! - [`comparison`]: `>` and `>=` are read and lowered as `<` and `<=` with
//!   the operands the other way round;
//! - [`labels`]: every jump goes forward to a label that has one place, and
//!   every label is where a jump goes to;
//! - [`machine`]: the instructions of a function compute what the function
//!   says;
//! - [`capacity`]: a function within the register budget has a routine;
//! - [`routine`]: a routine has one end label and one epilogue, and one
//!   jump to the end label for every `Return`.

use vstd::prelude::*;
use vstd::std_specs::cmp::PartialEqSpecImpl;

pub mod token;
pub mod parse;
pub mod progress;
pub mod gen_ir;
pub mod labels;
pub mod comparison;
pub mod machine;
pub mod gen_x86;
pub mod capacity;
pub mod routine;
pub mod compile;

verus! {

/// One lexical unit of the source text.
#[derive(Debug, Clone)]
pub enum TokenType {
    /// A decimal literal.
    Num(i32),
    /// An identifier that is not a keyword.
    Ident(String),
    /// `return`
    Return,
    /// `+`
    Plus,
    /// `-`
    Minus,
    /// `*`
    Mul,
    /// `/`
    Div,
    /// `if`
    If,
    /// `else`
    Else,
    /// `while`
    While,
    /// `for`
    For,
    /// `==`
    Eq,
    /// `!=`
    Ne,
    /// `<=`
    Le,
    /// `>=`
    Ge,
    /// `<`
    Lt,
    /// `>`
    Gt,
    /// `=`
    Assign,
    /// `;`
    Semicolon,
    /// `,`
    Comma,
    /// `(`
    LeftParen,
    /// `)`
    RightParen,
    /// `{`
    LeftBrace,
    /// `}`
    RightBrace,
    /// A line break.
    NewLine,
}

/// The mathematical value of a [`TokenType`]: the same variants, with the
/// identifier's text as a sequence of characters.
pub ghost enum Token {
    Num(int),
    Ident(Seq<char>),
    Return,
    Plus,
    Minus,
    Mul,
    Div,
    If,
    Else,
    While,
    For,
    Eq,
    Ne,
    Le,
    Ge,
    Lt,
    Gt,
    Assign,
    Semicolon,
    Comma,
    LeftParen,
    RightParen,
    LeftBrace,
    RightBrace,
    NewLine,
}

impl View for TokenType {
    type V = Token;

    open spec fn view(&self) -> Token {
        match self {
            TokenType::Num(v) => Token::Num(*v as int),
            TokenType::Ident(name) => Token::Ident(name@),
            TokenType::Return => Token::Return,
            TokenType::Plus => Token::Plus,
            TokenType::Minus => Token::Minus,
            TokenType::Mul => Token::Mul,
            TokenType::Div => Token::Div,
            TokenType::If => Token::If,
            TokenType::Else => Token::Else,
            TokenType::While => Token::While,
            TokenType::For => Token::For,
            TokenType::Eq => Token::Eq,
            TokenType::Ne => Token::Ne,
            TokenType::Le => Token::Le,
            TokenType::Ge => Token::Ge,
            TokenType::Lt => Token::Lt,
            TokenType::Gt => Token::Gt,
            TokenType::Assign => Token::Assign,
            TokenType::Semicolon => Token::Semicolon,
            TokenType::Comma => Token::Comma,
            TokenType::LeftParen => Token::LeftParen,
            TokenType::RightParen => Token::RightParen,
            TokenType::LeftBrace => Token::LeftBrace,
            TokenType::RightBrace => Token::RightBrace,
            TokenType::NewLine => Token::NewLine,
        }
    }
}

/// The values of a sequence of tokens, one by one.
pub open spec fn tokens_view(tokens: Seq<TokenType>) -> Seq<Token> {
    tokens.map_values(|t: TokenType| t@)
}

/// Whether every number among the tokens `ts` is one that the lexer makes:
/// not negative, and not above `i32::MAX`.
pub open spec fn tokens_in_range(ts: Seq<Token>) -> bool {
    forall|i: int|
        0 <= i < ts.len() ==> ((#[trigger] ts[i]) matches Token::Num(v) ==> 0 <= v <= i32::MAX)
}

impl PartialEq for TokenType {
    /// Two tokens are equal when they have the same value.
    fn eq(&self, other: &TokenType) -> (r: bool) {
        match (self, other) {
            (TokenType::Num(a), TokenType::Num(b)) => *a == *b,
            (TokenType::Ident(a), TokenType::Ident(b)) => *a == *b,
            (TokenType::Return, TokenType::Return) => true,
            (TokenType::Plus, TokenType::Plus) => true,
            (TokenType::Minus, TokenType::Minus) => true,
            (TokenType::Mul, TokenType::Mul) => true,
            (TokenType::Div, TokenType::Div) => true,
            (TokenType::If, TokenType::If) => true,
            (TokenType::Else, TokenType::Else) => true,
            (TokenType::While, TokenType::While) => true,
            (TokenType::For, TokenType::For) => true,
            (TokenType::Eq, TokenType::Eq) => true,
            (TokenType::Ne, TokenType::Ne) => true,
            (TokenType::Le, TokenType::Le) => true,
            (TokenType::Ge, TokenType::Ge) => true,
            (TokenType::Lt, TokenType::Lt) => true,
            (TokenType::Gt, TokenType::Gt) => true,
            (TokenType::Assign, TokenType::Assign) => true,
            (TokenType::Semicolon, TokenType::Semicolon) => true,
            (TokenType::Comma, TokenType::Comma) => true,
            (TokenType::LeftParen, TokenType::LeftParen) => true,
            (TokenType::RightParen, TokenType::RightParen) => true,
            (TokenType::LeftBrace, TokenType::LeftBrace) => true,
            (TokenType::RightBrace, TokenType::RightBrace) => true,
            (TokenType::NewLine, TokenType::NewLine) => true,
            _ => false,
        }
    }
}

impl PartialEqSpecImpl for TokenType {
    open spec fn obeys_eq_spec() -> bool {
        true
    }

    open spec fn eq_spec(&self, other: &TokenType) -> bool {
        self@ == other@
    }
}

/// The token that a single punctuation character stands for, if any.
pub open spec fn single_letter(c: char) -> Option<Token> {
    if c == '+' {
        Some(Token::Plus)
    } else if c == '-' {
        Some(Token::Minus)
    } else if c == '*' {
        Some(Token::Mul)
    } else if c == '/' {
        Some(Token::Div)
    } else if c == '=' {
        Some(Token::Assign)
    } else if c == '<' {
        Some(Token::Lt)
    } else if c == '>' {
        Some(Token::Gt)
    } else if c == ';' {
        Some(Token::Semicolon)
    } else if c == ',' {
        Some(Token::Comma)
    } else if c == '(' {
        Some(Token::LeftParen)
    } else if c == ')' {
        Some(Token::RightParen)
    } else if c == '{' {
        Some(Token::LeftBrace)
    } else if c == '}' {
        Some(Token::RightBrace)
    } else {
        None
    }
}

impl TokenType {
    /// The token made of the one character `c`, or `None` when `c` is not a
    /// punctuation character of the language.
    pub fn new_single_letter(c: char) -> (r: Option<Self>)
        ensures
            match single_letter(c) {
                Some(t) => r is Some && r->Some_0@ == t,
                None => r is None,
            },
    {
        match c {
            '+' => Some(TokenType::Plus),
            '-' => Some(TokenType::Minus),
            '*' => Some(TokenType::Mul),
            '/' => Some(TokenType::Div),
            '=' => Some(TokenType::Assign),
            '<' => Some(TokenType::Lt),
            '>' => Some(TokenType::Gt),
            ';' => Some(TokenType::Semicolon),
            ',' => Some(TokenType::Comma),
            '(' => Some(TokenType::LeftParen),
            ')' => Some(TokenType::RightParen),
            '{' => Some(TokenType::LeftBrace),
            '}' => Some(TokenType::RightBrace),
            _ => None,
        }
    }
}

/// The class of a source character, which decides how a token that starts
/// with it is read.
#[derive(Debug, Clone, Copy, PartialEq, Eq, Structural)]
pub enum CharacterType {
    /// A space or a tab.
    Whitespace,
    /// A line feed.
    NewLine,
    /// A carriage return.
    CarriageReturn,
    /// A letter or an underscore: the start of an identifier.
    Alphabetic,
    /// A decimal digit.
    Digit,
    /// Any other character: punctuation, if the language has it.
    NonAlphabetic(char),
    /// A character without a class.
    Unknown(char),
}

} // verus!
