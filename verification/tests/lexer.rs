use rustcc::token::{tokenize, LexError, LexErrorKind};
use rustcc::{CharacterType, TokenType};

fn ident(name: &str) -> TokenType {
    TokenType::Ident(name.to_string())
}

#[test]
fn tokenize_reads_a_two_character_operator_as_one_token() {
    let tokens = tokenize("1<=2").unwrap();
    assert_eq!(tokens.len(), 3);
    assert_eq!(tokens, vec![TokenType::Num(1), TokenType::Le, TokenType::Num(2)]);
}

#[test]
fn tokenize_reads_each_comparison_operator() {
    assert_eq!(tokenize("==").unwrap(), vec![TokenType::Eq]);
    assert_eq!(tokenize("!=").unwrap(), vec![TokenType::Ne]);
    assert_eq!(tokenize("<=").unwrap(), vec![TokenType::Le]);
    assert_eq!(tokenize(">=").unwrap(), vec![TokenType::Ge]);
    assert_eq!(tokenize("<").unwrap(), vec![TokenType::Lt]);
    assert_eq!(tokenize(">").unwrap(), vec![TokenType::Gt]);
}

#[test]
fn tokenize_prefers_the_longer_operator() {
    assert_eq!(tokenize("===").unwrap(), vec![TokenType::Eq, TokenType::Assign]);
    assert_eq!(tokenize("<==").unwrap(), vec![TokenType::Le, TokenType::Assign]);
    assert_eq!(tokenize("= =").unwrap(), vec![TokenType::Assign, TokenType::Assign]);
    assert_eq!(tokenize("<>=").unwrap(), vec![TokenType::Lt, TokenType::Ge]);
}

#[test]
fn tokenize_reads_every_punctuation_character() {
    assert_eq!(
        tokenize("+-*/=<>;,(){}").unwrap(),
        vec![
            TokenType::Plus,
            TokenType::Minus,
            TokenType::Mul,
            TokenType::Div,
            TokenType::Assign,
            TokenType::Lt,
            TokenType::Gt,
            TokenType::Semicolon,
            TokenType::Comma,
            TokenType::LeftParen,
            TokenType::RightParen,
            TokenType::LeftBrace,
            TokenType::RightBrace,
        ]
    );
}

#[test]
fn tokenize_knows_the_keywords() {
    assert_eq!(
        tokenize("if else return").unwrap(),
        vec![TokenType::If, TokenType::Else, TokenType::Return]
    );
}

#[test]
fn tokenize_reads_a_keyword_inside_a_name_as_a_name() {
    assert_eq!(
        tokenize("iff returns _if else1 If").unwrap(),
        vec![ident("iff"), ident("returns"), ident("_if"), ident("else1"), ident("If")]
    );
}

#[test]
fn tokenize_reads_loop_words_as_names() {
    assert_eq!(tokenize("while for").unwrap(), vec![ident("while"), ident("for")]);
}

#[test]
fn tokenize_takes_the_longest_name() {
    assert_eq!(tokenize("abc_12+x").unwrap(), vec![ident("abc_12"), TokenType::Plus, ident("x")]);
}

#[test]
fn tokenize_takes_letters_beyond_ascii() {
    assert_eq!(tokenize("caf\u{e9} \u{4eac}1").unwrap(), vec![ident("caf\u{e9}"), ident("\u{4eac}1")]);
}

#[test]
fn tokenize_takes_the_longest_number() {
    assert_eq!(tokenize("12345").unwrap(), vec![TokenType::Num(12345)]);
    assert_eq!(tokenize("007").unwrap(), vec![TokenType::Num(7)]);
    assert_eq!(tokenize("0").unwrap(), vec![TokenType::Num(0)]);
}

#[test]
fn tokenize_splits_a_number_from_a_name_behind_it() {
    assert_eq!(tokenize("12ab").unwrap(), vec![TokenType::Num(12), ident("ab")]);
}

#[test]
fn tokenize_has_no_signed_numbers() {
    assert_eq!(tokenize("-5").unwrap(), vec![TokenType::Minus, TokenType::Num(5)]);
}

#[test]
fn tokenize_accepts_the_largest_number() {
    assert_eq!(tokenize("2147483647").unwrap(), vec![TokenType::Num(2147483647)]);
}

#[test]
fn tokenize_rejects_a_number_that_is_too_large() {
    assert_eq!(
        tokenize("1 + 2147483648"),
        Err(LexError { pos: 4, kind: LexErrorKind::NumberTooLarge })
    );
    assert_eq!(
        tokenize("99999999999999999999999999"),
        Err(LexError { pos: 0, kind: LexErrorKind::NumberTooLarge })
    );
}

#[test]
fn tokenize_drops_spaces_and_tabs() {
    assert_eq!(tokenize(" \t 1 \t ").unwrap(), vec![TokenType::Num(1)]);
    assert_eq!(tokenize("").unwrap(), vec![]);
    assert_eq!(tokenize("   ").unwrap(), vec![]);
}

#[test]
fn tokenize_keeps_line_feeds() {
    assert_eq!(
        tokenize("1\n2").unwrap(),
        vec![TokenType::Num(1), TokenType::NewLine, TokenType::Num(2)]
    );
}

#[test]
fn tokenize_rejects_a_character_that_starts_no_token() {
    assert_eq!(
        tokenize("1 @ 2"),
        Err(LexError { pos: 2, kind: LexErrorKind::UnsupportedSymbol })
    );
    assert_eq!(tokenize("!"), Err(LexError { pos: 0, kind: LexErrorKind::UnsupportedSymbol }));
    assert_eq!(tokenize("a!b"), Err(LexError { pos: 1, kind: LexErrorKind::UnsupportedSymbol }));
    assert_eq!(tokenize("1\r\n"), Err(LexError { pos: 1, kind: LexErrorKind::UnsupportedSymbol }));
}

#[test]
fn tokenize_rejects_a_character_beyond_ascii_that_is_no_letter() {
    assert_eq!(
        tokenize("a \u{1f49d}"),
        Err(LexError { pos: 2, kind: LexErrorKind::UnsupportedSymbol })
    );
    assert_eq!(tokenize("\u{d7}"), Err(LexError { pos: 0, kind: LexErrorKind::UnsupportedSymbol }));
}

#[test]
fn tokenize_makes_no_negative_number() {
    for token in tokenize("0 1 2147483647 -5 a9").unwrap() {
        if let TokenType::Num(v) = token {
            assert!(v >= 0);
        }
    }
}

#[test]
fn tokenize_counts_characters_not_bytes_in_an_error() {
    assert_eq!(
        tokenize("\u{e9}\u{e9} #"),
        Err(LexError { pos: 3, kind: LexErrorKind::UnsupportedSymbol })
    );
}

#[test]
fn tokenize_stops_at_the_first_error() {
    assert_eq!(
        tokenize("# 99999999999"),
        Err(LexError { pos: 0, kind: LexErrorKind::UnsupportedSymbol })
    );
}

#[test]
fn tokenize_reads_a_function() {
    assert_eq!(
        tokenize("main() { return a_1 >= 10; }").unwrap(),
        vec![
            ident("main"),
            TokenType::LeftParen,
            TokenType::RightParen,
            TokenType::LeftBrace,
            TokenType::Return,
            ident("a_1"),
            TokenType::Ge,
            TokenType::Num(10),
            TokenType::Semicolon,
            TokenType::RightBrace,
        ]
    );
}

#[test]
fn new_single_letter_makes_the_punctuation_tokens() {
    assert_eq!(TokenType::new_single_letter('+'), Some(TokenType::Plus));
    assert_eq!(TokenType::new_single_letter('-'), Some(TokenType::Minus));
    assert_eq!(TokenType::new_single_letter('*'), Some(TokenType::Mul));
    assert_eq!(TokenType::new_single_letter('/'), Some(TokenType::Div));
    assert_eq!(TokenType::new_single_letter('='), Some(TokenType::Assign));
    assert_eq!(TokenType::new_single_letter('<'), Some(TokenType::Lt));
    assert_eq!(TokenType::new_single_letter('>'), Some(TokenType::Gt));
    assert_eq!(TokenType::new_single_letter(';'), Some(TokenType::Semicolon));
    assert_eq!(TokenType::new_single_letter(','), Some(TokenType::Comma));
    assert_eq!(TokenType::new_single_letter('('), Some(TokenType::LeftParen));
    assert_eq!(TokenType::new_single_letter(')'), Some(TokenType::RightParen));
    assert_eq!(TokenType::new_single_letter('{'), Some(TokenType::LeftBrace));
    assert_eq!(TokenType::new_single_letter('}'), Some(TokenType::RightBrace));
}

#[test]
fn new_single_letter_knows_no_other_character() {
    assert_eq!(TokenType::new_single_letter('!'), None);
    assert_eq!(TokenType::new_single_letter('a'), None);
    assert_eq!(TokenType::new_single_letter('1'), None);
    assert_eq!(TokenType::new_single_letter(' '), None);
}

#[test]
fn tokens_compare_by_value() {
    assert_eq!(ident("a"), ident("a"));
    assert_ne!(ident("a"), ident("b"));
    assert_ne!(TokenType::Num(1), TokenType::Num(2));
    assert_ne!(TokenType::Lt, TokenType::Le);
    assert_ne!(ident("if"), TokenType::If);
}

#[test]
fn character_types_compare_by_value() {
    assert_eq!(CharacterType::NonAlphabetic('+'), CharacterType::NonAlphabetic('+'));
    assert_ne!(CharacterType::NonAlphabetic('+'), CharacterType::Unknown('+'));
    assert_ne!(CharacterType::Whitespace, CharacterType::NewLine);
}
