//! The lexer: source text to tokens.
//!
//! [`lex`] defines the token sequence of a text; [`tokenize`] computes it.

use vstd::prelude::*;
use crate::{CharacterType, Token, TokenType, single_letter, tokens_in_range, tokens_view};

verus! {

/// Why a text has no token sequence.
#[derive(Debug, Clone, Copy, PartialEq, Eq, Structural)]
pub enum LexErrorKind {
    /// A character that starts no token.
    UnsupportedSymbol,
    /// A decimal literal above `i32::MAX`.
    NumberTooLarge,
}

/// A lexical error: the index, in characters, of the token that could not be
/// read, and the reason.
#[derive(Debug, Clone, Copy, PartialEq, Eq, Structural)]
pub struct LexError {
    pub pos: usize,
    pub kind: LexErrorKind,
}

/// Whether a character beyond ASCII has Unicode's `Alphabetic` property, as
/// `char::is_alphabetic` reports it.
pub uninterp spec fn unicode_alphabetic(c: char) -> bool;

/// Whether `c` is a letter: within ASCII the 52 Latin letters, beyond it the
/// characters with Unicode's `Alphabetic` property.
pub open spec fn is_alphabetic(c: char) -> bool {
    if c <= '\x7f' {
        ('a' <= c && c <= 'z') || ('A' <= c && c <= 'Z')
    } else {
        unicode_alphabetic(c)
    }
}

/// `char::is_alphabetic` of std: true exactly for the characters with
/// Unicode's `Alphabetic` property. Of the ASCII characters those are the
/// letters `a` to `z` and `A` to `Z`; for the others the answer is named
/// [`unicode_alphabetic`].
pub assume_specification[ char::is_alphabetic ](c: char) -> (r: bool)
    ensures
        r == (if c <= '\x7f' {
            ('a' <= c && c <= 'z') || ('A' <= c && c <= 'Z')
        } else {
            unicode_alphabetic(c)
        }),
;

/// `String::push` of std: appends one character.
pub assume_specification[ String::push ](s: &mut String, c: char)
    ensures
        final(s)@ == old(s)@.push(c),
;

/// Whether `c` is one of the ten decimal digits.
pub open spec fn is_digit(c: char) -> bool {
    '0' <= c && c <= '9'
}

/// Whether `c` may stand inside an identifier.
pub open spec fn is_ident_char(c: char) -> bool {
    is_alphabetic(c) || is_digit(c) || c == '_'
}

/// The class of `c`. Line feed, space and tab come first; then letters and
/// the underscore; then digits; everything else is punctuation.
pub open spec fn classify(c: char) -> CharacterType {
    if c == '\n' {
        CharacterType::NewLine
    } else if c == ' ' || c == '\t' {
        CharacterType::Whitespace
    } else if is_alphabetic(c) || c == '_' {
        CharacterType::Alphabetic
    } else if is_digit(c) {
        CharacterType::Digit
    } else {
        CharacterType::NonAlphabetic(c)
    }
}

/// What is left of a text of `len` characters at index `pos`.
pub open spec fn left(len: nat, pos: int) -> nat {
    if pos < len {
        (len - pos) as nat
    } else {
        0
    }
}

/// The number of identifier characters that follow one another from `pos` on.
pub open spec fn ident_run(s: Seq<char>, pos: int) -> nat
    decreases left(s.len(), pos),
{
    if 0 <= pos < s.len() && is_ident_char(s[pos]) {
        1 + ident_run(s, pos + 1)
    } else {
        0
    }
}

/// The number of digits that follow one another from `pos` on.
pub open spec fn digit_run(s: Seq<char>, pos: int) -> nat
    decreases left(s.len(), pos),
{
    if 0 <= pos < s.len() && is_digit(s[pos]) {
        1 + digit_run(s, pos + 1)
    } else {
        0
    }
}

/// The number that the `len` digits from `pos` on denote in base ten.
pub open spec fn number_value(s: Seq<char>, pos: int, len: nat) -> nat
    decreases len,
{
    if len == 0 {
        0
    } else {
        number_value(s, pos, (len - 1) as nat) * 10 + (s[pos + len - 1] as nat - '0' as nat) as nat
    }
}

/// The keyword spelled `name`, or the identifier `name`.
pub open spec fn keyword_or_ident(name: Seq<char>) -> Token {
    if name == seq!['i', 'f'] {
        Token::If
    } else if name == seq!['e', 'l', 's', 'e'] {
        Token::Else
    } else if name == seq!['r', 'e', 't', 'u', 'r', 'n'] {
        Token::Return
    } else {
        Token::Ident(name)
    }
}

/// The comparison operator spelled by the two characters, if any.
pub open spec fn two_letter(c0: char, c1: char) -> Option<Token> {
    if c1 != '=' {
        None
    } else if c0 == '=' {
        Some(Token::Eq)
    } else if c0 == '!' {
        Some(Token::Ne)
    } else if c0 == '<' {
        Some(Token::Le)
    } else if c0 == '>' {
        Some(Token::Ge)
    } else {
        None
    }
}

/// One step of the lexer at index `pos` of `s`: the token that starts there
/// (none for a space or a tab) and the number of characters it takes, or the
/// error.
///
/// An identifier and a number take the longest run of their characters. A
/// two-character operator is preferred to the one-character token that it
/// starts with.
pub open spec fn scan_token(s: Seq<char>, pos: int) -> Result<(Option<Token>, nat), LexError>
    recommends
        0 <= pos < s.len(),
{
    match classify(s[pos]) {
        CharacterType::NewLine => Ok((Some(Token::NewLine), 1)),
        CharacterType::Whitespace => Ok((None, 1)),
        CharacterType::Alphabetic => {
            let len = 1 + ident_run(s, pos + 1);
            Ok((Some(keyword_or_ident(s.subrange(pos, pos + len))), len))
        },
        CharacterType::Digit => {
            let len = 1 + digit_run(s, pos + 1);
            let value = number_value(s, pos, len);
            if value <= i32::MAX {
                Ok((Some(Token::Num(value as int)), len))
            } else {
                Err(LexError { pos: pos as usize, kind: LexErrorKind::NumberTooLarge })
            }
        },
        CharacterType::NonAlphabetic(c) => {
            if pos + 1 < s.len() && two_letter(c, s[pos + 1]) is Some {
                Ok((two_letter(c, s[pos + 1]), 2))
            } else if single_letter(c) is Some {
                Ok((single_letter(c), 1))
            } else {
                Err(LexError { pos: pos as usize, kind: LexErrorKind::UnsupportedSymbol })
            }
        },
        _ => Err(LexError { pos: pos as usize, kind: LexErrorKind::UnsupportedSymbol }),
    }
}

/// `acc` followed by the tokens of `rest`, or the error of `rest`.
pub open spec fn prepend(acc: Seq<Token>, rest: Result<Seq<Token>, LexError>) -> Result<
    Seq<Token>,
    LexError,
> {
    match rest {
        Ok(tokens) => Ok(acc + tokens),
        Err(e) => Err(e),
    }
}

/// The tokens of `s` from index `pos` on, or the first lexical error.
pub open spec fn lex_from(s: Seq<char>, pos: int) -> Result<Seq<Token>, LexError>
    decreases left(s.len(), pos),
{
    if pos < 0 || pos >= s.len() {
        Ok(Seq::empty())
    } else {
        match scan_token(s, pos) {
            Err(e) => Err(e),
            Ok((Some(token), len)) => prepend(seq![token], lex_from(s, pos + len)),
            Ok((None, len)) => lex_from(s, pos + len),
        }
    }
}

/// The token sequence of the text `s`, or its first lexical error.
pub open spec fn lex(s: Seq<char>) -> Result<Seq<Token>, LexError> {
    lex_from(s, 0)
}

/// Every token takes at least one character and ends inside the text.
pub proof fn lemma_scan_token_len(s: Seq<char>, pos: int)
    requires
        0 <= pos < s.len(),
    ensures
        scan_token(s, pos) matches Ok((_, len)) ==> 1 <= len && pos + len <= s.len(),
{
    lemma_ident_run_bound(s, pos + 1);
    lemma_digit_run_bound(s, pos + 1);
}

/// A run of identifier characters ends inside the text.
pub proof fn lemma_ident_run_bound(s: Seq<char>, pos: int)
    requires
        0 <= pos <= s.len(),
    ensures
        pos + ident_run(s, pos) <= s.len(),
    decreases s.len() - pos,
{
    if pos < s.len() && is_ident_char(s[pos]) {
        lemma_ident_run_bound(s, pos + 1);
    }
}

/// A run of digits ends inside the text.
pub proof fn lemma_digit_run_bound(s: Seq<char>, pos: int)
    requires
        0 <= pos <= s.len(),
    ensures
        pos + digit_run(s, pos) <= s.len(),
    decreases s.len() - pos,
{
    if pos < s.len() && is_digit(s[pos]) {
        lemma_digit_run_bound(s, pos + 1);
    }
}

/// The numbers among the tokens of a text are not negative and not above
/// `i32::MAX`.
pub proof fn lemma_lex_in_range(s: Seq<char>, pos: int)
    ensures
        lex_from(s, pos) matches Ok(tokens) ==> tokens_in_range(tokens),
    decreases left(s.len(), pos),
{
    if 0 <= pos < s.len() {
        lemma_scan_token_len(s, pos);
        match scan_token(s, pos) {
            Ok((token, len)) => {
                lemma_lex_in_range(s, pos + len);
                match (token, lex_from(s, pos + len)) {
                    (Some(token), Ok(rest)) => {
                        let tokens = seq![token] + rest;
                        assert forall|i: int| 0 <= i < tokens.len() implies ((
                        #[trigger] tokens[i]) matches Token::Num(v) ==> 0 <= v <= i32::MAX) by {
                            if i > 0 {
                                assert(tokens[i] == rest[i - 1]);
                            }
                        }
                    },
                    _ => {},
                }
            },
            Err(_) => {},
        }
    }
}

/// A comparison operator of two characters is read as one token: wherever
/// the lexer stands before `==`, `!=`, `<=` or `>=`, its next token is that
/// operator and takes both characters.
pub proof fn lemma_two_letter_operator(s: Seq<char>, pos: int)
    requires
        0 <= pos,
        pos + 1 < s.len(),
        s[pos] == '=' || s[pos] == '!' || s[pos] == '<' || s[pos] == '>',
        s[pos + 1] == '=',
    ensures
        scan_token(s, pos) == Ok::<(Option<Token>, nat), LexError>(
            (two_letter(s[pos], s[pos + 1]), 2),
        ),
        lex_from(s, pos) == prepend(
            seq![two_letter(s[pos], s[pos + 1])->Some_0],
            lex_from(s, pos + 2),
        ),
        two_letter(s[pos], s[pos + 1]) == Some(
            if s[pos] == '=' {
                Token::Eq
            } else if s[pos] == '!' {
                Token::Ne
            } else if s[pos] == '<' {
                Token::Le
            } else {
                Token::Ge
            },
        ),
{
}

/// Adding a digit to a run of digits does not make its number smaller.
proof fn lemma_number_value_monotonic(s: Seq<char>, pos: int, a: nat, b: nat)
    requires
        a <= b,
    ensures
        number_value(s, pos, a) <= number_value(s, pos, b),
    decreases b,
{
    if a < b {
        lemma_number_value_monotonic(s, pos, a, (b - 1) as nat);
    }
}

/// Whether `c` is a letter.
fn alphabetic(c: char) -> (r: bool)
    ensures
        r == is_alphabetic(c),
{
    c.is_alphabetic()
}

/// Whether `c` is a decimal digit.
fn ascii_digit(c: char) -> (r: bool)
    ensures
        r == is_digit(c),
{
    '0' <= c && c <= '9'
}

/// The class of `c`.
fn character_type(c: char) -> (r: CharacterType)
    ensures
        r == classify(c),
{
    if c == '\n' {
        CharacterType::NewLine
    } else if c == ' ' || c == '\t' {
        CharacterType::Whitespace
    } else if alphabetic(c) || c == '_' {
        CharacterType::Alphabetic
    } else if ascii_digit(c) {
        CharacterType::Digit
    } else {
        CharacterType::NonAlphabetic(c)
    }
}

/// The comparison operator spelled by the two characters, if any.
fn symbol(c0: char, c1: char) -> (r: Option<TokenType>)
    ensures
        match two_letter(c0, c1) {
            Some(t) => r is Some && r->Some_0@ == t,
            None => r is None,
        },
{
    if c1 != '=' {
        None
    } else if c0 == '=' {
        Some(TokenType::Eq)
    } else if c0 == '!' {
        Some(TokenType::Ne)
    } else if c0 == '<' {
        Some(TokenType::Le)
    } else if c0 == '>' {
        Some(TokenType::Ge)
    } else {
        None
    }
}

/// The keyword that the `len` characters of `src` from `pos` on spell, if
/// they spell one.
fn keyword(src: &Vec<char>, pos: usize, len: usize) -> (r: Option<TokenType>)
    requires
        pos + len <= src.len(),
    ensures
        match keyword_or_ident(src@.subrange(pos as int, pos + len)) {
            Token::Ident(_) => r is None,
            t => r is Some && r->Some_0@ == t,
        },
{
    let ghost name = src@.subrange(pos as int, pos + len);
    if len == 2 && src[pos] == 'i' && src[pos + 1] == 'f' {
        assert(name =~= seq!['i', 'f']);
        Some(TokenType::If)
    } else if len == 4 && src[pos] == 'e' && src[pos + 1] == 'l' && src[pos + 2] == 's' && src[pos
        + 3] == 'e' {
        assert(name =~= seq!['e', 'l', 's', 'e']);
        Some(TokenType::Else)
    } else if len == 6 && src[pos] == 'r' && src[pos + 1] == 'e' && src[pos + 2] == 't' && src[pos
        + 3] == 'u' && src[pos + 4] == 'r' && src[pos + 5] == 'n' {
        assert(name =~= seq!['r', 'e', 't', 'u', 'r', 'n']);
        Some(TokenType::Return)
    } else {
        assert(name != seq!['i', 'f']) by {
            if name == seq!['i', 'f'] {
                assert(name.len() == 2 && name[0] == 'i' && name[1] == 'f');
            }
        }
        assert(name != seq!['e', 'l', 's', 'e']) by {
            if name == seq!['e', 'l', 's', 'e'] {
                assert(name.len() == 4 && name[0] == 'e' && name[1] == 'l' && name[2] == 's'
                    && name[3] == 'e');
            }
        }
        assert(name != seq!['r', 'e', 't', 'u', 'r', 'n']) by {
            if name == seq!['r', 'e', 't', 'u', 'r', 'n'] {
                assert(name.len() == 6 && name[0] == 'r' && name[1] == 'e' && name[2] == 't'
                    && name[3] == 'u' && name[4] == 'r' && name[5] == 'n');
            }
        }
        None
    }
}

/// The characters of `src`, one by one.
fn characters(src: &str) -> (v: Vec<char>)
    ensures
        v@ == src@,
{
    let mut v: Vec<char> = Vec::new();
    let chars = src.chars();
    for c in iter: chars
        invariant
            v@ == iter.seq().take(iter.index()),
    {
        v.push(c);
    }
    v
}

/// The `len` characters of `src` from `pos` on, as a string.
fn text(src: &Vec<char>, pos: usize, len: usize) -> (name: String)
    requires
        pos + len <= src.len(),
    ensures
        name@ == src@.subrange(pos as int, pos + len),
{
    let mut name = String::new();
    let mut i: usize = 0;
    while i < len
        invariant
            i <= len,
            pos + len <= src.len(),
            name@ == src@.subrange(pos as int, pos + i),
        decreases len - i,
    {
        name.push(src[pos + i]);
        i += 1;
        assert(name@ =~= src@.subrange(pos as int, pos + i));
    }
    name
}

/// A lexer at work: the text, the index of the next character to read, and
/// the tokens read so far.
struct Tokenizer {
    src: Vec<char>,
    pos: usize,
    tokens: Vec<TokenType>,
}

impl Tokenizer {
    /// The lexer stands inside its text.
    spec fn wf(&self) -> bool {
        self.pos <= self.src.len()
    }

    /// A lexer at the start of `src`, with no token read.
    fn new(src: Vec<char>) -> (t: Self)
        ensures
            t.wf(),
            t.src == src,
            t.pos == 0,
            t.tokens@ == Seq::<TokenType>::empty(),
    {
        Tokenizer { src, pos: 0, tokens: Vec::new() }
    }

    /// The class of the character `advance_from_pos` places after the next
    /// one, or `None` beyond the end of the text.
    fn get_character(&self, advance_from_pos: usize) -> (r: Option<CharacterType>)
        requires
            self.wf(),
        ensures
            r == if self.pos + advance_from_pos < self.src.len() {
                Some(classify(self.src@[self.pos + advance_from_pos]))
            } else {
                None
            },
    {
        if advance_from_pos < self.src.len() - self.pos {
            Some(character_type(self.src[self.pos + advance_from_pos]))
        } else {
            None
        }
    }

    /// Reads the whole text: afterwards the lexer holds the tokens of the
    /// text from where it stood, behind those it held, unless the text has a
    /// lexical error.
    fn scan(&mut self) -> (r: Result<(), LexError>)
        requires
            old(self).wf(),
        ensures
            final(self).wf(),
            final(self).src == old(self).src,
            match lex_from(old(self).src@, old(self).pos as int) {
                Ok(tokens) => r is Ok && tokens_view(final(self).tokens@) == tokens_view(
                    old(self).tokens@,
                ) + tokens,
                Err(e) => r == Err::<(), LexError>(e),
            },
            r is Ok ==> final(self).pos == final(self).src.len(),
    {
        let ghost start = self.pos as int;
        let ghost before = tokens_view(self.tokens@);
        loop
            invariant
                self.wf(),
                self.src == old(self).src,
                start == old(self).pos,
                before == tokens_view(old(self).tokens@),
                start <= self.pos,
                lex_from(self.src@, start) == prepend(
                    tokens_view(self.tokens@).skip(before.len() as int),
                    lex_from(self.src@, self.pos as int),
                ),
                tokens_view(self.tokens@).take(before.len() as int) == before,
                before.len() <= self.tokens@.len(),
            decreases self.src.len() - self.pos,
        {
            let ghost held = tokens_view(self.tokens@);
            let ghost at = self.pos as int;
            proof {
                if at < self.src@.len() {
                    lemma_scan_token_len(self.src@, at);
                }
            }
            let head = match self.get_character(0) {
                Some(head) => head,
                None => {
                    proof {
                        assert(held.skip(before.len() as int) + Seq::<Token>::empty()
                            =~= held.skip(before.len() as int));
                        assert(held =~= before + held.skip(before.len() as int));
                    }
                    return Ok(());
                },
            };
            match head {
                CharacterType::NewLine => {
                    self.pos += 1;
                    self.tokens.push(TokenType::NewLine);
                },
                CharacterType::Whitespace => {
                    self.pos += 1;
                },
                CharacterType::Alphabetic => {
                    self.ident();
                },
                CharacterType::Digit => {
                    match self.number() {
                        Ok(()) => {},
                        Err(e) => {
                            return Err(e);
                        },
                    }
                },
                CharacterType::NonAlphabetic(c) => {
                    let two = if 1 < self.src.len() - self.pos {
                        symbol(c, self.src[self.pos + 1])
                    } else {
                        None
                    };
                    match two {
                        Some(ty) => {
                            self.pos += 2;
                            self.tokens.push(ty);
                        },
                        None => {
                            match TokenType::new_single_letter(c) {
                                Some(ty) => {
                                    self.pos += 1;
                                    self.tokens.push(ty);
                                },
                                None => {
                                    return Err(
                                        LexError {
                                            pos: self.pos,
                                            kind: LexErrorKind::UnsupportedSymbol,
                                        },
                                    );
                                },
                            }
                        },
                    }
                },
                _ => {
                    return Err(LexError { pos: self.pos, kind: LexErrorKind::UnsupportedSymbol });
                },
            }
            proof {
                let now = tokens_view(self.tokens@);
                let n = before.len() as int;
                match scan_token(self.src@, at) {
                    Ok((Some(token), len)) => {
                        assert(now =~= held.push(token));
                        let rest = lex_from(self.src@, self.pos as int);
                        match rest {
                            Ok(tokens) => {
                                assert(held.skip(n) + (seq![token] + tokens) =~= now.skip(n)
                                    + tokens);
                            },
                            Err(_) => {},
                        }
                        assert(now.take(n) =~= held.take(n));
                    },
                    Ok((None, len)) => {
                        assert(now =~= held);
                    },
                    Err(_) => {},
                }
            }
        }
    }

    /// Reads the identifier or keyword that starts at the next character.
    fn ident(&mut self)
        requires
            old(self).wf(),
            old(self).pos < old(self).src.len(),
            classify(old(self).src@[old(self).pos as int]) == CharacterType::Alphabetic,
        ensures
            final(self).wf(),
            final(self).src == old(self).src,
            scan_token(old(self).src@, old(self).pos as int) matches Ok((Some(token), len))
                && final(self).pos == old(self).pos + len && tokens_view(final(self).tokens@)
                == tokens_view(old(self).tokens@).push(token),
    {
        let mut len: usize = 1;
        proof {
            lemma_ident_run_bound(self.src@, self.pos + 1);
        }
        while len < self.src.len() - self.pos && (alphabetic(self.src[self.pos + len])
            || ascii_digit(self.src[self.pos + len]) || self.src[self.pos + len] == '_')
            invariant
                self.wf(),
                1 <= len <= self.src.len() - self.pos,
                1 + ident_run(self.src@, self.pos + 1) == len + ident_run(
                    self.src@,
                    self.pos + len,
                ),
            decreases self.src.len() - self.pos - len,
        {
            len += 1;
        }
        let t = match keyword(&self.src, self.pos, len) {
            Some(t) => t,
            None => TokenType::Ident(text(&self.src, self.pos, len)),
        };
        proof {
            assert(tokens_view(self.tokens@.push(t)) =~= tokens_view(self.tokens@).push(t@));
        }
        self.pos += len;
        self.tokens.push(t);
    }

    /// Reads the number that starts at the next character.
    fn number(&mut self) -> (r: Result<(), LexError>)
        requires
            old(self).wf(),
            old(self).pos < old(self).src.len(),
            classify(old(self).src@[old(self).pos as int]) == CharacterType::Digit,
        ensures
            final(self).wf(),
            final(self).src == old(self).src,
            match scan_token(old(self).src@, old(self).pos as int) {
                Ok((Some(token), len)) => r is Ok && final(self).pos == old(self).pos + len
                    && tokens_view(final(self).tokens@) == tokens_view(old(self).tokens@).push(
                    token,
                ),
                Ok((None, _)) => false,
                Err(e) => r == Err::<(), LexError>(e),
            },
    {
        let mut sum: i32 = 0;
        let mut len: usize = 0;
        let ghost total = 1 + digit_run(self.src@, self.pos + 1);
        proof {
            lemma_digit_run_bound(self.src@, self.pos + 1);
        }
        while len < self.src.len() - self.pos && ascii_digit(self.src[self.pos + len])
            invariant
                self.wf(),
                self.src == old(self).src,
                self.pos == old(self).pos,
                self.tokens == old(self).tokens,
                len <= self.src.len() - self.pos,
                classify(self.src@[self.pos as int]) == CharacterType::Digit,
                total == 1 + digit_run(self.src@, self.pos + 1),
                total == len + digit_run(self.src@, self.pos + len),
                sum == number_value(self.src@, self.pos as int, len as nat),
            decreases self.src.len() - self.pos - len,
        {
            let c = self.src[self.pos + len];
            let digit = (c as u32 - '0' as u32) as i32;
            assert(number_value(self.src@, self.pos as int, (len + 1) as nat) == sum * 10 + digit);
            if sum as i64 * 10 + digit as i64 > i32::MAX as i64 {
                proof {
                    lemma_number_value_monotonic(
                        self.src@,
                        self.pos as int,
                        (len + 1) as nat,
                        total,
                    );
                }
                return Err(LexError { pos: self.pos, kind: LexErrorKind::NumberTooLarge });
            }
            sum = sum * 10 + digit;
            len += 1;
        }
        let t = TokenType::Num(sum);
        proof {
            assert(tokens_view(self.tokens@.push(t)) =~= tokens_view(self.tokens@).push(t@));
        }
        self.pos += len;
        self.tokens.push(t);
        Ok(())
    }
}

/// The tokens of `src` in order, or the first lexical error: a character
/// that starts no token, or a number above `i32::MAX`. No number among the
/// tokens is negative.
pub fn tokenize(src: &str) -> (r: Result<Vec<TokenType>, LexError>)
    ensures
        match lex(src@) {
            Ok(tokens) => r is Ok && tokens_view(r->Ok_0@) == tokens,
            Err(e) => r == Err::<Vec<TokenType>, LexError>(e),
        },
        r matches Ok(tokens) ==> tokens_in_range(tokens_view(tokens@)),
{
    proof {
        lemma_lex_in_range(src@, 0);
    }
    let mut tokenizer = Tokenizer::new(characters(src));
    match tokenizer.scan() {
        Ok(()) => {
            proof {
                let tokens = lex(src@)->Ok_0;
                assert(Seq::<Token>::empty() + tokens =~= tokens);
                assert(tokens_view(Seq::<TokenType>::empty()) =~= Seq::<Token>::empty());
            }
            Ok(tokenizer.tokens)
        },
        Err(e) => Err(e),
    }
}

} // verus!
