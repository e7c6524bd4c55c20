//! Characters to tokens.
use vstd::prelude::*;

use vstd::std_specs::iter::IteratorSpec;

use crate::text::push_char;

verus! {

/// A lexical token. Tokens carry no source position.
#[derive(Debug, Eq, Clone)]
pub enum Token {
    Keyword(String),
    Identifier(String),
    Constant(String),
    LeftParen,
    RightParen,
    LeftBrace,
    RightBrace,
    Semicolon,
    Plus,
    Minus,
    Times,
    Divide,
    BitwiseNot,
    LogicNot,
    LogicAnd,
    LogicOr,
    Assign,
    EQ,
    NEQ,
    LT,
    LE,
    GT,
    GE,
}

/// The mathematical form of a token: its text as a sequence of characters.
pub enum TokenV {
    Keyword(Seq<char>),
    Identifier(Seq<char>),
    Constant(Seq<char>),
    LeftParen,
    RightParen,
    LeftBrace,
    RightBrace,
    Semicolon,
    Plus,
    Minus,
    Times,
    Divide,
    BitwiseNot,
    LogicNot,
    LogicAnd,
    LogicOr,
    Assign,
    EQ,
    NEQ,
    LT,
    LE,
    GT,
    GE,
}

impl View for Token {
    type V = TokenV;

    open spec fn view(&self) -> TokenV {
        match self {
            Token::Keyword(s) => TokenV::Keyword(s@),
            Token::Identifier(s) => TokenV::Identifier(s@),
            Token::Constant(s) => TokenV::Constant(s@),
            Token::LeftParen => TokenV::LeftParen,
            Token::RightParen => TokenV::RightParen,
            Token::LeftBrace => TokenV::LeftBrace,
            Token::RightBrace => TokenV::RightBrace,
            Token::Semicolon => TokenV::Semicolon,
            Token::Plus => TokenV::Plus,
            Token::Minus => TokenV::Minus,
            Token::Times => TokenV::Times,
            Token::Divide => TokenV::Divide,
            Token::BitwiseNot => TokenV::BitwiseNot,
            Token::LogicNot => TokenV::LogicNot,
            Token::LogicAnd => TokenV::LogicAnd,
            Token::LogicOr => TokenV::LogicOr,
            Token::Assign => TokenV::Assign,
            Token::EQ => TokenV::EQ,
            Token::NEQ => TokenV::NEQ,
            Token::LT => TokenV::LT,
            Token::LE => TokenV::LE,
            Token::GT => TokenV::GT,
            Token::GE => TokenV::GE,
        }
    }
}

impl PartialEq for Token {
    fn eq(&self, other: &Token) -> (r: bool) {
        match (self, other) {
            (Token::Keyword(a), Token::Keyword(b)) => *a == *b,
            (Token::Identifier(a), Token::Identifier(b)) => *a == *b,
            (Token::Constant(a), Token::Constant(b)) => *a == *b,
            (Token::LeftParen, Token::LeftParen) => true,
            (Token::RightParen, Token::RightParen) => true,
            (Token::LeftBrace, Token::LeftBrace) => true,
            (Token::RightBrace, Token::RightBrace) => true,
            (Token::Semicolon, Token::Semicolon) => true,
            (Token::Plus, Token::Plus) => true,
            (Token::Minus, Token::Minus) => true,
            (Token::Times, Token::Times) => true,
            (Token::Divide, Token::Divide) => true,
            (Token::BitwiseNot, Token::BitwiseNot) => true,
            (Token::LogicNot, Token::LogicNot) => true,
            (Token::LogicAnd, Token::LogicAnd) => true,
            (Token::LogicOr, Token::LogicOr) => true,
            (Token::Assign, Token::Assign) => true,
            (Token::EQ, Token::EQ) => true,
            (Token::NEQ, Token::NEQ) => true,
            (Token::LT, Token::LT) => true,
            (Token::LE, Token::LE) => true,
            (Token::GT, Token::GT) => true,
            (Token::GE, Token::GE) => true,
            _ => false,
        }
    }
}

impl vstd::std_specs::cmp::PartialEqSpecImpl for Token {
    open spec fn obeys_eq_spec() -> bool {
        true
    }

    open spec fn eq_spec(&self, other: &Token) -> bool {
        self@ == other@
    }
}

/// The views of a sequence of tokens.
pub open spec fn tokens_view(ts: Seq<Token>) -> Seq<TokenV> {
    ts.map_values(|t: Token| t@)
}

/// Why lexing stopped.
#[derive(Debug, Clone, Copy, PartialEq, Eq, Structural)]
pub enum LexError {
    /// A character that starts no token.
    UnexpectedCharacter(char),
    /// A `|` or `&` that is not doubled.
    IncompleteOperator(char),
}

pub open spec fn is_digit(c: char) -> bool {
    '0' <= c && c <= '9'
}

pub open spec fn is_letter(c: char) -> bool {
    ('a' <= c && c <= 'z') || ('A' <= c && c <= 'Z')
}

/// Whether `char::is_alphanumeric` holds of `c`.
pub uninterp spec fn alphanumeric_of(c: char) -> bool;

/// Whether `c` may continue a word: an ASCII letter or digit, or a character beyond ASCII
/// that is alphabetic or numeric.
pub open spec fn is_alphanumeric(c: char) -> bool {
    if (c as u32) < 128 {
        is_digit(c) || is_letter(c)
    } else {
        alphanumeric_of(c)
    }
}

pub open spec fn is_blank(c: char) -> bool {
    c == ' ' || c == '\t' || c == '\n'
}

/// Number of consecutive decimal digits in `s` from index `i` on.
pub open spec fn digit_run(s: Seq<char>, i: int) -> nat
    decreases s.len() - i,
{
    if 0 <= i < s.len() && is_digit(s[i]) {
        1 + digit_run(s, i + 1)
    } else {
        0
    }
}

/// Number of consecutive word characters in `s` from index `i` on.
pub open spec fn alnum_run(s: Seq<char>, i: int) -> nat
    decreases s.len() - i,
{
    if 0 <= i < s.len() && is_alphanumeric(s[i]) {
        1 + alnum_run(s, i + 1)
    } else {
        0
    }
}

/// A run of digits ends within the sequence.
pub proof fn lemma_digit_run_bound(s: Seq<char>, i: int)
    requires
        0 <= i <= s.len(),
    ensures
        i + digit_run(s, i) <= s.len(),
    decreases s.len() - i,
{
    if i < s.len() {
        lemma_digit_run_bound(s, i + 1);
    }
}

/// A run of word characters ends within the sequence.
pub proof fn lemma_alnum_run_bound(s: Seq<char>, i: int)
    requires
        0 <= i <= s.len(),
    ensures
        i + alnum_run(s, i) <= s.len(),
    decreases s.len() - i,
{
    if i < s.len() {
        lemma_alnum_run_bound(s, i + 1);
    }
}

pub open spec fn is_keyword(w: Seq<char>) -> bool {
    w == "int"@ || w == "return"@
}

/// The token of an alphanumeric word.
pub open spec fn word_token(w: Seq<char>) -> TokenV {
    if is_keyword(w) {
        TokenV::Keyword(w)
    } else {
        TokenV::Identifier(w)
    }
}

/// The token that a character makes on its own, whatever follows it.
pub open spec fn single_token(c: char) -> Option<TokenV> {
    if c == '(' {
        Some(TokenV::LeftParen)
    } else if c == ')' {
        Some(TokenV::RightParen)
    } else if c == '{' {
        Some(TokenV::LeftBrace)
    } else if c == '}' {
        Some(TokenV::RightBrace)
    } else if c == ';' {
        Some(TokenV::Semicolon)
    } else if c == '+' {
        Some(TokenV::Plus)
    } else if c == '*' {
        Some(TokenV::Times)
    } else if c == '/' {
        Some(TokenV::Divide)
    } else if c == '-' {
        Some(TokenV::Minus)
    } else if c == '~' {
        Some(TokenV::BitwiseNot)
    } else {
        None
    }
}

/// For `!`, `<`, `>` and `=`: the token alone, and the token when `=` follows.
pub open spec fn comparison_tokens(c: char) -> Option<(TokenV, TokenV)> {
    if c == '!' {
        Some((TokenV::LogicNot, TokenV::NEQ))
    } else if c == '<' {
        Some((TokenV::LT, TokenV::LE))
    } else if c == '>' {
        Some((TokenV::GT, TokenV::GE))
    } else if c == '=' {
        Some((TokenV::Assign, TokenV::EQ))
    } else {
        None
    }
}

/// For `|` and `&`: the token of the doubled character.
pub open spec fn doubled_token(c: char) -> Option<TokenV> {
    if c == '|' {
        Some(TokenV::LogicOr)
    } else if c == '&' {
        Some(TokenV::LogicAnd)
    } else {
        None
    }
}

/// `t` in front of the tokens of `r`, or the error of `r`.
pub open spec fn cons_token(t: TokenV, r: Result<Seq<TokenV>, LexError>) -> Result<
    Seq<TokenV>,
    LexError,
> {
    match r {
        Ok(ts) => Ok(seq![t] + ts),
        Err(e) => Err(e),
    }
}

/// The tokens of `s` from index `i` on, or the first error met.
pub open spec fn lex_from(s: Seq<char>, i: int) -> Result<Seq<TokenV>, LexError>
    decreases s.len() - i,
{
    if i < 0 || i >= s.len() {
        Ok(seq![])
    } else {
        let c = s[i];
        if is_digit(c) {
            let j = i + 1 + digit_run(s, i + 1);
            proof {
                lemma_digit_run_bound(s, i + 1);
            }
            cons_token(TokenV::Constant(s.subrange(i, j)), lex_from(s, j))
        } else if is_letter(c) {
            let j = i + 1 + alnum_run(s, i + 1);
            proof {
                lemma_alnum_run_bound(s, i + 1);
            }
            cons_token(word_token(s.subrange(i, j)), lex_from(s, j))
        } else if is_blank(c) {
            lex_from(s, i + 1)
        } else if single_token(c) is Some {
            cons_token(single_token(c)->0, lex_from(s, i + 1))
        } else if let Some((alone, with_eq)) = comparison_tokens(c) {
            if i + 1 < s.len() && s[i + 1] == '=' {
                cons_token(with_eq, lex_from(s, i + 2))
            } else {
                cons_token(alone, lex_from(s, i + 1))
            }
        } else if doubled_token(c) is Some {
            if i + 1 < s.len() && s[i + 1] == c {
                cons_token(doubled_token(c)->0, lex_from(s, i + 2))
            } else {
                Err(LexError::IncompleteOperator(c))
            }
        } else {
            Err(LexError::UnexpectedCharacter(c))
        }
    }
}

/// The tokens of a whole source text.
pub open spec fn lex_spec(s: Seq<char>) -> Result<Seq<TokenV>, LexError> {
    lex_from(s, 0)
}

fn is_digit_char(c: char) -> (r: bool)
    ensures
        r == is_digit(c),
{
    '0' <= c && c <= '9'
}

fn is_letter_char(c: char) -> (r: bool)
    ensures
        r == is_letter(c),
{
    ('a' <= c && c <= 'z') || ('A' <= c && c <= 'Z')
}

/// Relies on `char::is_alphanumeric`: its result depends on the character alone.
#[verifier::external_body]
fn char_is_alphanumeric(c: char) -> (r: bool)
    ensures
        r == alphanumeric_of(c),
{
    c.is_alphanumeric()
}

/// Whether `c` may continue a word.
fn word_char(c: char) -> (r: bool)
    ensures
        r == is_alphanumeric(c),
{
    if (c as u32) < 128 {
        is_digit_char(c) || is_letter_char(c)
    } else {
        char_is_alphanumeric(c)
    }
}

/// The run of digits that starts at `start`, and the index just past it.
fn get_number(chars: &Vec<char>, start: usize) -> (r: (String, usize))
    requires
        start <= chars@.len(),
    ensures
        r.1 == start + digit_run(chars@, start as int),
        r.0@ == chars@.subrange(start as int, r.1 as int),
{
    let mut number = String::new();
    let mut j = start;
    while j < chars.len() && is_digit_char(chars[j])
        invariant
            start <= j <= chars@.len(),
            number@ == chars@.subrange(start as int, j as int),
            digit_run(chars@, start as int) == (j - start) + digit_run(chars@, j as int),
        decreases chars@.len() - j,
    {
        push_char(&mut number, chars[j]);
        j += 1;
        assert(number@ =~= chars@.subrange(start as int, j as int));
    }
    (number, j)
}

/// The run of word characters that starts at `start`, and the index just past it.
fn get_word(chars: &Vec<char>, start: usize) -> (r: (String, usize))
    requires
        start <= chars@.len(),
    ensures
        r.1 == start + alnum_run(chars@, start as int),
        r.0@ == chars@.subrange(start as int, r.1 as int),
{
    let mut word = String::new();
    let mut j = start;
    while j < chars.len() && word_char(chars[j])
        invariant
            start <= j <= chars@.len(),
            word@ == chars@.subrange(start as int, j as int),
            alnum_run(chars@, start as int) == (j - start) + alnum_run(chars@, j as int),
        decreases chars@.len() - j,
    {
        push_char(&mut word, chars[j]);
        j += 1;
        assert(word@ =~= chars@.subrange(start as int, j as int));
    }
    (word, j)
}

/// The characters of a text, in order.
pub(crate) fn text_chars(input: &str) -> (r: Vec<char>)
    ensures
        r@ == input@,
{
    let mut chars: Vec<char> = Vec::new();
    for c in it: input.chars()
        invariant
            chars@ == it.seq().take(it.index() as int),
    {
        chars.push(c);
    }
    assert(chars@ =~= input@);
    chars
}

/// The token that `c` makes on its own.
fn single_char_token(c: char) -> (r: Option<Token>)
    ensures
        r is Some <==> single_token(c) is Some,
        r is Some ==> r->0@ == single_token(c)->0,
{
    match c {
        '(' => Some(Token::LeftParen),
        ')' => Some(Token::RightParen),
        '{' => Some(Token::LeftBrace),
        '}' => Some(Token::RightBrace),
        ';' => Some(Token::Semicolon),
        '+' => Some(Token::Plus),
        '*' => Some(Token::Times),
        '/' => Some(Token::Divide),
        '-' => Some(Token::Minus),
        '~' => Some(Token::BitwiseNot),
        _ => None,
    }
}

fn is_keyword_text(w: &String) -> (r: bool)
    ensures
        r == is_keyword(w@),
{
    let int_kw = "int".to_owned();
    let return_kw = "return".to_owned();
    *w == int_kw || *w == return_kw
}

/// One step of the scanner at index `i`: the token found there, if any, and the index after it.
fn next_token(chars: &Vec<char>, i: usize) -> (r: Result<(Option<Token>, usize), LexError>)
    requires
        i < chars@.len(),
    ensures
        match r {
            Ok((Some(t), j)) => i < j <= chars@.len() && lex_from(chars@, i as int) == cons_token(
                t@,
                lex_from(chars@, j as int),
            ),
            Ok((None, j)) => i < j <= chars@.len() && lex_from(chars@, i as int) == lex_from(
                chars@,
                j as int,
            ),
            Err(e) => lex_from(chars@, i as int) == Err::<Seq<TokenV>, LexError>(e),
        },
{
    let ghost s = chars@;
    let c = chars[i];
    let has_next = i < chars.len() - 1;
    if is_digit_char(c) {
        let (number, j) = get_number(chars, i + 1);
        proof {
            lemma_digit_run_bound(s, i + 1);
        }
        let mut digits = String::new();
        push_char(&mut digits, c);
        digits.append(number.as_str());
        assert(digits@ =~= s.subrange(i as int, j as int));
        Ok((Some(Token::Constant(digits)), j))
    } else if is_letter_char(c) {
        let (rest, j) = get_word(chars, i + 1);
        proof {
            lemma_alnum_run_bound(s, i + 1);
        }
        let mut word = String::new();
        push_char(&mut word, c);
        word.append(rest.as_str());
        assert(word@ =~= s.subrange(i as int, j as int));
        if is_keyword_text(&word) {
            Ok((Some(Token::Keyword(word)), j))
        } else {
            Ok((Some(Token::Identifier(word)), j))
        }
    } else if c == ' ' || c == '\t' || c == '\n' {
        Ok((None, i + 1))
    } else if let Some(t) = single_char_token(c) {
        Ok((Some(t), i + 1))
    } else if c == '!' || c == '<' || c == '>' || c == '=' {
        let followed_by_eq = has_next && chars[i + 1] == '=';
        let t = match c {
            '!' => if followed_by_eq { Token::NEQ } else { Token::LogicNot },
            '<' => if followed_by_eq { Token::LE } else { Token::LT },
            '>' => if followed_by_eq { Token::GE } else { Token::GT },
            _ => if followed_by_eq { Token::EQ } else { Token::Assign },
        };
        if followed_by_eq {
            Ok((Some(t), i + 2))
        } else {
            Ok((Some(t), i + 1))
        }
    } else if c == '|' || c == '&' {
        if has_next && chars[i + 1] == c {
            if c == '|' {
                Ok((Some(Token::LogicOr), i + 2))
            } else {
                Ok((Some(Token::LogicAnd), i + 2))
            }
        } else {
            Err(LexError::IncompleteOperator(c))
        }
    } else {
        Err(LexError::UnexpectedCharacter(c))
    }
}

/// The tokens `ts` in front of those of `r`, or the error of `r`.
pub open spec fn prefix_tokens(ts: Seq<TokenV>, r: Result<Seq<TokenV>, LexError>) -> Result<
    Seq<TokenV>,
    LexError,
> {
    match r {
        Ok(rest) => Ok(ts + rest),
        Err(e) => Err(e),
    }
}

proof fn lemma_prefix_cons(ts: Seq<TokenV>, t: TokenV, r: Result<Seq<TokenV>, LexError>)
    ensures
        prefix_tokens(ts, cons_token(t, r)) == prefix_tokens(ts.push(t), r),
{
    if let Ok(rest) = r {
        assert(ts + (seq![t] + rest) =~= ts.push(t) + rest);
    }
}

/// Splits a source text into tokens, in source order; whitespace makes none.
/// Fails at the first character that cannot start or complete a token.
pub fn lex(input: &str) -> (r: Result<Vec<Token>, LexError>)
    ensures
        match r {
            Ok(ts) => lex_spec(input@) == Ok::<Seq<TokenV>, LexError>(tokens_view(ts@)),
            Err(e) => lex_spec(input@) == Err::<Seq<TokenV>, LexError>(e),
        },
{
    let chars = text_chars(input);
    let ghost s = chars@;
    let mut tokens: Vec<Token> = Vec::new();
    let mut i: usize = 0;
    assert(prefix_tokens(tokens_view(tokens@), lex_from(s, 0)) == lex_from(s, 0)) by {
        if let Ok(rest) = lex_from(s, 0) {
            assert(tokens_view(tokens@) + rest =~= rest);
        }
    }
    while i < chars.len()
        invariant
            i <= chars@.len(),
            s == chars@,
            s == input@,
            lex_from(s, 0) == prefix_tokens(tokens_view(tokens@), lex_from(s, i as int)),
        decreases chars@.len() - i,
    {
        match next_token(&chars, i) {
            Ok((Some(t), j)) => {
                let ghost before = tokens_view(tokens@);
                proof {
                    lemma_prefix_cons(before, t@, lex_from(s, j as int));
                }
                tokens.push(t);
                assert(tokens_view(tokens@) =~= before.push(t@));
                i = j;
            },
            Ok((None, j)) => {
                i = j;
            },
            Err(e) => {
                return Err(e);
            },
        }
    }
    assert(tokens_view(tokens@) + seq![] =~= tokens_view(tokens@));
    Ok(tokens)
}

/// The tokens of two lexing outcomes in turn, or the first error among them.
pub open spec fn join_lexed(first: Result<Seq<TokenV>, LexError>, second: Result<Seq<TokenV>, LexError>) -> Result<
    Seq<TokenV>,
    LexError,
> {
    match first {
        Err(e) => Err(e),
        Ok(ts) => prefix_tokens(ts, second),
    }
}

proof fn lemma_join_cons(t: TokenV, first: Result<Seq<TokenV>, LexError>, second: Result<Seq<TokenV>, LexError>)
    ensures
        join_lexed(cons_token(t, first), second) == cons_token(t, join_lexed(first, second)),
{
    if let Ok(ts) = first {
        if let Ok(rest) = second {
            assert(seq![t] + ts + rest =~= seq![t] + (ts + rest));
        }
    }
}

/// Before the blank that ends `a`, runs in `a + " " + b` are those of `a`.
proof fn lemma_runs_before_blank(a: Seq<char>, b: Seq<char>, k: int)
    requires
        0 <= k <= a.len(),
    ensures
        digit_run(a + seq![' '] + b, k) == digit_run(a, k),
        alnum_run(a + seq![' '] + b, k) == alnum_run(a, k),
    decreases a.len() - k,
{
    let s = a + seq![' '] + b;
    if k < a.len() {
        assert(s[k] == a[k]);
        lemma_runs_before_blank(a, b, k + 1);
    } else {
        assert(s[k] == ' ');
    }
}

/// Runs in `p + b` past `p` are those of `b`.
proof fn lemma_runs_after(p: Seq<char>, b: Seq<char>, j: int)
    requires
        0 <= j <= b.len(),
    ensures
        digit_run(p + b, p.len() + j) == digit_run(b, j),
        alnum_run(p + b, p.len() + j) == alnum_run(b, j),
    decreases b.len() - j,
{
    if j < b.len() {
        assert((p + b)[p.len() + j] == b[j]);
        lemma_runs_after(p, b, j + 1);
    }
}

/// Lexing `p + b` past `p` is lexing `b`.
proof fn lemma_lex_after(p: Seq<char>, b: Seq<char>, j: int)
    requires
        0 <= j <= b.len(),
    ensures
        lex_from(p + b, p.len() + j) == lex_from(b, j),
    decreases b.len() - j,
{
    let s = p + b;
    let m = p.len();
    if j < b.len() {
        assert(s[m + j] == b[j]);
        if j + 1 < b.len() {
            assert(s[m + j + 1] == b[j + 1]);
        }
        lemma_runs_after(p, b, j + 1);
        let c = b[j];
        if is_digit(c) {
            let k = j + 1 + digit_run(b, j + 1);
            lemma_digit_run_bound(b, j + 1);
            assert(s.subrange(m + j, m + k) =~= b.subrange(j, k));
            lemma_lex_after(p, b, k);
        } else if is_letter(c) {
            let k = j + 1 + alnum_run(b, j + 1);
            lemma_alnum_run_bound(b, j + 1);
            assert(s.subrange(m + j, m + k) =~= b.subrange(j, k));
            lemma_lex_after(p, b, k);
        } else {
            lemma_lex_after(p, b, j + 1);
            if j + 2 <= b.len() {
                lemma_lex_after(p, b, j + 2);
            }
        }
    }
}

/// Lexing `a + " " + b` from within `a` is lexing the rest of `a`, then from the blank on.
proof fn lemma_lex_before_blank(a: Seq<char>, b: Seq<char>, i: int)
    requires
        0 <= i <= a.len(),
    ensures
        lex_from(a + seq![' '] + b, i) == join_lexed(
            lex_from(a, i),
            lex_from(a + seq![' '] + b, a.len() as int),
        ),
    decreases a.len() - i,
{
    let s = a + seq![' '] + b;
    let n = a.len() as int;
    let tail = lex_from(s, n);
    if i == n {
        if let Ok(rest) = tail {
            assert(Seq::<TokenV>::empty() + rest =~= rest);
        }
    } else {
        assert(s[i] == a[i]);
        if i + 1 < n {
            assert(s[i + 1] == a[i + 1]);
        } else {
            assert(s[i + 1] == ' ');
        }
        lemma_runs_before_blank(a, b, i + 1);
        let c = a[i];
        if is_digit(c) {
            let k = i + 1 + digit_run(a, i + 1);
            lemma_digit_run_bound(a, i + 1);
            assert(s.subrange(i, k) =~= a.subrange(i, k));
            lemma_lex_before_blank(a, b, k);
            lemma_join_cons(TokenV::Constant(a.subrange(i, k)), lex_from(a, k), tail);
        } else if is_letter(c) {
            let k = i + 1 + alnum_run(a, i + 1);
            lemma_alnum_run_bound(a, i + 1);
            assert(s.subrange(i, k) =~= a.subrange(i, k));
            lemma_lex_before_blank(a, b, k);
            lemma_join_cons(word_token(a.subrange(i, k)), lex_from(a, k), tail);
        } else if is_blank(c) {
            lemma_lex_before_blank(a, b, i + 1);
        } else if single_token(c) is Some {
            lemma_lex_before_blank(a, b, i + 1);
            lemma_join_cons(single_token(c)->0, lex_from(a, i + 1), tail);
        } else if let Some((alone, with_eq)) = comparison_tokens(c) {
            if i + 1 < n && a[i + 1] == '=' {
                lemma_lex_before_blank(a, b, i + 2);
                lemma_join_cons(with_eq, lex_from(a, i + 2), tail);
            } else {
                lemma_lex_before_blank(a, b, i + 1);
                lemma_join_cons(alone, lex_from(a, i + 1), tail);
            }
        } else if doubled_token(c) is Some {
            if i + 1 < n && a[i + 1] == c {
                lemma_lex_before_blank(a, b, i + 2);
                lemma_join_cons(doubled_token(c)->0, lex_from(a, i + 2), tail);
            }
        }
    }
}

/// Lexing two texts joined by a blank gives the tokens of the first followed by those of the
/// second; when either fails, the joined text fails with the first error met.
pub proof fn lemma_lex_concat(a: Seq<char>, b: Seq<char>)
    ensures
        lex_spec(a + seq![' '] + b) == join_lexed(lex_spec(a), lex_spec(b)),
{
    let s = a + seq![' '] + b;
    lemma_lex_before_blank(a, b, 0);
    assert(s[a.len() as int] == ' ');
    lemma_lex_after(a + seq![' '], b, 0);
    assert(lex_from(s, a.len() as int) == lex_from(s, a.len() + 1int));
}

/// Text made of word characters only, as identifiers are.
pub open spec fn is_identifier_text(name: Seq<char>) -> bool {
    forall|k: int| 0 <= k < name.len() ==> is_alphanumeric(#[trigger] name[k])
}

/// Every character of a run of word characters is one.
proof fn lemma_alnum_run_chars(s: Seq<char>, i: int)
    requires
        0 <= i <= s.len(),
    ensures
        forall|m: int| i <= m < i + alnum_run(s, i) ==> is_alphanumeric(#[trigger] s[m]),
    decreases s.len() - i,
{
    if i < s.len() && is_alphanumeric(s[i]) {
        lemma_alnum_run_chars(s, i + 1);
    }
}

/// Every identifier that lexing yields is identifier text.
pub proof fn lemma_lexed_identifiers(s: Seq<char>, i: int)
    requires
        0 <= i,
        lex_from(s, i) is Ok,
    ensures
        forall|k: int|
            0 <= k < lex_from(s, i)->Ok_0.len() ==> (#[trigger] lex_from(s, i)->Ok_0[k] matches TokenV::Identifier(w)
                ==> is_identifier_text(w)),
    decreases s.len() - i,
{
    if i < s.len() {
        let c = s[i];
        let ts = lex_from(s, i)->Ok_0;
        if is_digit(c) {
            let j = i + 1 + digit_run(s, i + 1);
            lemma_digit_run_bound(s, i + 1);
            lemma_lexed_identifiers(s, j);
            assert forall|k: int| 0 <= k < ts.len() implies (#[trigger] ts[k] matches TokenV::Identifier(w)
                ==> is_identifier_text(w)) by {
                if k > 0 {
                    assert(ts[k] == lex_from(s, j)->Ok_0[k - 1]);
                }
            }
        } else if is_letter(c) {
            let j = i + 1 + alnum_run(s, i + 1);
            lemma_alnum_run_bound(s, i + 1);
            lemma_alnum_run_chars(s, i + 1);
            lemma_lexed_identifiers(s, j);
            let w = s.subrange(i, j);
            assert(is_identifier_text(w)) by {
                assert forall|m: int| 0 <= m < w.len() implies is_alphanumeric(#[trigger] w[m]) by {
                    assert(w[m] == s[i + m]);
                }
            }
            assert forall|k: int| 0 <= k < ts.len() implies (#[trigger] ts[k] matches TokenV::Identifier(v)
                ==> is_identifier_text(v)) by {
                if k > 0 {
                    assert(ts[k] == lex_from(s, j)->Ok_0[k - 1]);
                }
            }
        } else if is_blank(c) {
            lemma_lexed_identifiers(s, i + 1);
        } else {
            let step: int = if comparison_tokens(c) is Some && i + 1 < s.len() && s[i + 1] == '=' {
                2
            } else if doubled_token(c) is Some {
                2
            } else {
                1
            };
            lemma_lexed_identifiers(s, i + step);
            assert forall|k: int| 0 <= k < ts.len() implies (#[trigger] ts[k] matches TokenV::Identifier(w)
                ==> is_identifier_text(w)) by {
                if k > 0 {
                    assert(ts[k] == lex_from(s, i + step)->Ok_0[k - 1]);
                }
            }
        }
    }
}

} // verus!
