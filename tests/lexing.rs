use unicc::lexer::{lex, LexError, Token};

fn ident(s: &str) -> Token {
    Token::Identifier(s.to_string())
}

fn keyword(s: &str) -> Token {
    Token::Keyword(s.to_string())
}

fn constant(s: &str) -> Token {
    Token::Constant(s.to_string())
}

#[test]
fn lexes_a_whole_function() {
    let tokens = lex("int main() {\n\treturn 42;\n}").unwrap();
    assert_eq!(
        tokens,
        vec![
            keyword("int"),
            ident("main"),
            Token::LeftParen,
            Token::RightParen,
            Token::LeftBrace,
            keyword("return"),
            constant("42"),
            Token::Semicolon,
            Token::RightBrace,
        ]
    );
}

#[test]
fn keywords_are_whole_words() {
    let tokens = lex("int integer returns return x1 A9b").unwrap();
    assert_eq!(
        tokens,
        vec![keyword("int"), ident("integer"), ident("returns"), keyword("return"), ident("x1"), ident("A9b")]
    );
}

#[test]
fn digits_then_letters_split() {
    let tokens = lex("12ab").unwrap();
    assert_eq!(tokens, vec![constant("12"), ident("ab")]);
}

#[test]
fn single_character_punctuation() {
    let tokens = lex("(){};+*/-~").unwrap();
    assert_eq!(
        tokens,
        vec![
            Token::LeftParen,
            Token::RightParen,
            Token::LeftBrace,
            Token::RightBrace,
            Token::Semicolon,
            Token::Plus,
            Token::Times,
            Token::Divide,
            Token::Minus,
            Token::BitwiseNot,
        ]
    );
}

#[test]
fn two_character_operators() {
    let tokens = lex("! != < <= > >= = == || &&").unwrap();
    assert_eq!(
        tokens,
        vec![
            Token::LogicNot,
            Token::NEQ,
            Token::LT,
            Token::LE,
            Token::GT,
            Token::GE,
            Token::Assign,
            Token::EQ,
            Token::LogicOr,
            Token::LogicAnd,
        ]
    );
}

#[test]
fn operators_without_spaces() {
    let tokens = lex("a<=b==!c").unwrap();
    assert_eq!(tokens, vec![ident("a"), Token::LE, ident("b"), Token::EQ, Token::LogicNot, ident("c")]);
}

#[test]
fn operator_at_end_of_text() {
    assert_eq!(lex("!").unwrap(), vec![Token::LogicNot]);
    assert_eq!(lex("<").unwrap(), vec![Token::LT]);
    assert_eq!(lex("=").unwrap(), vec![Token::Assign]);
}

#[test]
fn empty_and_blank_text_have_no_tokens() {
    assert_eq!(lex("").unwrap(), vec![]);
    assert_eq!(lex(" \t\n ").unwrap(), vec![]);
}

#[test]
fn unexpected_character_fails() {
    assert_eq!(lex("int a = 3 @ 4;"), Err(LexError::UnexpectedCharacter('@')));
    assert_eq!(lex("x_y"), Err(LexError::UnexpectedCharacter('_')));
}

#[test]
fn lone_bar_or_ampersand_fails() {
    assert_eq!(lex("a | b"), Err(LexError::IncompleteOperator('|')));
    assert_eq!(lex("a & b"), Err(LexError::IncompleteOperator('&')));
    assert_eq!(lex("a |"), Err(LexError::IncompleteOperator('|')));
}

#[test]
fn first_error_is_reported() {
    assert_eq!(lex("| @"), Err(LexError::IncompleteOperator('|')));
    assert_eq!(lex("@ |"), Err(LexError::UnexpectedCharacter('@')));
}

#[test]
fn lexing_joined_text_concatenates_tokens() {
    let a = "int x = 1 <";
    let b = "= 2 || y";
    let joined = format!("{} {}", a, b);
    let mut expected = lex(a).unwrap();
    expected.extend(lex(b).unwrap());
    assert_eq!(lex(&joined).unwrap(), expected);
}

#[test]
fn lexing_joined_text_fails_with_first_error() {
    assert_eq!(lex(&format!("{} {}", "a &", "@")), Err(LexError::IncompleteOperator('&')));
    assert_eq!(lex(&format!("{} {}", "a", "#")), Err(LexError::UnexpectedCharacter('#')));
}

#[test]
fn identifiers_continue_over_unicode_alphanumerics() {
    assert_eq!(lex("aé + x²").unwrap(), vec![ident("aé"), Token::Plus, ident("x²")]);
    assert_eq!(lex("b1ü;").unwrap(), vec![ident("b1ü"), Token::Semicolon]);
}

#[test]
fn identifiers_stop_at_unicode_punctuation() {
    assert_eq!(lex("a«"), Err(LexError::UnexpectedCharacter('«')));
}

#[test]
fn identifiers_start_with_an_ascii_letter() {
    assert_eq!(lex("é"), Err(LexError::UnexpectedCharacter('é')));
}
