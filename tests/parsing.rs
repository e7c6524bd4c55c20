use unicc::lexer::{lex, Token};
use unicc::parser::{
    parse, BinaryOperator, Expression, FunctionDeclaration, ParseError, Program, Statement,
    UnaryOperator,
};

fn parse_source(source: &str) -> Result<Program, ParseError> {
    parse(lex(source).unwrap())
}

fn body_of(source: &str) -> Vec<Statement> {
    let mut program = parse_source(source).unwrap();
    assert_eq!(program.declarations.len(), 1);
    program.declarations.remove(0).body
}

fn returned(expr: &str) -> Expression {
    let mut body = body_of(&format!("int main() {{ return {}; }}", expr));
    match body.remove(0) {
        Statement::Return(e) => e,
        other => panic!("not a return: {:?}", other),
    }
}

fn var(name: &str) -> Expression {
    Expression::Variable(name.to_string())
}

fn bin(l: Expression, op: BinaryOperator, r: Expression) -> Expression {
    Expression::BinaryOperation(Box::new(l), op, Box::new(r))
}

#[test]
fn parses_a_function() {
    let program = parse_source("int main() { int a = 1; a; return a; }").unwrap();
    assert_eq!(
        program,
        Program {
            declarations: vec![FunctionDeclaration {
                return_type: "int".to_string(),
                name: "main".to_string(),
                body: vec![
                    Statement::Declare("a".to_string(), Some(Expression::Int(1))),
                    Statement::Expression(var("a")),
                    Statement::Return(var("a")),
                ],
            }],
        }
    );
}

#[test]
fn declaration_without_initializer() {
    assert_eq!(body_of("int main() { int x; }"), vec![Statement::Declare("x".to_string(), None)]);
}

#[test]
fn empty_body() {
    assert_eq!(body_of("int main() { }"), vec![]);
}

#[test]
fn several_functions() {
    let program = parse_source("int f() { return 1; } int g() { return 2; }").unwrap();
    let names: Vec<&str> = program.declarations.iter().map(|f| f.name.as_str()).collect();
    assert_eq!(names, vec!["f", "g"]);
}

#[test]
fn tighter_operator_groups_first() {
    assert_eq!(returned("a + b * c"), bin(var("a"), BinaryOperator::Plus, bin(var("b"), BinaryOperator::Times, var("c"))));
    assert_eq!(returned("a || b && c"), bin(var("a"), BinaryOperator::LogicOr, bin(var("b"), BinaryOperator::LogicAnd, var("c"))));
    assert_eq!(returned("a == b < c"), bin(var("a"), BinaryOperator::EQ, bin(var("b"), BinaryOperator::LT, var("c"))));
    assert_eq!(returned("a < b - c"), bin(var("a"), BinaryOperator::LT, bin(var("b"), BinaryOperator::Minus, var("c"))));
    assert_eq!(returned("a && b != c"), bin(var("a"), BinaryOperator::LogicAnd, bin(var("b"), BinaryOperator::NEQ, var("c"))));
    assert_eq!(returned("a = b / c"), bin(var("a"), BinaryOperator::Assign, bin(var("b"), BinaryOperator::Divide, var("c"))));
    assert_eq!(returned("a * b + c"), bin(bin(var("a"), BinaryOperator::Times, var("b")), BinaryOperator::Plus, var("c")));
}

#[test]
fn same_level_groups_left() {
    assert_eq!(returned("a - b - c"), bin(bin(var("a"), BinaryOperator::Minus, var("b")), BinaryOperator::Minus, var("c")));
    assert_eq!(returned("a / b * c"), bin(bin(var("a"), BinaryOperator::Divide, var("b")), BinaryOperator::Times, var("c")));
    assert_eq!(returned("a <= b >= c"), bin(bin(var("a"), BinaryOperator::LE, var("b")), BinaryOperator::GE, var("c")));
}

#[test]
fn assignment_groups_right() {
    assert_eq!(returned("a = b = c"), bin(var("a"), BinaryOperator::Assign, bin(var("b"), BinaryOperator::Assign, var("c"))));
}

#[test]
fn parentheses_override_precedence() {
    assert_eq!(returned("(a + b) * c"), bin(bin(var("a"), BinaryOperator::Plus, var("b")), BinaryOperator::Times, var("c")));
}

#[test]
fn unary_operators_nest() {
    assert_eq!(
        returned("-~!5"),
        Expression::UnaryOperation(
            UnaryOperator::Negation,
            Box::new(Expression::UnaryOperation(
                UnaryOperator::BitwiseNot,
                Box::new(Expression::UnaryOperation(UnaryOperator::LogicNot, Box::new(Expression::Int(5)))),
            )),
        )
    );
    assert_eq!(returned("1 - -2"), bin(Expression::Int(1), BinaryOperator::Minus, Expression::UnaryOperation(UnaryOperator::Negation, Box::new(Expression::Int(2)))));
}

#[test]
fn largest_constant() {
    assert_eq!(returned("2147483647"), Expression::Int(2147483647));
}

#[test]
fn constant_out_of_range() {
    assert_eq!(parse_source("int main() { return 2147483648; }"), Err(ParseError::InvalidConstant(6)));
}

#[test]
fn empty_token_sequence() {
    assert_eq!(parse(vec![]), Err(ParseError::UnexpectedEnd));
}

#[test]
fn missing_semicolon() {
    assert_eq!(parse_source("int main() { return 1 }"), Err(ParseError::UnexpectedToken(7)));
}

#[test]
fn missing_closing_brace() {
    assert_eq!(parse_source("int main() { return 1;"), Err(ParseError::UnexpectedEnd));
}

#[test]
fn parameters_are_refused() {
    assert_eq!(parse_source("int main(x) { }"), Err(ParseError::UnexpectedToken(3)));
}

#[test]
fn return_type_must_be_int() {
    assert_eq!(parse_source("return main() { }"), Err(ParseError::InvalidReturnType(0)));
    assert_eq!(parse_source("main() { }"), Err(ParseError::InvalidReturnType(0)));
}

#[test]
fn function_name_must_be_identifier() {
    assert_eq!(parse_source("int 3() { }"), Err(ParseError::UnexpectedToken(1)));
}

#[test]
fn unsupported_keyword() {
    let tokens = vec![
        Token::Keyword("int".to_string()),
        Token::Identifier("main".to_string()),
        Token::LeftParen,
        Token::RightParen,
        Token::LeftBrace,
        Token::Keyword("while".to_string()),
        Token::RightBrace,
    ];
    assert_eq!(parse(tokens), Err(ParseError::UnsupportedKeyword(5)));
}

#[test]
fn factor_expected() {
    assert_eq!(parse_source("int main() { return * 2; }"), Err(ParseError::UnexpectedToken(6)));
}

#[test]
fn declaration_needs_a_name() {
    assert_eq!(parse_source("int main() { int 3; }"), Err(ParseError::UnexpectedToken(6)));
}
