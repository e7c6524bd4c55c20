//! Tokens to a syntax tree, by recursive descent with precedence climbing.
use vstd::prelude::*;

pub use crate::ast::{
    BinaryOperator, Expression, FunctionDeclaration, Program, Statement, UnaryOperator,
};
use crate::ast::{functions_view, statements_view, ExprV, FunctionV, StmtV};
use crate::lexer::{is_digit, text_chars, tokens_view, Token, TokenV};

verus! {

/// Why parsing stopped. Positions are indices into the token sequence.
#[derive(Debug, Clone, Copy, PartialEq, Eq, Structural)]
pub enum ParseError {
    /// The tokens ran out where more were required.
    UnexpectedEnd,
    /// The token at this index does not fit the grammar there.
    UnexpectedToken(usize),
    /// The function's return type at this index is not `int`.
    InvalidReturnType(usize),
    /// A statement starts with a keyword that has no statement form.
    UnsupportedKeyword(usize),
    /// The constant at this index is not a decimal number that fits `i32`.
    InvalidConstant(usize),
}

/// A parse outcome: the value and the number of tokens it took.
pub type Parsed<T> = Result<(T, nat), ParseError>;

/// Tokens left from position `p` on, as a termination measure.
pub open spec fn left_from(t: Seq<TokenV>, p: nat) -> nat {
    if p <= t.len() {
        (t.len() - p) as nat
    } else {
        0
    }
}

/// Adds `d` to the count of tokens taken.
pub open spec fn shifted<T>(r: Parsed<T>, d: nat) -> Parsed<T> {
    match r {
        Ok((v, k)) => Ok((v, k + d)),
        Err(e) => Err(e),
    }
}

pub open spec fn digit_value(c: char) -> nat {
    (c as nat - '0' as nat) as nat
}

/// The number that a sequence of decimal digits denotes.
pub open spec fn digits_value(d: Seq<char>) -> nat
    decreases d.len(),
{
    if d.len() == 0 {
        0
    } else {
        digits_value(d.drop_last()) * 10 + digit_value(d.last())
    }
}

/// The `i32` that a constant's text denotes, if it is one.
pub open spec fn constant_value(d: Seq<char>) -> Option<i32> {
    if d.len() > 0 && (forall|i: int| 0 <= i < d.len() ==> is_digit(#[trigger] d[i]))
        && digits_value(d) <= i32::MAX {
        Some(digits_value(d) as i32)
    } else {
        None
    }
}

/// The binary operator that a token stands for, if any.
pub open spec fn binary_operator_of(t: TokenV) -> Option<BinaryOperator> {
    match t {
        TokenV::Plus => Some(BinaryOperator::Plus),
        TokenV::Minus => Some(BinaryOperator::Minus),
        TokenV::Times => Some(BinaryOperator::Times),
        TokenV::Divide => Some(BinaryOperator::Divide),
        TokenV::LogicAnd => Some(BinaryOperator::LogicAnd),
        TokenV::LogicOr => Some(BinaryOperator::LogicOr),
        TokenV::EQ => Some(BinaryOperator::EQ),
        TokenV::NEQ => Some(BinaryOperator::NEQ),
        TokenV::LT => Some(BinaryOperator::LT),
        TokenV::GT => Some(BinaryOperator::GT),
        TokenV::LE => Some(BinaryOperator::LE),
        TokenV::GE => Some(BinaryOperator::GE),
        TokenV::Assign => Some(BinaryOperator::Assign),
        _ => None,
    }
}

/// Binding strength of each binary operator: assignment binds loosest, `*` and `/` tightest.
pub open spec fn precedence(op: BinaryOperator) -> nat {
    match op {
        BinaryOperator::Assign => 0,
        BinaryOperator::LogicOr => 1,
        BinaryOperator::LogicAnd => 2,
        BinaryOperator::EQ | BinaryOperator::NEQ => 3,
        BinaryOperator::LT | BinaryOperator::GT | BinaryOperator::LE | BinaryOperator::GE => 4,
        BinaryOperator::Plus | BinaryOperator::Minus => 5,
        BinaryOperator::Times | BinaryOperator::Divide => 6,
    }
}

/// The left-associative operator of precedence `level` that token `t` stands for, if any.
pub open spec fn level_operator(level: nat, t: TokenV) -> Option<BinaryOperator> {
    match binary_operator_of(t) {
        Some(op) => if 1 <= level && precedence(op) == level {
            Some(op)
        } else {
            None
        },
        None => None,
    }
}

/// The unary operator that a token stands for, if any.
pub open spec fn unary_operator_of(t: TokenV) -> Option<UnaryOperator> {
    match t {
        TokenV::Minus => Some(UnaryOperator::Negation),
        TokenV::LogicNot => Some(UnaryOperator::LogicNot),
        TokenV::BitwiseNot => Some(UnaryOperator::BitwiseNot),
        _ => None,
    }
}

/// Requires token `want` at position `p`.
pub open spec fn expect_spec(t: Seq<TokenV>, p: nat, want: TokenV) -> Result<(), ParseError> {
    if p >= t.len() {
        Err(ParseError::UnexpectedEnd)
    } else if t[p as int] == want {
        Ok(())
    } else {
        Err(ParseError::UnexpectedToken(p as usize))
    }
}

pub open spec fn level_rank(level: nat) -> int {
    if level >= 6 {
        0
    } else {
        2 * (6 - level)
    }
}

/// `expr := logic_or [ "=" expr ]`: assignment, right-associative, loosest.
pub open spec fn spec_expr(t: Seq<TokenV>, p: nat) -> Parsed<ExprV>
    decreases left_from(t, p), 16int,
{
    match spec_binary(t, p, 1) {
        Err(e) => Err(e),
        Ok((lhs, k)) => if p + k < t.len() && t[(p + k) as int] == TokenV::Assign {
            match spec_expr(t, p + k + 1) {
                Err(e) => Err(e),
                Ok((rhs, k2)) => Ok(
                    (ExprV::Binary(Box::new(lhs), BinaryOperator::Assign, Box::new(rhs)), k + 1 + k2),
                ),
            }
        } else {
            Ok((lhs, k))
        },
    }
}

/// One precedence level: `operand ( op operand )*`, grouped to the left.
pub open spec fn spec_binary(t: Seq<TokenV>, p: nat, level: nat) -> Parsed<ExprV>
    decreases left_from(t, p), 3 + level_rank(level),
{
    match spec_operand(t, p, level) {
        Err(e) => Err(e),
        Ok((lhs, k)) => shifted(spec_binary_rest(t, lhs, p + k, level), k),
    }
}

/// The operand of level `level`: the next tighter level, or a factor below the tightest.
pub open spec fn spec_operand(t: Seq<TokenV>, p: nat, level: nat) -> Parsed<ExprV>
    decreases left_from(t, p), 2 + level_rank(level),
{
    if level >= 6 {
        spec_factor(t, p)
    } else {
        spec_binary(t, p, level + 1)
    }
}

/// The repetition `( op operand )*` of level `level`, after `lhs`.
pub open spec fn spec_binary_rest(t: Seq<TokenV>, lhs: ExprV, p: nat, level: nat) -> Parsed<ExprV>
    decreases left_from(t, p), 1int,
{
    if p < t.len() && level_operator(level, t[p as int]) is Some {
        let op = level_operator(level, t[p as int])->0;
        match spec_operand(t, p + 1, level) {
            Err(e) => Err(e),
            Ok((rhs, k)) => shifted(
                spec_binary_rest(t, ExprV::Binary(Box::new(lhs), op, Box::new(rhs)), p + 1 + k, level),
                1 + k,
            ),
        }
    } else {
        Ok((lhs, 0))
    }
}

/// `factor := INT | IDENT | "(" expr ")" | ("-" | "!" | "~") factor`.
pub open spec fn spec_factor(t: Seq<TokenV>, p: nat) -> Parsed<ExprV>
    decreases left_from(t, p), 0int,
{
    if p >= t.len() {
        Err(ParseError::UnexpectedEnd)
    } else {
        match t[p as int] {
            TokenV::Constant(d) => match constant_value(d) {
                Some(v) => Ok((ExprV::Int(v), 1)),
                None => Err(ParseError::InvalidConstant(p as usize)),
            },
            TokenV::Identifier(name) => Ok((ExprV::Variable(name), 1)),
            TokenV::LeftParen => match spec_expr(t, p + 1) {
                Err(e) => Err(e),
                Ok((e, k)) => match expect_spec(t, p + 1 + k, TokenV::RightParen) {
                    Err(err) => Err(err),
                    Ok(_) => Ok((e, k + 2)),
                },
            },
            _ => if unary_operator_of(t[p as int]) is Some {
                match spec_factor(t, p + 1) {
                    Err(e) => Err(e),
                    Ok((e, k)) => Ok(
                        (ExprV::Unary(unary_operator_of(t[p as int])->0, Box::new(e)), k + 1),
                    ),
                }
            } else {
                Err(ParseError::UnexpectedToken(p as usize))
            },
        }
    }
}

/// `expr ";"`: the expression, and the tokens taken with the semicolon.
pub open spec fn spec_expr_semicolon(t: Seq<TokenV>, p: nat) -> Parsed<ExprV> {
    match spec_expr(t, p) {
        Err(e) => Err(e),
        Ok((e, k)) => match expect_spec(t, p + k, TokenV::Semicolon) {
            Err(err) => Err(err),
            Ok(_) => Ok((e, k + 1)),
        },
    }
}

/// `statement := "return" expr ";" | "int" IDENT [ "=" expr ] ";" | expr ";"`.
pub open spec fn spec_statement(t: Seq<TokenV>, p: nat) -> Parsed<StmtV> {
    if p >= t.len() {
        Err(ParseError::UnexpectedEnd)
    } else {
        match t[p as int] {
            TokenV::Keyword(kw) => if kw == "return"@ {
                match spec_expr_semicolon(t, p + 1) {
                    Err(e) => Err(e),
                    Ok((e, k)) => Ok((StmtV::Return(e), k + 1)),
                }
            } else if kw == "int"@ {
                if p + 1 >= t.len() {
                    Err(ParseError::UnexpectedEnd)
                } else {
                    match t[p + 1int] {
                        TokenV::Identifier(name) => if p + 2 < t.len() && t[p + 2int] == TokenV::Assign {
                            match spec_expr_semicolon(t, p + 3) {
                                Err(e) => Err(e),
                                Ok((e, k)) => Ok((StmtV::Declare(name, Some(e)), k + 3)),
                            }
                        } else {
                            match expect_spec(t, p + 2, TokenV::Semicolon) {
                                Err(e) => Err(e),
                                Ok(_) => Ok((StmtV::Declare(name, None), 3)),
                            }
                        },
                        _ => Err(ParseError::UnexpectedToken((p + 1) as usize)),
                    }
                }
            } else {
                Err(ParseError::UnsupportedKeyword(p as usize))
            },
            _ => match spec_expr_semicolon(t, p) {
                Err(e) => Err(e),
                Ok((e, k)) => Ok((StmtV::Expression(e), k)),
            },
        }
    }
}

/// A statement takes at least one token.
pub proof fn lemma_statement_takes_tokens(t: Seq<TokenV>, p: nat)
    ensures
        spec_statement(t, p) matches Ok((_, k)) ==> k >= 1,
{
}

/// `statement*`, up to a `}` or the end of the tokens.
pub open spec fn spec_statements(t: Seq<TokenV>, p: nat) -> Parsed<Seq<StmtV>>
    decreases left_from(t, p),
{
    if p >= t.len() || t[p as int] == TokenV::RightBrace {
        Ok((seq![], 0))
    } else {
        match spec_statement(t, p) {
            Err(e) => Err(e),
            Ok((s, k)) => {
                proof {
                    lemma_statement_takes_tokens(t, p);
                }
                match spec_statements(t, p + k) {
                    Err(e) => Err(e),
                    Ok((rest, k2)) => Ok((seq![s] + rest, k + k2)),
                }
            },
        }
    }
}

/// `function_decl := "int" IDENT "(" ")" "{" statement* "}"`.
pub open spec fn spec_function(t: Seq<TokenV>, p: nat) -> Parsed<FunctionV> {
    if p >= t.len() {
        Err(ParseError::UnexpectedEnd)
    } else if t[p as int] != TokenV::Keyword("int"@) {
        Err(ParseError::InvalidReturnType(p as usize))
    } else if p + 1 >= t.len() {
        Err(ParseError::UnexpectedEnd)
    } else {
        match t[p + 1int] {
            TokenV::Identifier(name) => match expect_spec(t, p + 2, TokenV::LeftParen) {
                Err(e) => Err(e),
                Ok(_) => match expect_spec(t, p + 3, TokenV::RightParen) {
                    Err(e) => Err(e),
                    Ok(_) => match expect_spec(t, p + 4, TokenV::LeftBrace) {
                        Err(e) => Err(e),
                        Ok(_) => match spec_statements(t, p + 5) {
                            Err(e) => Err(e),
                            Ok((body, k)) => match expect_spec(t, p + 5 + k, TokenV::RightBrace) {
                                Err(e) => Err(e),
                                Ok(_) => Ok(
                                    (FunctionV { return_type: "int"@, name, body }, k + 6),
                                ),
                            },
                        },
                    },
                },
            },
            _ => Err(ParseError::UnexpectedToken((p + 1) as usize)),
        }
    }
}

/// A function definition takes at least one token.
pub proof fn lemma_function_takes_tokens(t: Seq<TokenV>, p: nat)
    ensures
        spec_function(t, p) matches Ok((_, k)) ==> k >= 1,
{
}

/// `function_decl+`, to the end of the tokens.
pub open spec fn spec_functions(t: Seq<TokenV>, p: nat) -> Result<Seq<FunctionV>, ParseError>
    decreases left_from(t, p),
{
    match spec_function(t, p) {
        Err(e) => Err(e),
        Ok((f, k)) => {
            proof {
                lemma_function_takes_tokens(t, p);
            }
            if p + k >= t.len() {
                Ok(seq![f])
            } else {
                match spec_functions(t, p + k) {
                    Err(e) => Err(e),
                    Ok(rest) => Ok(seq![f] + rest),
                }
            }
        },
    }
}

/// The program that a token sequence spells.
pub open spec fn spec_program(t: Seq<TokenV>) -> Result<Seq<FunctionV>, ParseError> {
    spec_functions(t, 0)
}

/// What an executable parse outcome means: the expression's view and the tokens taken.
pub open spec fn expr_outcome(r: Result<(Expression, usize), ParseError>, pos: usize) -> Parsed<
    ExprV,
> {
    match r {
        Ok((e, q)) => Ok((e@, (q - pos) as nat)),
        Err(err) => Err(err),
    }
}

pub open spec fn stmt_outcome(r: Result<(Statement, usize), ParseError>, pos: usize) -> Parsed<
    StmtV,
> {
    match r {
        Ok((s, q)) => Ok((s@, (q - pos) as nat)),
        Err(err) => Err(err),
    }
}

proof fn lemma_shifted_twice(r: Parsed<ExprV>, a: nat, b: nat)
    ensures
        shifted(shifted(r, a), b) == shifted(r, a + b),
{
}

/// A decimal constant's value; `None` when it has a non-digit or does not fit `i32`.
fn parse_constant(digits: &String) -> (r: Option<i32>)
    ensures
        r == constant_value(digits@),
{
    let chars = text_chars(digits.as_str());
    let ghost d = digits@;
    if chars.len() == 0 {
        return None;
    }
    let mut value: i64 = 0;
    let mut i: usize = 0;
    while i < chars.len()
        invariant
            chars@ == d,
            d == digits@,
            0 < d.len(),
            i <= d.len(),
            forall|j: int| 0 <= j < i ==> is_digit(#[trigger] d[j]),
            value == digits_value(d.take(i as int)),
            value <= i32::MAX,
        decreases d.len() - i,
    {
        let c = chars[i];
        if !('0' <= c && c <= '9') {
            assert(!is_digit(d[i as int]));
            return None;
        }
        assert(d.take(i + 1).drop_last() =~= d.take(i as int));
        value = value * 10 + (c as u32 - '0' as u32) as i64;
        i += 1;
        if value > i32::MAX as i64 {
            proof {
                if forall|j: int| 0 <= j < d.len() ==> is_digit(#[trigger] d[j]) {
                    lemma_digits_value_prefix(d, i as int);
                }
            }
            return None;
        }
    }
    assert(d.take(i as int) =~= d);
    Some(value as i32)
}

/// The value of all-digit text is at least that of any of its prefixes.
proof fn lemma_digits_value_prefix(d: Seq<char>, i: int)
    requires
        0 <= i <= d.len(),
        forall|j: int| 0 <= j < d.len() ==> is_digit(#[trigger] d[j]),
    ensures
        digits_value(d.take(i)) <= digits_value(d),
    decreases d.len(),
{
    if i < d.len() {
        assert(d.drop_last().take(i) =~= d.take(i));
        assert forall|j: int| 0 <= j < d.drop_last().len() implies is_digit(
            #[trigger] d.drop_last()[j],
        ) by {
            assert(d.drop_last()[j] == d[j]);
        }
        lemma_digits_value_prefix(d.drop_last(), i);
    } else {
        assert(d.take(i) =~= d);
    }
}

/// Whether a token stands for a binary operator.
fn is_binary_operator(token: &Token) -> (r: bool)
    ensures
        r == (binary_operator_of(token@) is Some),
{
    match token {
        Token::Plus | Token::Minus | Token::Times | Token::Divide | Token::LogicAnd | Token::LogicOr | Token::EQ | Token::NEQ | Token::LT | Token::GT | Token::LE | Token::GE | Token::Assign => true,
        _ => false,
    }
}

/// The binary operator that an operator token stands for.
fn token_to_binary_operator(token: &Token) -> (r: BinaryOperator)
    requires
        binary_operator_of(token@) is Some,
    ensures
        Some(r) == binary_operator_of(token@),
{
    match token {
        Token::Plus => BinaryOperator::Plus,
        Token::Minus => BinaryOperator::Minus,
        Token::Times => BinaryOperator::Times,
        Token::Divide => BinaryOperator::Divide,
        Token::LogicAnd => BinaryOperator::LogicAnd,
        Token::LogicOr => BinaryOperator::LogicOr,
        Token::EQ => BinaryOperator::EQ,
        Token::NEQ => BinaryOperator::NEQ,
        Token::LT => BinaryOperator::LT,
        Token::GT => BinaryOperator::GT,
        Token::LE => BinaryOperator::LE,
        Token::GE => BinaryOperator::GE,
        Token::Assign => BinaryOperator::Assign,
        // Not reached: only operator tokens are admitted.
        _ => BinaryOperator::Assign,
    }
}

fn precedence_of(op: BinaryOperator) -> (r: usize)
    ensures
        r == precedence(op),
{
    match op {
        BinaryOperator::Assign => 0,
        BinaryOperator::LogicOr => 1,
        BinaryOperator::LogicAnd => 2,
        BinaryOperator::EQ | BinaryOperator::NEQ => 3,
        BinaryOperator::LT | BinaryOperator::GT | BinaryOperator::LE | BinaryOperator::GE => 4,
        BinaryOperator::Plus | BinaryOperator::Minus => 5,
        BinaryOperator::Times | BinaryOperator::Divide => 6,
    }
}

/// Requires `expected` at position `pos`.
fn expect_token(tokens: &Vec<Token>, pos: usize, expected: Token) -> (r: Result<(), ParseError>)
    ensures
        r == expect_spec(tokens_view(tokens@), pos as nat, expected@),
        r is Ok ==> pos < tokens.len(),
{
    if pos >= tokens.len() {
        Err(ParseError::UnexpectedEnd)
    } else if tokens[pos] == expected {
        Ok(())
    } else {
        Err(ParseError::UnexpectedToken(pos))
    }
}

fn parse_expression(tokens: &Vec<Token>, pos: usize) -> (r: Result<(Expression, usize), ParseError>)
    requires
        pos <= tokens@.len(),
    ensures
        expr_outcome(r, pos) == spec_expr(tokens_view(tokens@), pos as nat),
        r matches Ok((_, q)) ==> pos < q <= tokens@.len(),
    decreases tokens@.len() - pos, 16int,
{
    let ghost t = tokens_view(tokens@);
    match parse_binary_level(tokens, pos, 1) {
        Err(e) => Err(e),
        Ok((left, q)) => {
            if q < tokens.len() && tokens[q] == Token::Assign {
                match parse_expression(tokens, q + 1) {
                    Err(e) => Err(e),
                    Ok((right, q2)) => Ok(
                        (
                            Expression::BinaryOperation(
                                Box::new(left),
                                BinaryOperator::Assign,
                                Box::new(right),
                            ),
                            q2,
                        ),
                    ),
                }
            } else {
                Ok((left, q))
            }
        },
    }
}

/// One precedence level, `1 <= level <= 6`: operands joined by that level's operators, to the left.
fn parse_binary_level(tokens: &Vec<Token>, pos: usize, level: usize) -> (r: Result<
    (Expression, usize),
    ParseError,
>)
    requires
        pos <= tokens@.len(),
        1 <= level <= 6,
    ensures
        expr_outcome(r, pos) == spec_binary(tokens_view(tokens@), pos as nat, level as nat),
        r matches Ok((_, q)) ==> pos < q <= tokens@.len(),
    decreases tokens@.len() - pos, 3 + level_rank(level as nat),
{
    let ghost t = tokens_view(tokens@);
    let (mut left, mut cur) = match parse_operand(tokens, pos, level) {
        Err(e) => {
            return Err(e);
        },
        Ok(parsed) => parsed,
    };
    while cur < tokens.len()
        invariant
            pos < cur <= tokens@.len(),
            1 <= level <= 6,
            t == tokens_view(tokens@),
            spec_binary(t, pos as nat, level as nat) == shifted(
                spec_binary_rest(t, left@, cur as nat, level as nat),
                (cur - pos) as nat,
            ),
        decreases tokens@.len() - cur,
    {
        if !is_binary_operator(&tokens[cur]) {
            return Ok((left, cur));
        }
        let op = token_to_binary_operator(&tokens[cur]);
        if precedence_of(op) != level {
            return Ok((left, cur));
        }
        match parse_operand(tokens, cur + 1, level) {
            Err(e) => {
                return Err(e);
            },
            Ok((right, next)) => {
                let ghost before = left@;
                proof {
                    lemma_shifted_twice(
                        spec_binary_rest(
                            t,
                            ExprV::Binary(Box::new(before), op, Box::new(right@)),
                            next as nat,
                            level as nat,
                        ),
                        (next - cur) as nat,
                        (cur - pos) as nat,
                    );
                }
                left = Expression::BinaryOperation(Box::new(left), op, Box::new(right));
                cur = next;
            },
        }
    }
    Ok((left, cur))
}

fn parse_operand(tokens: &Vec<Token>, pos: usize, level: usize) -> (r: Result<
    (Expression, usize),
    ParseError,
>)
    requires
        pos <= tokens@.len(),
        1 <= level <= 6,
    ensures
        expr_outcome(r, pos) == spec_operand(tokens_view(tokens@), pos as nat, level as nat),
        r matches Ok((_, q)) ==> pos < q <= tokens@.len(),
    decreases tokens@.len() - pos, 2 + level_rank(level as nat),
{
    if level >= 6 {
        parse_factor(tokens, pos)
    } else {
        parse_binary_level(tokens, pos, level + 1)
    }
}

fn parse_factor(tokens: &Vec<Token>, pos: usize) -> (r: Result<(Expression, usize), ParseError>)
    requires
        pos <= tokens@.len(),
    ensures
        expr_outcome(r, pos) == spec_factor(tokens_view(tokens@), pos as nat),
        r matches Ok((_, q)) ==> pos < q <= tokens@.len(),
    decreases tokens@.len() - pos, 0int,
{
    let ghost t = tokens_view(tokens@);
    if pos >= tokens.len() {
        return Err(ParseError::UnexpectedEnd);
    }
    let unary = match &tokens[pos] {
        Token::Constant(digits) => {
            return match parse_constant(digits) {
                Some(v) => Ok((Expression::Int(v), pos + 1)),
                None => Err(ParseError::InvalidConstant(pos)),
            };
        },
        Token::Identifier(name) => {
            return Ok((Expression::Variable(name.clone()), pos + 1));
        },
        Token::LeftParen => {
            return match parse_expression(tokens, pos + 1) {
                Err(e) => Err(e),
                Ok((e, q)) => match expect_token(tokens, q, Token::RightParen) {
                    Err(err) => Err(err),
                    Ok(_) => Ok((e, q + 1)),
                },
            };
        },
        Token::Minus => UnaryOperator::Negation,
        Token::LogicNot => UnaryOperator::LogicNot,
        Token::BitwiseNot => UnaryOperator::BitwiseNot,
        _ => {
            return Err(ParseError::UnexpectedToken(pos));
        },
    };
    match parse_factor(tokens, pos + 1) {
        Err(e) => Err(e),
        Ok((e, q)) => Ok((Expression::UnaryOperation(unary, Box::new(e)), q)),
    }
}

/// `expr ";"` at `pos`: the expression and the position after the semicolon.
fn parse_expression_statement(tokens: &Vec<Token>, pos: usize) -> (r: Result<
    (Expression, usize),
    ParseError,
>)
    requires
        pos <= tokens@.len(),
    ensures
        expr_outcome(r, pos) == spec_expr_semicolon(tokens_view(tokens@), pos as nat),
        r matches Ok((_, q)) ==> pos < q <= tokens@.len(),
{
    match parse_expression(tokens, pos) {
        Err(e) => Err(e),
        Ok((e, q)) => {
            let semicolon = expect_token(tokens, q, Token::Semicolon);
            match semicolon {
                Err(err) => Err(err),
                Ok(_) => Ok((e, q + 1)),
            }
        },
    }
}

fn parse_statement(tokens: &Vec<Token>, pos: usize) -> (r: Result<(Statement, usize), ParseError>)
    requires
        pos <= tokens@.len(),
    ensures
        stmt_outcome(r, pos) == spec_statement(tokens_view(tokens@), pos as nat),
        r matches Ok((_, q)) ==> pos < q <= tokens@.len(),
{
    let ghost t = tokens_view(tokens@);
    if pos >= tokens.len() {
        return Err(ParseError::UnexpectedEnd);
    }
    match &tokens[pos] {
        Token::Keyword(kw) => {
            let return_kw = "return".to_owned();
            let int_kw = "int".to_owned();
            if *kw == return_kw {
                match parse_expression_statement(tokens, pos + 1) {
                    Err(e) => Err(e),
                    Ok((e, q)) => Ok((Statement::Return(e), q)),
                }
            } else if *kw == int_kw {
                if pos + 1 >= tokens.len() {
                    return Err(ParseError::UnexpectedEnd);
                }
                let name = match &tokens[pos + 1] {
                    Token::Identifier(name) => name.clone(),
                    _ => {
                        return Err(ParseError::UnexpectedToken(pos + 1));
                    },
                };
                if pos + 2 < tokens.len() && tokens[pos + 2] == Token::Assign {
                    match parse_expression_statement(tokens, pos + 3) {
                        Err(e) => Err(e),
                        Ok((e, q)) => Ok((Statement::Declare(name, Some(e)), q)),
                    }
                } else {
                    match expect_token(tokens, pos + 2, Token::Semicolon) {
                        Err(e) => Err(e),
                        Ok(_) => Ok((Statement::Declare(name, None), pos + 3)),
                    }
                }
            } else {
                Err(ParseError::UnsupportedKeyword(pos))
            }
        },
        _ => match parse_expression_statement(tokens, pos) {
            Err(e) => Err(e),
            Ok((e, q)) => Ok((Statement::Expression(e), q)),
        },
    }
}

/// `ss` in front of the statements of `r`, with `d` more tokens taken.
pub open spec fn prefixed_statements(ss: Seq<StmtV>, r: Parsed<Seq<StmtV>>, d: nat) -> Parsed<
    Seq<StmtV>,
> {
    match r {
        Ok((rest, k)) => Ok((ss + rest, k + d)),
        Err(e) => Err(e),
    }
}

proof fn lemma_prefixed_statements(
    ss: Seq<StmtV>,
    s: StmtV,
    r: Parsed<Seq<StmtV>>,
    d: nat,
    k: nat,
)
    ensures
        prefixed_statements(
            ss,
            match r {
                Err(e) => Err(e),
                Ok((rest, k2)) => Ok((seq![s] + rest, k + k2)),
            },
            d,
        ) == prefixed_statements(ss.push(s), r, d + k),
{
    if let Ok((rest, k2)) = r {
        assert(ss + (seq![s] + rest) =~= ss.push(s) + rest);
    }
}

/// Statements up to a `}` or the end of the tokens, and the position where they stop.
fn parse_statements(tokens: &Vec<Token>, pos: usize) -> (r: Result<
    (Vec<Statement>, usize),
    ParseError,
>)
    requires
        pos <= tokens@.len(),
    ensures
        match r {
            Ok((ss, q)) => pos <= q <= tokens@.len() && spec_statements(tokens_view(tokens@), pos as nat)
                == Ok::<(Seq<StmtV>, nat), ParseError>((statements_view(ss@), (q - pos) as nat)),
            Err(e) => spec_statements(tokens_view(tokens@), pos as nat) == Err::<
                (Seq<StmtV>, nat),
                ParseError,
            >(e),
        },
{
    let ghost t = tokens_view(tokens@);
    let mut statements: Vec<Statement> = Vec::new();
    let mut cur = pos;
    assert(prefixed_statements(statements_view(statements@), spec_statements(t, pos as nat), 0)
        == spec_statements(t, pos as nat)) by {
        if let Ok((rest, k)) = spec_statements(t, pos as nat) {
            assert(statements_view(statements@) + rest =~= rest);
        }
    }
    while cur < tokens.len() && !(tokens[cur] == Token::RightBrace)
        invariant
            pos <= cur <= tokens@.len(),
            t == tokens_view(tokens@),
            spec_statements(t, pos as nat) == prefixed_statements(
                statements_view(statements@),
                spec_statements(t, cur as nat),
                (cur - pos) as nat,
            ),
        decreases tokens@.len() - cur,
    {
        match parse_statement(tokens, cur) {
            Err(e) => {
                return Err(e);
            },
            Ok((stmt, next)) => {
                let ghost before = statements_view(statements@);
                proof {
                    lemma_prefixed_statements(
                        before,
                        stmt@,
                        spec_statements(t, next as nat),
                        (cur - pos) as nat,
                        (next - cur) as nat,
                    );
                }
                statements.push(stmt);
                assert(statements_view(statements@) =~= before.push(stmt@));
                cur = next;
            },
        }
    }
    assert(statements_view(statements@) + seq![] =~= statements_view(statements@));
    Ok((statements, cur))
}

fn parse_function_declaration(tokens: &Vec<Token>, pos: usize) -> (r: Result<
    (FunctionDeclaration, usize),
    ParseError,
>)
    requires
        pos <= tokens@.len(),
    ensures
        match r {
            Ok((f, q)) => pos < q <= tokens@.len() && spec_function(tokens_view(tokens@), pos as nat)
                == Ok::<(FunctionV, nat), ParseError>((f@, (q - pos) as nat)),
            Err(e) => spec_function(tokens_view(tokens@), pos as nat) == Err::<
                (FunctionV, nat),
                ParseError,
            >(e),
        },
{
    let ghost t = tokens_view(tokens@);
    if pos >= tokens.len() {
        return Err(ParseError::UnexpectedEnd);
    }
    let return_type = match &tokens[pos] {
        Token::Keyword(kw) => {
            let int_kw = "int".to_owned();
            if *kw == int_kw {
                kw.clone()
            } else {
                return Err(ParseError::InvalidReturnType(pos));
            }
        },
        _ => {
            return Err(ParseError::InvalidReturnType(pos));
        },
    };
    if pos + 1 >= tokens.len() {
        return Err(ParseError::UnexpectedEnd);
    }
    let name = match &tokens[pos + 1] {
        Token::Identifier(name) => name.clone(),
        _ => {
            return Err(ParseError::UnexpectedToken(pos + 1));
        },
    };
    if let Err(e) = expect_token(tokens, pos + 2, Token::LeftParen) {
        return Err(e);
    }
    if let Err(e) = expect_token(tokens, pos + 3, Token::RightParen) {
        return Err(e);
    }
    if let Err(e) = expect_token(tokens, pos + 4, Token::LeftBrace) {
        return Err(e);
    }
    let (body, q) = match parse_statements(tokens, pos + 5) {
        Err(e) => {
            return Err(e);
        },
        Ok(parsed) => parsed,
    };
    if let Err(e) = expect_token(tokens, q, Token::RightBrace) {
        return Err(e);
    }
    Ok((FunctionDeclaration { return_type, name, body }, q + 1))
}

/// `fs` in front of the functions of `r`.
pub open spec fn prefixed_functions(fs: Seq<FunctionV>, r: Result<Seq<FunctionV>, ParseError>) -> Result<
    Seq<FunctionV>,
    ParseError,
> {
    match r {
        Ok(rest) => Ok(fs + rest),
        Err(e) => Err(e),
    }
}

/// Parses a token sequence into a program of one or more function definitions that take
/// up all the tokens. Fails at the first token that does not fit the grammar.
pub fn parse(tokens: Vec<Token>) -> (r: Result<Program, ParseError>)
    ensures
        match r {
            Ok(p) => spec_program(tokens_view(tokens@)) == Ok::<Seq<FunctionV>, ParseError>(p@),
            Err(e) => spec_program(tokens_view(tokens@)) == Err::<Seq<FunctionV>, ParseError>(e),
        },
{
    let ghost t = tokens_view(tokens@);
    let mut declarations: Vec<FunctionDeclaration> = Vec::new();
    let mut cur: usize = 0;
    assert(prefixed_functions(functions_view(declarations@), spec_functions(t, 0)) == spec_functions(t, 0)) by {
        if let Ok(rest) = spec_functions(t, 0) {
            assert(functions_view(declarations@) + rest =~= rest);
        }
    }
    loop
        invariant
            cur <= tokens@.len(),
            t == tokens_view(tokens@),
            spec_program(t) == prefixed_functions(functions_view(declarations@), spec_functions(t, cur as nat)),
        decreases tokens@.len() - cur,
    {
        match parse_function_declaration(&tokens, cur) {
            Err(e) => {
                return Err(e);
            },
            Ok((f, next)) => {
                let ghost before = functions_view(declarations@);
                let ghost fv = f@;
                declarations.push(f);
                assert(functions_view(declarations@) =~= before.push(fv));
                if next >= tokens.len() {
                    assert(before + seq![fv] =~= before.push(fv));
                    return Ok(Program { declarations });
                }
                proof {
                    if let Ok(rest) = spec_functions(t, next as nat) {
                        assert(before + (seq![fv] + rest) =~= before.push(fv) + rest);
                    }
                }
                cur = next;
            },
        }
    }
}

/// Some token of `t` is the identifier `name`.
pub open spec fn names_identifier(t: Seq<TokenV>, name: Seq<char>) -> bool {
    exists|k: int| 0 <= k < t.len() && t[k] == TokenV::Identifier(name)
}

/// Every function that parsing yields is named by one of the identifier tokens.
pub proof fn lemma_function_names_are_identifiers(t: Seq<TokenV>, p: nat)
    requires
        spec_functions(t, p) is Ok,
    ensures
        forall|i: int|
            0 <= i < spec_functions(t, p)->Ok_0.len() ==> #[trigger] names_identifier(
                t,
                spec_functions(t, p)->Ok_0[i].name,
            ),
    decreases left_from(t, p),
{
    let fs = spec_functions(t, p)->Ok_0;
    let (f, k) = spec_function(t, p)->Ok_0;
    lemma_function_takes_tokens(t, p);
    assert(t[p + 1int] == TokenV::Identifier(f.name));
    assert(names_identifier(t, f.name));
    if p + k < t.len() {
        lemma_function_names_are_identifiers(t, p + k);
        let rest = spec_functions(t, p + k)->Ok_0;
        assert forall|i: int| 0 <= i < fs.len() implies #[trigger] names_identifier(t, fs[i].name) by {
            if i > 0 {
                assert(fs[i] == rest[i - 1]);
            }
        }
    }
}

} // verus!
