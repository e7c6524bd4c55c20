//! The abstract syntax tree and its mathematical form.
use vstd::prelude::*;

verus! {

/// A whole source file: its function definitions in order.
#[derive(Debug, PartialEq, Eq)]
pub struct Program {
    pub declarations: Vec<FunctionDeclaration>,
}

/// A function definition. Functions take no parameters.
#[derive(Debug, PartialEq, Eq)]
pub struct FunctionDeclaration {
    pub return_type: String,
    pub name: String,
    pub body: Vec<Statement>,
}

#[derive(Debug, PartialEq, Eq)]
pub enum Statement {
    Return(Expression),
    Declare(String, Option<Expression>),
    Expression(Expression),
}

#[derive(Debug, Clone, Copy, PartialEq, Eq, Structural)]
pub enum UnaryOperator {
    Negation,
    BitwiseNot,
    LogicNot,
}

#[derive(Debug, Clone, Copy, PartialEq, Eq, Structural)]
pub enum BinaryOperator {
    Plus,
    Minus,
    Times,
    Divide,
    LogicAnd,
    LogicOr,
    EQ,
    NEQ,
    LT,
    GT,
    LE,
    GE,
    Assign,
}

/// An expression tree; each node owns its children.
#[derive(Debug, PartialEq, Eq)]
pub enum Expression {
    Int(i32),
    Variable(String),
    UnaryOperation(UnaryOperator, Box<Expression>),
    BinaryOperation(Box<Expression>, BinaryOperator, Box<Expression>),
}

/// The mathematical form of an expression.
pub enum ExprV {
    Int(i32),
    Variable(Seq<char>),
    Unary(UnaryOperator, Box<ExprV>),
    Binary(Box<ExprV>, BinaryOperator, Box<ExprV>),
}

/// The mathematical form of a statement.
pub enum StmtV {
    Return(ExprV),
    Declare(Seq<char>, Option<ExprV>),
    Expression(ExprV),
}

/// The mathematical form of a function definition.
pub struct FunctionV {
    pub return_type: Seq<char>,
    pub name: Seq<char>,
    pub body: Seq<StmtV>,
}

pub open spec fn expr_view(e: &Expression) -> ExprV
    decreases e,
{
    match e {
        Expression::Int(n) => ExprV::Int(*n),
        Expression::Variable(name) => ExprV::Variable(name@),
        Expression::UnaryOperation(op, sub) => ExprV::Unary(*op, Box::new(expr_view(&**sub))),
        Expression::BinaryOperation(lhs, op, rhs) => ExprV::Binary(
            Box::new(expr_view(&**lhs)),
            *op,
            Box::new(expr_view(&**rhs)),
        ),
    }
}

impl View for Expression {
    type V = ExprV;

    open spec fn view(&self) -> ExprV {
        expr_view(self)
    }
}

impl View for Statement {
    type V = StmtV;

    open spec fn view(&self) -> StmtV {
        match self {
            Statement::Return(e) => StmtV::Return(e@),
            Statement::Declare(name, None) => StmtV::Declare(name@, None),
            Statement::Declare(name, Some(e)) => StmtV::Declare(name@, Some(e@)),
            Statement::Expression(e) => StmtV::Expression(e@),
        }
    }
}

pub open spec fn statements_view(ss: Seq<Statement>) -> Seq<StmtV> {
    ss.map_values(|s: Statement| s@)
}

impl View for FunctionDeclaration {
    type V = FunctionV;

    open spec fn view(&self) -> FunctionV {
        FunctionV {
            return_type: self.return_type@,
            name: self.name@,
            body: statements_view(self.body@),
        }
    }
}

pub open spec fn functions_view(fs: Seq<FunctionDeclaration>) -> Seq<FunctionV> {
    fs.map_values(|f: FunctionDeclaration| f@)
}

impl View for Program {
    type V = Seq<FunctionV>;

    open spec fn view(&self) -> Seq<FunctionV> {
        functions_view(self.declarations@)
    }
}

} // verus!
