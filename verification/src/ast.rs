//! The syntax tree.
use vstd::prelude::*;

use crate::position::Position;
use crate::tokens::FloatLiteral;

verus! {

#[derive(Debug, PartialEq)]
pub struct Node<T> {
    pub value: T,
    pub position: Position,
}

#[derive(Debug, PartialEq)]
pub enum Expression {
    // Boolean operations
    Alternative(Box<Node<Expression>>, Box<Node<Expression>>),
    Concatenation(Box<Node<Expression>>, Box<Node<Expression>>),
    // Relations
    Greater(Box<Node<Expression>>, Box<Node<Expression>>),
    GreaterEqual(Box<Node<Expression>>, Box<Node<Expression>>),
    Less(Box<Node<Expression>>, Box<Node<Expression>>),
    LessEqual(Box<Node<Expression>>, Box<Node<Expression>>),
    Equal(Box<Node<Expression>>, Box<Node<Expression>>),
    NotEqual(Box<Node<Expression>>, Box<Node<Expression>>),
    // Arithmetic operations
    Addition(Box<Node<Expression>>, Box<Node<Expression>>),
    Subtraction(Box<Node<Expression>>, Box<Node<Expression>>),
    Multiplication(Box<Node<Expression>>, Box<Node<Expression>>),
    Division(Box<Node<Expression>>, Box<Node<Expression>>),
    // Unary operations
    BooleanNegation(Box<Node<Expression>>),
    ArithmeticNegation(Box<Node<Expression>>),
    // Casting
    Casting { value: Box<Node<Expression>>, to_type: Node<Type> },
    // Values
    Literal(Literal),
    Variable(String),
    FunctionCall { identifier: Node<String>, arguments: Vec<Node<Argument>> },
}

#[derive(Debug, PartialEq)]
pub enum Literal {
    True,
    False,
    String(String),
    I64(i64),
    F64(FloatLiteral),
}

#[derive(Clone, PartialEq, Eq, Copy, Debug, Structural)]
pub enum Type {
    Bool,
    Str,
    I64,
    F64,
    Void,
}

/// How a type is named in messages.
pub open spec fn spec_type_text(t: Type) -> Seq<char> {
    match t {
        Type::Bool => "bool"@,
        Type::Str => "str"@,
        Type::I64 => "i64"@,
        Type::F64 => "f64"@,
        Type::Void => "void"@,
    }
}

impl Type {
    pub fn text(&self) -> (s: &'static str)
        ensures
            s@ == spec_type_text(*self),
    {
        match self {
            Type::Bool => "bool",
            Type::Str => "str",
            Type::I64 => "i64",
            Type::F64 => "f64",
            Type::Void => "void",
        }
    }
}

#[derive(Debug, Clone, Copy, PartialEq, Eq, Structural)]
pub enum PassedBy {
    Reference,
    Value,
}

pub open spec fn spec_passed_by_text(p: PassedBy) -> Seq<char> {
    match p {
        PassedBy::Reference => "Reference"@,
        PassedBy::Value => "Value"@,
    }
}

impl PassedBy {
    pub fn text(&self) -> (s: &'static str)
        ensures
            s@ == spec_passed_by_text(*self),
    {
        match self {
            PassedBy::Reference => "Reference",
            PassedBy::Value => "Value",
        }
    }
}

#[derive(Debug, PartialEq)]
pub struct Argument {
    pub value: Node<Expression>,
    pub passed_by: PassedBy,
}

#[derive(Debug, PartialEq)]
pub enum Statement {
    FunctionCall { identifier: Node<String>, arguments: Vec<Node<Argument>> },
    Declaration { var_type: Node<Type>, identifier: Node<String>, value: Option<Node<Expression>> },
    Assignment { identifier: Node<String>, value: Node<Expression> },
    Conditional { condition: Node<Expression>, if_block: Node<Block>, else_block: Option<Node<Block>> },
    ForLoop {
        declaration: Option<Box<Node<Statement>>>,
        condition: Node<Expression>,
        assignment: Option<Box<Node<Statement>>>,
        block: Node<Block>,
    },
    Switch { expressions: Vec<Node<SwitchExpression>>, cases: Vec<Node<SwitchCase>> },
    Return(Option<Node<Expression>>),
    Break,
}

#[derive(Debug, PartialEq)]
pub struct Parameter {
    pub passed_by: PassedBy,
    pub parameter_type: Node<Type>,
    pub identifier: Node<String>,
}

#[derive(Debug, PartialEq)]
pub struct FunctionDeclaration {
    pub identifier: Node<String>,
    pub parameters: Vec<Node<Parameter>>,
    pub return_type: Node<Type>,
    pub block: Node<Block>,
}

#[derive(Debug, PartialEq)]
pub struct SwitchExpression {
    pub expression: Node<Expression>,
    pub alias: Option<Node<String>>,
}

#[derive(Debug, PartialEq)]
pub struct SwitchCase {
    pub condition: Node<Expression>,
    pub block: Node<Block>,
}

#[derive(Debug, PartialEq)]
pub struct Block(pub Vec<Node<Statement>>);

/// A parsed program: the top-level statements and the user functions, whose
/// names are distinct and differ from those of the built-in functions.
#[derive(Debug, PartialEq)]
pub struct Program {
    pub statements: Vec<Node<Statement>>,
    pub functions: Vec<Node<FunctionDeclaration>>,
}

} // verus!
