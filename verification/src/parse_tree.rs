use vstd::prelude::*;

use crate::semantic_analysis::method_table::ReturnType;
use crate::utils::Span;

verus! {

/// A declared type: a class, or `SELF_TYPE`.
pub type TypeName = ReturnType;

/// A program as the parser reads it, before any check of its meaning.
/// Classes and features that did not parse stand as `Invalid`.
#[derive(Debug, PartialEq)]
pub struct Program {
    pub classes: Vec<Class>,
}

#[derive(Debug, PartialEq)]
pub enum Class {
    Valid { name: usize, parent: Option<usize>, features: Vec<Feature> },
    Invalid,
}

#[derive(Debug, PartialEq)]
pub enum Feature {
    Attribute { name: usize, type_dec: TypeName, init: Option<Box<Expr>> },
    Method { name: usize, params: Vec<Formal>, type_dec: TypeName, body: Box<Expr> },
    Invalid,
}

#[derive(Debug, PartialEq, Eq, Structural, Clone, Copy)]
pub struct Formal {
    pub name: usize,
    pub type_dec: usize,
}

#[derive(Debug, PartialEq)]
pub struct Expr {
    pub kind: ExprKind,
    pub span: Span,
}

#[derive(Debug, PartialEq, Eq, Structural, Clone, Copy)]
pub enum Var {
    Id(usize),
    SelfValue,
}

#[derive(Debug, PartialEq)]
pub struct CaseBranch {
    pub name: usize,
    pub type_dec: usize,
    pub body: Box<Expr>,
}

#[derive(Debug, PartialEq)]
pub enum ExprKind {
    BoolConstant(bool),
    IntConstant(i64),
    StringConstant(usize),
    Object(usize),
    SelfExpr,
    Assignment { var: Var, expr: Box<Expr> },
    Dispatch { expr: Box<Expr>, name: usize, args: Vec<Expr> },
    StaticDispatch { expr: Box<Expr>, type_dec: usize, name: usize, args: Vec<Expr> },
    SelfDispatch { name: usize, args: Vec<Expr> },
    Conditional { cond: Box<Expr>, happy_path: Box<Expr>, sad_path: Box<Expr> },
    Loop { cond: Box<Expr>, body: Box<Expr> },
    Block(Vec<Expr>),
    Let { name: usize, type_dec: TypeName, init: Option<Box<Expr>>, body: Box<Expr> },
    Case { cond: Box<Expr>, branches: Vec<CaseBranch> },
    New(TypeName),
    IsVoid(Box<Expr>),
    Add(Box<Expr>, Box<Expr>),
    Sub(Box<Expr>, Box<Expr>),
    Mul(Box<Expr>, Box<Expr>),
    Div(Box<Expr>, Box<Expr>),
    Neg(Box<Expr>),
    Lt(Box<Expr>, Box<Expr>),
    Eq(Box<Expr>, Box<Expr>),
    Le(Box<Expr>, Box<Expr>),
    Not(Box<Expr>),
    Invalid,
}

} // verus!
