//! The grammar of COOL, as spec functions over the token sequence.
//!
//! Each function reads from a token index and says what is read there
//! and where reading stops, or where and why it fails. Expressions are
//! read by binding power: `.` and `@` bind tightest, then `~`, `isvoid`,
//! `*` `/`, `+` `-`, the comparisons (which do not chain), `not`, and
//! `<-`; `let` takes everything to its right.
use vstd::prelude::*;

use crate::lexer::{ErrorToken, Spanned, Token};
use crate::parse_tree::{CaseBranch, Expr, ExprKind, Formal, Program, Var};
use crate::parser::{parse_result, parse_tokens, ErrorRecovery};
use crate::semantic_analysis::method_table::ReturnType;

verus! {

/// The kind of a token, without what it carries.
#[derive(Debug, Clone, Copy, PartialEq, Eq, Structural)]
pub enum Kw {
    Dot,
    At,
    Tilde,
    Slash,
    Plus,
    Minus,
    FatArrow,
    Lt,
    Le,
    Gt,
    Ge,
    Star,
    Assign,
    Semicolon,
    Comma,
    Colon,
    LBrace,
    RBrace,
    LParen,
    RParen,
    Eq,
    SelfValue,
    SelfType,
    Class,
    Else,
    Fi,
    If,
    In,
    Inherits,
    IsVoid,
    Let,
    Loop,
    Pool,
    Then,
    While,
    Case,
    Esac,
    New,
    Of,
    Not,
    BoolConst,
    Integers,
    TypeId,
    ObjectId,
    StringConst,
    Other,
}

pub open spec fn kw_of(t: Token) -> Kw {
    match t {
        Token::Dot => Kw::Dot,
        Token::At => Kw::At,
        Token::Tilde => Kw::Tilde,
        Token::Slash => Kw::Slash,
        Token::Plus => Kw::Plus,
        Token::Minus => Kw::Minus,
        Token::FatArrow => Kw::FatArrow,
        Token::Lt => Kw::Lt,
        Token::Le => Kw::Le,
        Token::Gt => Kw::Gt,
        Token::Ge => Kw::Ge,
        Token::Star => Kw::Star,
        Token::Assign => Kw::Assign,
        Token::Semicolon => Kw::Semicolon,
        Token::Comma => Kw::Comma,
        Token::Colon => Kw::Colon,
        Token::LBrace => Kw::LBrace,
        Token::RBrace => Kw::RBrace,
        Token::LParen => Kw::LParen,
        Token::RParen => Kw::RParen,
        Token::Eq => Kw::Eq,
        Token::SelfValue => Kw::SelfValue,
        Token::SelfType => Kw::SelfType,
        Token::Class => Kw::Class,
        Token::Else => Kw::Else,
        Token::Fi => Kw::Fi,
        Token::If => Kw::If,
        Token::In => Kw::In,
        Token::Inherits => Kw::Inherits,
        Token::IsVoid => Kw::IsVoid,
        Token::Let => Kw::Let,
        Token::Loop => Kw::Loop,
        Token::Pool => Kw::Pool,
        Token::Then => Kw::Then,
        Token::While => Kw::While,
        Token::Case => Kw::Case,
        Token::Esac => Kw::Esac,
        Token::New => Kw::New,
        Token::Of => Kw::Of,
        Token::Not => Kw::Not,
        Token::BoolConst(_) => Kw::BoolConst,
        Token::Integers(_) => Kw::Integers,
        Token::TypeIdentifier(_) => Kw::TypeId,
        Token::ObjectIdentifier(_) => Kw::ObjectId,
        Token::StringConstant(_) => Kw::StringConst,
        _ => Kw::Other,
    }
}

/// What the parser was looking for where it failed.
#[derive(Debug, Clone, Copy, PartialEq, Eq, Structural)]
pub enum Expect {
    /// One kind of token.
    One(Kw),
    /// Either of two kinds of token.
    Two(Kw, Kw),
    /// The start of an expression.
    Expression,
    /// Anything but a second comparison: comparisons do not chain.
    NoComparison,
}

/// Why reading failed: a token that does not fit, by its index, or the
/// end of the tokens.
pub enum PFail {
    Token(int, Expect),
    End(Expect),
}

/// A thing read and the index after it, or a failure.
pub enum PRes<A> {
    Read(A, int),
    Fail(PFail),
}

/// An expression as read, with the byte span it covers.
pub struct Node {
    pub kind: NodeKind,
    pub file: Seq<char>,
    pub start: int,
    pub end: int,
}

pub enum NodeKind {
    BoolConstant(bool),
    IntConstant(i64),
    StringConstant(usize),
    Object(usize),
    SelfExpr,
    Assignment(Var, Box<Node>),
    Dispatch(Box<Node>, usize, Seq<Node>),
    StaticDispatch(Box<Node>, usize, usize, Seq<Node>),
    SelfDispatch(usize, Seq<Node>),
    Conditional(Box<Node>, Box<Node>, Box<Node>),
    Loop(Box<Node>, Box<Node>),
    Block(Seq<Node>),
    Let(usize, ReturnType, Option<Box<Node>>, Box<Node>),
    Case(Box<Node>, Seq<BranchNode>),
    New(ReturnType),
    IsVoid(Box<Node>),
    Add(Box<Node>, Box<Node>),
    Sub(Box<Node>, Box<Node>),
    Mul(Box<Node>, Box<Node>),
    Div(Box<Node>, Box<Node>),
    Neg(Box<Node>),
    Lt(Box<Node>, Box<Node>),
    Eq(Box<Node>, Box<Node>),
    Le(Box<Node>, Box<Node>),
    Not(Box<Node>),
    Invalid,
}

pub struct BranchNode {
    pub name: usize,
    pub type_dec: usize,
    pub body: Node,
}

pub enum FeatureNode {
    Attribute(usize, ReturnType, Option<Node>),
    Method(usize, Seq<Formal>, ReturnType, Node),
    Invalid,
}

pub enum ClassNode {
    Valid(usize, Option<usize>, Seq<FeatureNode>),
    Invalid,
}

/// An error the parser recovered from: the index of the token that did
/// not fit, what was expected there, and the index where reading went on.
pub struct Recovered {
    pub at: int,
    pub expected: Expect,
    pub resume: int,
}

pub type Toks = Seq<(usize, Token, usize)>;

/// Token `i` exists and has kind `k`.
pub open spec fn at(t: Toks, i: int, k: Kw) -> bool {
    0 <= i < t.len() && kw_of(t[i].1) == k
}

/// The failure of expecting `x` at index `j`.
pub open spec fn fail_at(t: Toks, j: int, x: Expect) -> PFail {
    if 0 <= j < t.len() {
        PFail::Token(j, x)
    } else {
        PFail::End(x)
    }
}

/// Byte offset where token `i` starts.
pub open spec fn start_of(t: Toks, i: int) -> int {
    t[i].0 as int
}

/// Byte offset where token `i` ends.
pub open spec fn end_of(t: Toks, i: int) -> int {
    t[i].2 as int
}

pub open spec fn type_id(t: Toks, i: int) -> usize {
    match t[i].1 {
        Token::TypeIdentifier(id) => id,
        _ => 0,
    }
}

pub open spec fn object_id(t: Toks, i: int) -> usize {
    match t[i].1 {
        Token::ObjectIdentifier(id) => id,
        _ => 0,
    }
}

/// A declared type at `i`: a type name or `SELF_TYPE`.
pub open spec fn declared_type(t: Toks, i: int) -> Option<ReturnType> {
    if at(t, i, Kw::TypeId) {
        Some(ReturnType::Type(type_id(t, i)))
    } else if at(t, i, Kw::SelfType) {
        Some(ReturnType::SelfType)
    } else {
        None
    }
}

pub open spec fn node(f: Seq<char>, kind: NodeKind, start: int, end: int) -> Node {
    Node { kind, file: f, start, end }
}

// Binding powers.
pub open spec fn bp_not() -> int {
    2
}

pub open spec fn bp_compare() -> int {
    3
}

pub open spec fn bp_add() -> int {
    4
}

pub open spec fn bp_mul() -> int {
    5
}

pub open spec fn bp_isvoid() -> int {
    6
}

pub open spec fn bp_neg() -> int {
    7
}

/// An expression at `i` whose operators all bind tighter than `bp`.
pub open spec fn p_expr(t: Toks, f: Seq<char>, i: int, bp: int) -> PRes<Node>
    decreases t.len() - i, 5int,
{
    if i < 0 || i >= t.len() {
        PRes::Fail(PFail::End(Expect::Expression))
    } else {
        match p_nud(t, f, i) {
            PRes::Read(lhs, j) => if j <= i || j > t.len() {
                PRes::Fail(PFail::End(Expect::Expression))
            } else {
                p_led(t, f, lhs, j, bp, false)
            },
            PRes::Fail(f) => PRes::Fail(f),
        }
    }
}

/// The operators that follow `lhs` from `j` on, while they bind tighter
/// than `bp`; `after_compare` when `lhs` is a comparison made here.
pub open spec fn p_led(t: Toks, f: Seq<char>, lhs: Node, j: int, bp: int, after_compare: bool) -> PRes<Node>
    decreases t.len() - j, 0int,
{
    if j < 0 || j >= t.len() {
        PRes::Read(lhs, j)
    } else {
        let k = kw_of(t[j].1);
        if k == Kw::Dot {
            if !at(t, j + 1, Kw::ObjectId) {
                PRes::Fail(fail_at(t, j + 1, Expect::One(Kw::ObjectId)))
            } else if !at(t, j + 2, Kw::LParen) {
                PRes::Fail(fail_at(t, j + 2, Expect::One(Kw::LParen)))
            } else {
                match p_args(t, f, j + 3) {
                    PRes::Read(args, m) => if m <= j || m > t.len() {
                        PRes::Fail(PFail::End(Expect::Expression))
                    } else {
                        let n = node(f, NodeKind::Dispatch(Box::new(lhs), object_id(t, j + 1), args),
                            lhs.start,
                            end_of(t, m - 1),
                        );
                        p_led(t, f, n, m, bp, false)
                    },
                    PRes::Fail(f) => PRes::Fail(f),
                }
            }
        } else if k == Kw::At {
            if !at(t, j + 1, Kw::TypeId) {
                PRes::Fail(fail_at(t, j + 1, Expect::One(Kw::TypeId)))
            } else if !at(t, j + 2, Kw::Dot) {
                PRes::Fail(fail_at(t, j + 2, Expect::One(Kw::Dot)))
            } else if !at(t, j + 3, Kw::ObjectId) {
                PRes::Fail(fail_at(t, j + 3, Expect::One(Kw::ObjectId)))
            } else if !at(t, j + 4, Kw::LParen) {
                PRes::Fail(fail_at(t, j + 4, Expect::One(Kw::LParen)))
            } else {
                match p_args(t, f, j + 5) {
                    PRes::Read(args, m) => if m <= j || m > t.len() {
                        PRes::Fail(PFail::End(Expect::Expression))
                    } else {
                        let n = node(f, NodeKind::StaticDispatch(
                                Box::new(lhs),
                                type_id(t, j + 1),
                                object_id(t, j + 3),
                                args,
                            ),
                            lhs.start,
                            end_of(t, m - 1),
                        );
                        p_led(t, f, n, m, bp, false)
                    },
                    PRes::Fail(f) => PRes::Fail(f),
                }
            }
        } else if binary_power(k) > bp {
            if binary_power(k) == bp_compare() && after_compare {
                PRes::Fail(PFail::Token(j, Expect::NoComparison))
            } else {
                match p_expr(t, f, j + 1, binary_power(k)) {
                    PRes::Read(rhs, m) => if m <= j || m > t.len() {
                        PRes::Fail(PFail::End(Expect::Expression))
                    } else {
                        p_led(t, f, binary_node(f, k, lhs, rhs), m, bp, binary_power(k) == bp_compare())
                    },
                    PRes::Fail(f) => PRes::Fail(f),
                }
            }
        } else {
            PRes::Read(lhs, j)
        }
    }
}

/// How tightly a binary operator binds; 0 for other tokens.
pub open spec fn binary_power(k: Kw) -> int {
    if k == Kw::Star || k == Kw::Slash {
        bp_mul()
    } else if k == Kw::Plus || k == Kw::Minus {
        bp_add()
    } else if k == Kw::Lt || k == Kw::Le || k == Kw::Eq || k == Kw::Gt || k == Kw::Ge {
        bp_compare()
    } else {
        0
    }
}

/// The precedence of the binary operators: `*` and `/` bind equally
/// tightly and more tightly than `+` and `-`, which bind equally and more
/// tightly than the comparisons `<`, `<=`, `=`, `>` and `>=`, which bind
/// equally; every binary operator binds, and other tokens do not.
pub proof fn lemma_binary_precedence(mul: Kw, add: Kw, cmp: Kw, other: Kw)
    requires
        mul == Kw::Star || mul == Kw::Slash,
        add == Kw::Plus || add == Kw::Minus,
        cmp == Kw::Lt || cmp == Kw::Le || cmp == Kw::Eq || cmp == Kw::Gt || cmp == Kw::Ge,
    ensures
        binary_power(mul) == binary_power(Kw::Star),
        binary_power(add) == binary_power(Kw::Plus),
        binary_power(cmp) == binary_power(Kw::Eq),
        binary_power(mul) > binary_power(add),
        binary_power(add) > binary_power(cmp),
        binary_power(cmp) > 0,
        binary_power(other) == 0 <==> !(other == Kw::Star || other == Kw::Slash || other == Kw::Plus
            || other == Kw::Minus || other == Kw::Lt || other == Kw::Le || other == Kw::Eq
            || other == Kw::Gt || other == Kw::Ge),
{
}

/// The node of `lhs op rhs`; `>` and `>=` swap their operands.
pub open spec fn binary_node(f: Seq<char>, k: Kw, lhs: Node, rhs: Node) -> Node {
    let kind = if k == Kw::Star {
        NodeKind::Mul(Box::new(lhs), Box::new(rhs))
    } else if k == Kw::Slash {
        NodeKind::Div(Box::new(lhs), Box::new(rhs))
    } else if k == Kw::Plus {
        NodeKind::Add(Box::new(lhs), Box::new(rhs))
    } else if k == Kw::Minus {
        NodeKind::Sub(Box::new(lhs), Box::new(rhs))
    } else if k == Kw::Lt {
        NodeKind::Lt(Box::new(lhs), Box::new(rhs))
    } else if k == Kw::Le {
        NodeKind::Le(Box::new(lhs), Box::new(rhs))
    } else if k == Kw::Eq {
        NodeKind::Eq(Box::new(lhs), Box::new(rhs))
    } else if k == Kw::Gt {
        NodeKind::Lt(Box::new(rhs), Box::new(lhs))
    } else {
        NodeKind::Le(Box::new(rhs), Box::new(lhs))
    };
    node(f, kind, lhs.start, rhs.end)
}

/// `a > b` is read as `b < a` and `a >= b` as `b <= a`, over the same
/// span from the start of `a` to the end of `b`.
pub proof fn lemma_greater_swaps(f: Seq<char>, lhs: Node, rhs: Node)
    ensures
        binary_node(f, Kw::Gt, lhs, rhs).kind == binary_node(f, Kw::Lt, rhs, lhs).kind,
        binary_node(f, Kw::Ge, lhs, rhs).kind == binary_node(f, Kw::Le, rhs, lhs).kind,
        binary_node(f, Kw::Gt, lhs, rhs).start == lhs.start,
        binary_node(f, Kw::Gt, lhs, rhs).end == rhs.end,
        binary_node(f, Kw::Ge, lhs, rhs).start == lhs.start,
        binary_node(f, Kw::Ge, lhs, rhs).end == rhs.end,
{
}

/// A prefix operator applied to the expression read at `i + 1`.
pub open spec fn p_prefix(t: Toks, f: Seq<char>, i: int, bp: int, k: Kw) -> PRes<Node>
    decreases t.len() - i, 3int,
{
    if i < 0 || i >= t.len() {
        PRes::Fail(PFail::End(Expect::Expression))
    } else {
        match p_expr(t, f, i + 1, bp) {
            PRes::Read(e, j) => {
                let kind = if k == Kw::Not {
                    NodeKind::Not(Box::new(e))
                } else if k == Kw::IsVoid {
                    NodeKind::IsVoid(Box::new(e))
                } else {
                    NodeKind::Neg(Box::new(e))
                };
                PRes::Read(node(f, kind, start_of(t, i), e.end), j)
            },
            PRes::Fail(f) => PRes::Fail(f),
        }
    }
}

/// What starts an expression: a prefix operator, a primary, or a
/// keyword form.
pub open spec fn p_nud(t: Toks, f: Seq<char>, i: int) -> PRes<Node>
    decreases t.len() - i, 4int,
{
    if i < 0 || i >= t.len() {
        PRes::Fail(PFail::End(Expect::Expression))
    } else {
        let k = kw_of(t[i].1);
        let s = start_of(t, i);
        let e = end_of(t, i);
        if k == Kw::Not {
            p_prefix(t, f, i, bp_not(), k)
        } else if k == Kw::IsVoid {
            p_prefix(t, f, i, bp_isvoid(), k)
        } else if k == Kw::Tilde {
            p_prefix(t, f, i, bp_neg(), k)
        } else if k == Kw::ObjectId || k == Kw::SelfValue {
            p_name(t, f, i)
        } else if k == Kw::Integers {
            PRes::Read(
                node(f, NodeKind::IntConstant(
                        match t[i].1 {
                            Token::Integers(v) => v,
                            _ => 0,
                        },
                    ),
                    s,
                    e,
                ),
                i + 1,
            )
        } else if k == Kw::StringConst {
            PRes::Read(
                node(f, NodeKind::StringConstant(
                        match t[i].1 {
                            Token::StringConstant(v) => v,
                            _ => 0,
                        },
                    ),
                    s,
                    e,
                ),
                i + 1,
            )
        } else if k == Kw::BoolConst {
            PRes::Read(
                node(f, NodeKind::BoolConstant(
                        match t[i].1 {
                            Token::BoolConst(v) => v,
                            _ => false,
                        },
                    ),
                    s,
                    e,
                ),
                i + 1,
            )
        } else if k == Kw::LParen {
            p_paren(t, f, i)
        } else if k == Kw::New {
            match declared_type(t, i + 1) {
                Some(ty) => PRes::Read(node(f, NodeKind::New(ty), s, end_of(t, i + 1)), i + 2),
                None => PRes::Fail(fail_at(t, i + 1, Expect::Two(Kw::TypeId, Kw::SelfType))),
            }
        } else if k == Kw::If {
            p_if(t, f, i)
        } else if k == Kw::While {
            p_while(t, f, i)
        } else if k == Kw::LBrace {
            match p_block(t, f, i + 1, Seq::empty()) {
                PRes::Read(items, j) => if j <= i + 1 || j > t.len() {
                    PRes::Fail(PFail::End(Expect::Expression))
                } else {
                    PRes::Read(node(f, NodeKind::Block(items), s, end_of(t, j - 1)), j)
                },
                PRes::Fail(f) => PRes::Fail(f),
            }
        } else if k == Kw::Let {
            p_let(t, f, i + 1, i)
        } else if k == Kw::Case {
            p_case(t, f, i)
        } else {
            PRes::Fail(PFail::Token(i, Expect::Expression))
        }
    }
}

/// A name or `self` at `i`: an assignment, a call on `self`, or the
/// object itself.
pub open spec fn p_name(t: Toks, f: Seq<char>, i: int) -> PRes<Node>
    decreases t.len() - i, 3int,
{
    let s = start_of(t, i);
    let var = if at(t, i, Kw::SelfValue) {
        Var::SelfValue
    } else {
        Var::Id(object_id(t, i))
    };
    if at(t, i + 1, Kw::Assign) {
        match p_expr(t, f, i + 2, 0) {
            PRes::Read(rhs, j) => PRes::Read(node(f, NodeKind::Assignment(var, Box::new(rhs)), s, rhs.end), j),
            PRes::Fail(f) => PRes::Fail(f),
        }
    } else if at(t, i, Kw::ObjectId) && at(t, i + 1, Kw::LParen) {
        match p_args(t, f, i + 2) {
            PRes::Read(args, j) => if j <= i + 2 || j > t.len() {
                PRes::Fail(PFail::End(Expect::Expression))
            } else {
                PRes::Read(node(f, NodeKind::SelfDispatch(object_id(t, i), args), s, end_of(t, j - 1)), j)
            },
            PRes::Fail(f) => PRes::Fail(f),
        }
    } else if at(t, i, Kw::ObjectId) {
        PRes::Read(node(f, NodeKind::Object(object_id(t, i)), s, end_of(t, i)), i + 1)
    } else {
        PRes::Read(node(f, NodeKind::SelfExpr, s, end_of(t, i)), i + 1)
    }
}

/// `( expr )` at `i`: the inner expression, as it is.
pub open spec fn p_paren(t: Toks, f: Seq<char>, i: int) -> PRes<Node>
    decreases t.len() - i, 3int,
{
    if i < 0 || i >= t.len() {
        PRes::Fail(PFail::End(Expect::Expression))
    } else {
        match p_expr(t, f, i + 1, 0) {
            PRes::Read(e, j) => if at(t, j, Kw::RParen) {
                PRes::Read(e, j + 1)
            } else {
                PRes::Fail(fail_at(t, j, Expect::One(Kw::RParen)))
            },
            PRes::Fail(f) => PRes::Fail(f),
        }
    }
}

/// `if e then e else e fi` at `i`.
pub open spec fn p_if(t: Toks, f: Seq<char>, i: int) -> PRes<Node>
    decreases t.len() - i, 3int,
{
    if i < 0 || i >= t.len() {
        PRes::Fail(PFail::End(Expect::Expression))
    } else {
        match p_expr(t, f, i + 1, 0) {
            PRes::Read(c, j) => if !at(t, j, Kw::Then) {
                PRes::Fail(fail_at(t, j, Expect::One(Kw::Then)))
            } else if j <= i {
                PRes::Fail(PFail::End(Expect::Expression))
            } else {
                match p_expr(t, f, j + 1, 0) {
                    PRes::Read(a, k) => if !at(t, k, Kw::Else) {
                        PRes::Fail(fail_at(t, k, Expect::One(Kw::Else)))
                    } else if k <= j {
                        PRes::Fail(PFail::End(Expect::Expression))
                    } else {
                        match p_expr(t, f, k + 1, 0) {
                            PRes::Read(b, m) => if !at(t, m, Kw::Fi) {
                                PRes::Fail(fail_at(t, m, Expect::One(Kw::Fi)))
                            } else {
                                PRes::Read(
                                    node(f, NodeKind::Conditional(Box::new(c), Box::new(a), Box::new(b)),
                                        start_of(t, i),
                                        end_of(t, m),
                                    ),
                                    m + 1,
                                )
                            },
                            PRes::Fail(f) => PRes::Fail(f),
                        }
                    },
                    PRes::Fail(f) => PRes::Fail(f),
                }
            },
            PRes::Fail(f) => PRes::Fail(f),
        }
    }
}

/// `while e loop e pool` at `i`.
pub open spec fn p_while(t: Toks, f: Seq<char>, i: int) -> PRes<Node>
    decreases t.len() - i, 3int,
{
    if i < 0 || i >= t.len() {
        PRes::Fail(PFail::End(Expect::Expression))
    } else {
        match p_expr(t, f, i + 1, 0) {
            PRes::Read(c, j) => if !at(t, j, Kw::Loop) {
                PRes::Fail(fail_at(t, j, Expect::One(Kw::Loop)))
            } else if j <= i {
                PRes::Fail(PFail::End(Expect::Expression))
            } else {
                match p_expr(t, f, j + 1, 0) {
                    PRes::Read(b, k) => if !at(t, k, Kw::Pool) {
                        PRes::Fail(fail_at(t, k, Expect::One(Kw::Pool)))
                    } else {
                        PRes::Read(
                            node(f, NodeKind::Loop(Box::new(c), Box::new(b)), start_of(t, i), end_of(t, k)),
                            k + 1,
                        )
                    },
                    PRes::Fail(f) => PRes::Fail(f),
                }
            },
            PRes::Fail(f) => PRes::Fail(f),
        }
    }
}

/// The arguments of a call from `i` (just after `(`) to the closing `)`,
/// and the index after the `)`.
pub open spec fn p_args(t: Toks, f: Seq<char>, i: int) -> PRes<Seq<Node>>
    decreases t.len() - i, 7int,
{
    if at(t, i, Kw::RParen) {
        PRes::Read(Seq::empty(), i + 1)
    } else {
        p_arg_list(t, f, i, Seq::empty())
    }
}

/// The arguments from `i` on, appended to `acc`.
pub open spec fn p_arg_list(t: Toks, f: Seq<char>, i: int, acc: Seq<Node>) -> PRes<Seq<Node>>
    decreases t.len() - i, 6int,
{
    match p_expr(t, f, i, 0) {
        PRes::Read(e, j) => if at(t, j, Kw::Comma) {
            if j < i {
                PRes::Fail(PFail::End(Expect::Expression))
            } else {
                p_arg_list(t, f, j + 1, acc.push(e))
            }
        } else if at(t, j, Kw::RParen) {
            PRes::Read(acc.push(e), j + 1)
        } else {
            PRes::Fail(fail_at(t, j, Expect::Two(Kw::Comma, Kw::RParen)))
        },
        PRes::Fail(f) => PRes::Fail(f),
    }
}

/// The expressions of a block from `i` on, each followed by `;`, up to
/// and past the closing `}`, appended to `acc`.
pub open spec fn p_block(t: Toks, f: Seq<char>, i: int, acc: Seq<Node>) -> PRes<Seq<Node>>
    decreases t.len() - i, 6int,
{
    match p_expr(t, f, i, 0) {
        PRes::Read(e, j) => if !at(t, j, Kw::Semicolon) {
            PRes::Fail(fail_at(t, j, Expect::One(Kw::Semicolon)))
        } else if at(t, j + 1, Kw::RBrace) {
            PRes::Read(acc.push(e), j + 2)
        } else if j < i {
            PRes::Fail(PFail::End(Expect::Expression))
        } else {
            p_block(t, f, j + 1, acc.push(e))
        },
        PRes::Fail(f) => PRes::Fail(f),
    }
}

/// The bindings of a `let` from `i` on and its body; the node starts at
/// token `si`: the `let`, or the binding after a comma. Each binding
/// nests the rest.
pub open spec fn p_let(t: Toks, f: Seq<char>, i: int, si: int) -> PRes<Node>
    decreases t.len() - i, 3int,
{
    if !at(t, i, Kw::ObjectId) {
        PRes::Fail(fail_at(t, i, Expect::One(Kw::ObjectId)))
    } else if !at(t, i + 1, Kw::Colon) {
        PRes::Fail(fail_at(t, i + 1, Expect::One(Kw::Colon)))
    } else {
        match declared_type(t, i + 2) {
            None => PRes::Fail(fail_at(t, i + 2, Expect::Two(Kw::TypeId, Kw::SelfType))),
            Some(ty) => if at(t, i + 3, Kw::Assign) {
                match p_expr(t, f, i + 4, 0) {
                    PRes::Read(e, j) => if j <= i || j > t.len() {
                        PRes::Fail(PFail::End(Expect::Expression))
                    } else {
                        p_let_rest(t, f, i, si, ty, Some(Box::new(e)), j)
                    },
                    PRes::Fail(f) => PRes::Fail(f),
                }
            } else {
                p_let_rest(t, f, i, si, ty, None, i + 3)
            },
        }
    }
}

/// What follows the binding at `i` of a `let`, from `j` on: more
/// bindings after a comma, or `in` and the body.
pub open spec fn p_let_rest(
    t: Toks,
    f: Seq<char>,
    i: int,
    si: int,
    ty: ReturnType,
    value: Option<Box<Node>>,
    j: int,
) -> PRes<Node>
    decreases t.len() - j, 4int,
{
    let rest = if at(t, j, Kw::Comma) {
        p_let(t, f, j + 1, j + 1)
    } else if at(t, j, Kw::In) {
        p_expr(t, f, j + 1, 0)
    } else {
        PRes::Fail(fail_at(t, j, Expect::Two(Kw::Comma, Kw::In)))
    };
    match rest {
        PRes::Read(body, k) => PRes::Read(
            node(f, NodeKind::Let(object_id(t, i), ty, value, Box::new(body)), start_of(t, si), body.end),
            k,
        ),
        PRes::Fail(f) => PRes::Fail(f),
    }
}

/// `case e of branches esac` at `i`.
pub open spec fn p_case(t: Toks, f: Seq<char>, i: int) -> PRes<Node>
    decreases t.len() - i, 3int,
{
    if i < 0 || i >= t.len() {
        PRes::Fail(PFail::End(Expect::Expression))
    } else {
        match p_expr(t, f, i + 1, 0) {
            PRes::Read(c, j) => if !at(t, j, Kw::Of) {
                PRes::Fail(fail_at(t, j, Expect::One(Kw::Of)))
            } else if j <= i {
                PRes::Fail(PFail::End(Expect::Expression))
            } else {
                match p_branches(t, f, j + 1, Seq::empty()) {
                    PRes::Read(bs, k) => if k <= j + 1 || k > t.len() {
                        PRes::Fail(PFail::End(Expect::Expression))
                    } else {
                        PRes::Read(node(f, NodeKind::Case(Box::new(c), bs), start_of(t, i), end_of(t, k - 1)), k)
                    },
                    PRes::Fail(f) => PRes::Fail(f),
                }
            },
            PRes::Fail(f) => PRes::Fail(f),
        }
    }
}

/// The branches `name : Type => e ;` of a `case` from `i` on, up to and
/// past `esac`, appended to `acc`.
pub open spec fn p_branches(t: Toks, f: Seq<char>, i: int, acc: Seq<BranchNode>) -> PRes<Seq<BranchNode>>
    decreases t.len() - i, 6int,
{
    if !at(t, i, Kw::ObjectId) {
        PRes::Fail(fail_at(t, i, Expect::One(Kw::ObjectId)))
    } else if !at(t, i + 1, Kw::Colon) {
        PRes::Fail(fail_at(t, i + 1, Expect::One(Kw::Colon)))
    } else if !at(t, i + 2, Kw::TypeId) {
        PRes::Fail(fail_at(t, i + 2, Expect::One(Kw::TypeId)))
    } else if !at(t, i + 3, Kw::FatArrow) {
        PRes::Fail(fail_at(t, i + 3, Expect::One(Kw::FatArrow)))
    } else {
        match p_expr(t, f, i + 4, 0) {
            PRes::Read(e, j) => {
                let b = BranchNode { name: object_id(t, i), type_dec: type_id(t, i + 2), body: e };
                if !at(t, j, Kw::Semicolon) {
                    PRes::Fail(fail_at(t, j, Expect::One(Kw::Semicolon)))
                } else if at(t, j + 1, Kw::Esac) {
                    PRes::Read(acc.push(b), j + 2)
                } else if j < i {
                    PRes::Fail(PFail::End(Expect::Expression))
                } else {
                    p_branches(t, f, j + 1, acc.push(b))
                }
            },
            PRes::Fail(f) => PRes::Fail(f),
        }
    }
}


// ---------------------------------------------------------------------------
// Parse trees seen as nodes

/// The node that a parsed expression stands for.
pub open spec fn node_of(e: Expr) -> Node
    decreases e, 0int,
{
    let kind = match e.kind {
        ExprKind::BoolConstant(b) => NodeKind::BoolConstant(b),
        ExprKind::IntConstant(v) => NodeKind::IntConstant(v),
        ExprKind::StringConstant(id) => NodeKind::StringConstant(id),
        ExprKind::Object(id) => NodeKind::Object(id),
        ExprKind::SelfExpr => NodeKind::SelfExpr,
        ExprKind::Assignment { var, expr } => NodeKind::Assignment(var, Box::new(node_of(*expr))),
        ExprKind::Dispatch { expr, name, args } => NodeKind::Dispatch(
            Box::new(node_of(*expr)),
            name,
            nodes_of(args@, args@.len() as int),
        ),
        ExprKind::StaticDispatch { expr, type_dec, name, args } => NodeKind::StaticDispatch(
            Box::new(node_of(*expr)),
            type_dec,
            name,
            nodes_of(args@, args@.len() as int),
        ),
        ExprKind::SelfDispatch { name, args } => NodeKind::SelfDispatch(name, nodes_of(args@, args@.len() as int)),
        ExprKind::Conditional { cond, happy_path, sad_path } => NodeKind::Conditional(
            Box::new(node_of(*cond)),
            Box::new(node_of(*happy_path)),
            Box::new(node_of(*sad_path)),
        ),
        ExprKind::Loop { cond, body } => NodeKind::Loop(Box::new(node_of(*cond)), Box::new(node_of(*body))),
        ExprKind::Block(items) => NodeKind::Block(nodes_of(items@, items@.len() as int)),
        ExprKind::Let { name, type_dec, init, body } => NodeKind::Let(
            name,
            type_dec,
            match init {
                Some(x) => Some(Box::new(node_of(*x))),
                None => None,
            },
            Box::new(node_of(*body)),
        ),
        ExprKind::Case { cond, branches } => NodeKind::Case(
            Box::new(node_of(*cond)),
            branch_nodes_of(branches@, branches@.len() as int),
        ),
        ExprKind::New(ty) => NodeKind::New(ty),
        ExprKind::IsVoid(x) => NodeKind::IsVoid(Box::new(node_of(*x))),
        ExprKind::Add(a, b) => NodeKind::Add(Box::new(node_of(*a)), Box::new(node_of(*b))),
        ExprKind::Sub(a, b) => NodeKind::Sub(Box::new(node_of(*a)), Box::new(node_of(*b))),
        ExprKind::Mul(a, b) => NodeKind::Mul(Box::new(node_of(*a)), Box::new(node_of(*b))),
        ExprKind::Div(a, b) => NodeKind::Div(Box::new(node_of(*a)), Box::new(node_of(*b))),
        ExprKind::Neg(x) => NodeKind::Neg(Box::new(node_of(*x))),
        ExprKind::Lt(a, b) => NodeKind::Lt(Box::new(node_of(*a)), Box::new(node_of(*b))),
        ExprKind::Eq(a, b) => NodeKind::Eq(Box::new(node_of(*a)), Box::new(node_of(*b))),
        ExprKind::Le(a, b) => NodeKind::Le(Box::new(node_of(*a)), Box::new(node_of(*b))),
        ExprKind::Not(x) => NodeKind::Not(Box::new(node_of(*x))),
        ExprKind::Invalid => NodeKind::Invalid,
    };
    Node { kind, file: e.span.file@, start: e.span.start as int, end: e.span.end as int }
}

/// The nodes of the first `n` expressions of `s`.
pub open spec fn nodes_of(s: Seq<Expr>, n: int) -> Seq<Node>
    decreases s, n,
{
    if n <= 0 || n > s.len() {
        Seq::empty()
    } else {
        nodes_of(s, n - 1).push(node_of(s[n - 1]))
    }
}

/// The nodes of the first `n` branches of `s`.
pub open spec fn branch_nodes_of(s: Seq<CaseBranch>, n: int) -> Seq<BranchNode>
    decreases s, n,
{
    if n <= 0 || n > s.len() {
        Seq::empty()
    } else {
        branch_nodes_of(s, n - 1).push(
            BranchNode { name: s[n - 1].name, type_dec: s[n - 1].type_dec, body: node_of(*s[n - 1].body) },
        )
    }
}

pub open spec fn nodes(s: Seq<Expr>) -> Seq<Node> {
    nodes_of(s, s.len() as int)
}

pub open spec fn branch_nodes(s: Seq<CaseBranch>) -> Seq<BranchNode> {
    branch_nodes_of(s, s.len() as int)
}

proof fn lemma_nodes_prefix(s: Seq<Expr>, x: Expr, k: int)
    requires
        0 <= k <= s.len(),
    ensures
        nodes_of(s.push(x), k) == nodes_of(s, k),
    decreases k,
{
    if k > 0 {
        lemma_nodes_prefix(s, x, k - 1);
        assert(s.push(x)[k - 1] == s[k - 1]);
    }
}

/// Appending an expression appends its node.
pub proof fn lemma_nodes_push(s: Seq<Expr>, x: Expr)
    ensures
        nodes(s.push(x)) == nodes(s).push(node_of(x)),
{
    lemma_nodes_prefix(s, x, s.len() as int);
    assert(s.push(x)[s.len() as int] == x);
}

proof fn lemma_branch_nodes_prefix(s: Seq<CaseBranch>, x: CaseBranch, k: int)
    requires
        0 <= k <= s.len(),
    ensures
        branch_nodes_of(s.push(x), k) == branch_nodes_of(s, k),
    decreases k,
{
    if k > 0 {
        lemma_branch_nodes_prefix(s, x, k - 1);
        assert(s.push(x)[k - 1] == s[k - 1]);
    }
}

/// Appending a branch appends its node.
pub proof fn lemma_branch_nodes_push(s: Seq<CaseBranch>, x: CaseBranch)
    ensures
        branch_nodes(s.push(x)) == branch_nodes(s).push(
            BranchNode { name: x.name, type_dec: x.type_dec, body: node_of(*x.body) },
        ),
{
    lemma_branch_nodes_prefix(s, x, s.len() as int);
    assert(s.push(x)[s.len() as int] == x);
}


// ---------------------------------------------------------------------------
// Classes and features, with recovery from errors

/// Where reading goes on after a failure at token `k` in something that
/// started before: scanning from `j` at brace depth `depth`, just after
/// the first `;` at or after `k` outside any braces opened in the scan;
/// when `stop_at_close`, at a `}` that closes braces opened before the
/// scan; else at the end.
pub open spec fn recover_from(t: Toks, j: int, depth: int, k: int, stop_at_close: bool) -> int
    decreases t.len() - j,
{
    if j < 0 || j >= t.len() {
        t.len() as int
    } else if at(t, j, Kw::Semicolon) && depth == 0 && j >= k {
        j + 1
    } else if at(t, j, Kw::RBrace) && depth == 0 && stop_at_close {
        j
    } else if at(t, j, Kw::LBrace) {
        recover_from(t, j + 1, depth + 1, k, stop_at_close)
    } else if at(t, j, Kw::RBrace) && depth > 0 {
        recover_from(t, j + 1, depth - 1, k, stop_at_close)
    } else {
        recover_from(t, j + 1, depth, k, stop_at_close)
    }
}

/// The formal parameters from `i` on, appended to `acc`, past the `)`.
pub open spec fn p_formal_list(t: Toks, i: int, acc: Seq<Formal>) -> PRes<Seq<Formal>>
    decreases t.len() - i,
{
    if !at(t, i, Kw::ObjectId) {
        PRes::Fail(fail_at(t, i, Expect::One(Kw::ObjectId)))
    } else if !at(t, i + 1, Kw::Colon) {
        PRes::Fail(fail_at(t, i + 1, Expect::One(Kw::Colon)))
    } else if !at(t, i + 2, Kw::TypeId) {
        PRes::Fail(fail_at(t, i + 2, Expect::One(Kw::TypeId)))
    } else {
        let fm = Formal { name: object_id(t, i), type_dec: type_id(t, i + 2) };
        if at(t, i + 3, Kw::Comma) {
            p_formal_list(t, i + 4, acc.push(fm))
        } else if at(t, i + 3, Kw::RParen) {
            PRes::Read(acc.push(fm), i + 4)
        } else {
            PRes::Fail(fail_at(t, i + 3, Expect::Two(Kw::Comma, Kw::RParen)))
        }
    }
}

/// The formal parameters of a method, from just after `(`.
pub open spec fn p_formals(t: Toks, i: int) -> PRes<Seq<Formal>> {
    if at(t, i, Kw::RParen) {
        PRes::Read(Seq::empty(), i + 1)
    } else {
        p_formal_list(t, i, Seq::empty())
    }
}

/// A method `name(formals) : Type { body }` at `i`; the body may be
/// followed by `;` before the closing `}`.
pub open spec fn p_method(t: Toks, f: Seq<char>, i: int) -> PRes<FeatureNode>
    decreases t.len() - i, 7int,
{
    match p_formals(t, i + 2) {
        PRes::Read(fs, j) => if !at(t, j, Kw::Colon) {
            PRes::Fail(fail_at(t, j, Expect::One(Kw::Colon)))
        } else {
            match declared_type(t, j + 1) {
                None => PRes::Fail(fail_at(t, j + 1, Expect::Two(Kw::TypeId, Kw::SelfType))),
                Some(ty) => if !at(t, j + 2, Kw::LBrace) {
                    PRes::Fail(fail_at(t, j + 2, Expect::One(Kw::LBrace)))
                } else if j < i {
                    PRes::Fail(PFail::End(Expect::Expression))
                } else {
                    match p_expr(t, f, j + 3, 0) {
                        PRes::Read(b, k) => {
                            let close = if at(t, k, Kw::Semicolon) {
                                k + 1
                            } else {
                                k
                            };
                            if at(t, close, Kw::RBrace) {
                                PRes::Read(FeatureNode::Method(object_id(t, i), fs, ty, b), close + 1)
                            } else if at(t, k, Kw::Semicolon) {
                                PRes::Fail(fail_at(t, close, Expect::One(Kw::RBrace)))
                            } else {
                                PRes::Fail(fail_at(t, k, Expect::Two(Kw::Semicolon, Kw::RBrace)))
                            }
                        },
                        PRes::Fail(x) => PRes::Fail(x),
                    }
                },
            }
        },
        PRes::Fail(x) => PRes::Fail(x),
    }
}

/// A feature at `i`: a method, or an attribute with an optional
/// initial value.
pub open spec fn p_feature(t: Toks, f: Seq<char>, i: int) -> PRes<FeatureNode>
    decreases t.len() - i, 8int,
{
    if !at(t, i, Kw::ObjectId) {
        PRes::Fail(fail_at(t, i, Expect::Two(Kw::ObjectId, Kw::RBrace)))
    } else if at(t, i + 1, Kw::LParen) {
        p_method(t, f, i)
    } else if at(t, i + 1, Kw::Colon) {
        match declared_type(t, i + 2) {
            None => PRes::Fail(fail_at(t, i + 2, Expect::Two(Kw::TypeId, Kw::SelfType))),
            Some(ty) => if at(t, i + 3, Kw::Assign) {
                match p_expr(t, f, i + 4, 0) {
                    PRes::Read(e, j) => PRes::Read(FeatureNode::Attribute(object_id(t, i), ty, Some(e)), j),
                    PRes::Fail(x) => PRes::Fail(x),
                }
            } else {
                PRes::Read(FeatureNode::Attribute(object_id(t, i), ty, None), i + 3)
            },
        }
    } else {
        PRes::Fail(fail_at(t, i + 1, Expect::Two(Kw::LParen, Kw::Colon)))
    }
}

/// How a list with recovery ends: at an index, or with a failure that
/// could not be recovered from.
pub enum Stop {
    At(int),
    Failed(PFail),
}

/// What a class body reads: its features, the errors it recovered
/// from, and how it ends: at the closing `}`, or failed.
pub struct Body {
    pub features: Seq<FeatureNode>,
    pub errors: Seq<Recovered>,
    pub stop: Stop,
}

/// The features of a class body from `i` on, each followed by `;`, up to
/// the closing `}`. A feature that does not read stands as `Invalid`,
/// and reading goes on after its `;`.
pub open spec fn p_features(
    t: Toks,
    f: Seq<char>,
    i: int,
    features: Seq<FeatureNode>,
    errors: Seq<Recovered>,
) -> Body
    decreases t.len() - i, 9int,
{
    if i < 0 || i >= t.len() {
        Body { features, errors, stop: Stop::Failed(PFail::End(Expect::Two(Kw::ObjectId, Kw::RBrace))) }
    } else if at(t, i, Kw::RBrace) {
        Body { features, errors, stop: Stop::At(i) }
    } else {
        match p_feature(t, f, i) {
            PRes::Read(ft, j) => if at(t, j, Kw::Semicolon) && j >= i {
                p_features(t, f, j + 1, features.push(ft), errors)
            } else {
                feature_failed(t, f, i, features, errors, fail_at(t, j, Expect::One(Kw::Semicolon)))
            },
            PRes::Fail(x) => feature_failed(t, f, i, features, errors, x),
        }
    }
}

/// A class body after the feature at `i` failed with `x`.
pub open spec fn feature_failed(
    t: Toks,
    f: Seq<char>,
    i: int,
    features: Seq<FeatureNode>,
    errors: Seq<Recovered>,
    x: PFail,
) -> Body
    decreases t.len() - i, 8int,
{
    match x {
        PFail::Token(k, e) => {
            let r = recover_from(t, i, 0, k, true);
            if r <= i || r > t.len() {
                Body { features, errors, stop: Stop::Failed(x) }
            } else {
                p_features(
                    t,
                    f,
                    r,
                    features.push(FeatureNode::Invalid),
                    errors.push(Recovered { at: k, expected: e, resume: r }),
                )
            }
        },
        PFail::End(_) => Body { features, errors, stop: Stop::Failed(x) },
    }
}

/// What a class reads: the class, the errors recovered from inside it,
/// and how it ends: just after its `}`, or failed.
pub struct ClassRes {
    pub class: ClassNode,
    pub errors: Seq<Recovered>,
    pub stop: Stop,
}

/// A class `class Name [inherits Parent] { features }` at `i`.
pub open spec fn p_class(t: Toks, f: Seq<char>, i: int) -> ClassRes {
    if !at(t, i, Kw::Class) {
        ClassRes { class: ClassNode::Invalid, errors: Seq::empty(), stop: Stop::Failed(fail_at(t, i, Expect::One(Kw::Class))) }
    } else if !at(t, i + 1, Kw::TypeId) {
        ClassRes {
            class: ClassNode::Invalid,
            errors: Seq::empty(),
            stop: Stop::Failed(fail_at(t, i + 1, Expect::One(Kw::TypeId))),
        }
    } else if at(t, i + 2, Kw::Inherits) && !at(t, i + 3, Kw::TypeId) {
        ClassRes {
            class: ClassNode::Invalid,
            errors: Seq::empty(),
            stop: Stop::Failed(fail_at(t, i + 3, Expect::One(Kw::TypeId))),
        }
    } else {
        let inherits = at(t, i + 2, Kw::Inherits);
        let parent = if inherits {
            Some(type_id(t, i + 3))
        } else {
            None
        };
        let j = if inherits {
            i + 4
        } else {
            i + 2
        };
        if !at(t, j, Kw::LBrace) {
            let x = if inherits {
                Expect::One(Kw::LBrace)
            } else {
                Expect::Two(Kw::Inherits, Kw::LBrace)
            };
            ClassRes { class: ClassNode::Invalid, errors: Seq::empty(), stop: Stop::Failed(fail_at(t, j, x)) }
        } else {
            let b = p_features(t, f, j + 1, Seq::empty(), Seq::empty());
            match b.stop {
                Stop::At(k) => ClassRes {
                    class: ClassNode::Valid(type_id(t, i + 1), parent, b.features),
                    errors: b.errors,
                    stop: Stop::At(k + 1),
                },
                Stop::Failed(x) => ClassRes { class: ClassNode::Invalid, errors: b.errors, stop: Stop::Failed(x) },
            }
        }
    }
}

/// What a program reads: its classes, the errors recovered from, and
/// the failure that ended reading, if any.
pub struct ProgramRes {
    pub classes: Seq<ClassNode>,
    pub errors: Seq<Recovered>,
    pub fatal: Option<PFail>,
}

/// The classes from `i` on, each followed by `;`, up to the end; there
/// must be at least one. A class that does not read stands as `Invalid`,
/// and reading goes on after the `;` that ends it.
pub open spec fn p_classes(
    t: Toks,
    f: Seq<char>,
    i: int,
    classes: Seq<ClassNode>,
    errors: Seq<Recovered>,
) -> ProgramRes
    decreases t.len() - i, 1int,
{
    if i < 0 || i >= t.len() {
        if classes.len() > 0 {
            ProgramRes { classes, errors, fatal: None }
        } else {
            ProgramRes { classes, errors, fatal: Some(PFail::End(Expect::One(Kw::Class))) }
        }
    } else {
        let c = p_class(t, f, i);
        match c.stop {
            Stop::At(k) => if at(t, k, Kw::Semicolon) && k > i {
                p_classes(t, f, k + 1, classes.push(c.class), errors + c.errors)
            } else {
                class_failed(t, f, i, classes, errors + c.errors, fail_at(t, k, Expect::One(Kw::Semicolon)))
            },
            Stop::Failed(x) => class_failed(t, f, i, classes, errors + c.errors, x),
        }
    }
}

/// A program after the class at `i` failed with `x`.
pub open spec fn class_failed(
    t: Toks,
    f: Seq<char>,
    i: int,
    classes: Seq<ClassNode>,
    errors: Seq<Recovered>,
    x: PFail,
) -> ProgramRes
    decreases t.len() - i, 0int,
{
    match x {
        PFail::Token(k, e) => {
            let r = recover_from(t, i, 0, k, false);
            if r <= i || r > t.len() {
                ProgramRes { classes, errors, fatal: Some(x) }
            } else {
                p_classes(
                    t,
                    f,
                    r,
                    classes.push(ClassNode::Invalid),
                    errors.push(Recovered { at: k, expected: e, resume: r }),
                )
            }
        },
        PFail::End(_) => ProgramRes { classes, errors, fatal: Some(x) },
    }
}


/// The name of a kind of token, as error messages show it.
pub open spec fn kw_name(k: Kw) -> Seq<char> {
    match k {
        Kw::Dot => "\".\""@,
        Kw::At => "\"@\""@,
        Kw::Tilde => "\"~\""@,
        Kw::Slash => "\"/\""@,
        Kw::Plus => "\"+\""@,
        Kw::Minus => "\"-\""@,
        Kw::FatArrow => "\"=>\""@,
        Kw::Lt => "\"<\""@,
        Kw::Le => "\"<=\""@,
        Kw::Gt => "\">\""@,
        Kw::Ge => "\">=\""@,
        Kw::Star => "\"*\""@,
        Kw::Assign => "\"<-\""@,
        Kw::Semicolon => "\";\""@,
        Kw::Comma => "\",\""@,
        Kw::Colon => "\":\""@,
        Kw::LBrace => "\"{\""@,
        Kw::RBrace => "\"}\""@,
        Kw::LParen => "\"(\""@,
        Kw::RParen => "\")\""@,
        Kw::Eq => "\"=\""@,
        Kw::SelfValue => "\"self\""@,
        Kw::SelfType => "\"SELF_TYPE\""@,
        Kw::Class => "\"class\""@,
        Kw::Else => "\"else\""@,
        Kw::Fi => "\"fi\""@,
        Kw::If => "\"if\""@,
        Kw::In => "\"in\""@,
        Kw::Inherits => "\"inherits\""@,
        Kw::IsVoid => "\"isvoid\""@,
        Kw::Let => "\"let\""@,
        Kw::Loop => "\"loop\""@,
        Kw::Pool => "\"pool\""@,
        Kw::Then => "\"then\""@,
        Kw::While => "\"while\""@,
        Kw::Case => "\"case\""@,
        Kw::Esac => "\"esac\""@,
        Kw::New => "\"new\""@,
        Kw::Of => "\"of\""@,
        Kw::Not => "\"not\""@,
        Kw::BoolConst => "BoolConst"@,
        Kw::Integers => "Integers"@,
        Kw::TypeId => "TypeIdentifier"@,
        Kw::ObjectId => "ObjectIdentifier"@,
        Kw::StringConst => "StringConstant"@,
        Kw::Other => "Error"@,
    }
}

/// The kinds of token that can start an expression.
pub open spec fn expression_starts() -> Seq<Kw> {
    seq![
        Kw::ObjectId, Kw::SelfValue, Kw::Integers, Kw::StringConst, Kw::BoolConst, Kw::LParen, Kw::New, Kw::If,
        Kw::While, Kw::LBrace, Kw::Let, Kw::Case, Kw::Not, Kw::IsVoid, Kw::Tilde,
    ]
}

/// The names of the tokens that were expected, as error messages list
/// them.
pub open spec fn expect_names(x: Expect) -> Seq<Seq<char>> {
    match x {
        Expect::One(k) => seq![kw_name(k)],
        Expect::Two(a, b) => seq![kw_name(a), kw_name(b)],
        Expect::Expression => expression_starts().map_values(|k: Kw| kw_name(k)),
        Expect::NoComparison => Seq::empty(),
    }
}


/// Reads a program from its tokens.
pub struct ProgramParser;

impl ProgramParser {
    pub fn new() -> Self {
        ProgramParser
    }

    /// Reads a program of the file `file` from `tokens`, appending the
    /// errors it recovers from to `errors`; see `parse_result`.
    pub fn parse(
        &self,
        file: &str,
        errors: &mut Vec<ErrorRecovery>,
        tokens: Vec<Spanned<Token, usize, ErrorToken>>,
    ) -> (r: Result<Program, crate::parser::ParseError>)
        ensures
            parse_result(file@, tokens@, old(errors)@, final(errors)@, r),
    {
        parse_tokens(file, errors, tokens)
    }
}

} // verus!
