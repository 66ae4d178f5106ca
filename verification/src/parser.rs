//! Reading a program from its tokens, by recursive descent, exactly as
//! `grammar` states it.
use vstd::prelude::*;

use crate::grammar::{
    at, binary_node, binary_power, branch_nodes, declared_type, end_of, fail_at, kw_of, lemma_branch_nodes_push,
    lemma_nodes_push, node, node_of, nodes, object_id, p_args, p_arg_list, p_block, p_branches, p_case, p_expr,
    p_if, p_led, p_let, p_let_rest, p_name, p_nud, p_paren, p_prefix, p_while, start_of, type_id, BranchNode,
    Expect, Kw, Node, NodeKind, PFail, PRes, p_formal_list, p_formals, p_method, p_feature, p_features,
    feature_failed, p_class, p_classes, class_failed, recover_from, Body, ClassRes, ProgramRes, Stop, Recovered,
    FeatureNode, ClassNode, kw_name, expect_names, Toks as TokSeq,
};
use crate::lexer::{ErrorToken, Spanned, Token};
use crate::parse_tree::{CaseBranch, Class, Expr, ExprKind, Feature, Formal, Program, Var};
use crate::semantic_analysis::method_table::ReturnType;
use crate::utils::Span;

verus! {

/// Where reading failed: at a token, by index, or at the end.
#[derive(Debug, Clone, Copy, PartialEq, Eq, Structural)]
enum Miss {
    Token(usize, Expect),
    End(Expect),
}

spec fn miss_view(m: Miss) -> PFail {
    match m {
        Miss::Token(i, x) => PFail::Token(i as int, x),
        Miss::End(x) => PFail::End(x),
    }
}

/// Where a failure lies, for the index checks of recovery: its token
/// index, or the number of tokens for the end.
spec fn miss_index(m: Miss, n: int) -> int {
    match m {
        Miss::Token(i, _) => i as int,
        Miss::End(_) => n,
    }
}

spec fn expr_res(r: Result<(Expr, usize), Miss>) -> PRes<Node> {
    match r {
        Ok((e, j)) => PRes::Read(node_of(e), j as int),
        Err(m) => PRes::Fail(miss_view(m)),
    }
}

spec fn list_res(r: Result<(Vec<Expr>, usize), Miss>) -> PRes<Seq<Node>> {
    match r {
        Ok((v, j)) => PRes::Read(nodes(v@), j as int),
        Err(m) => PRes::Fail(miss_view(m)),
    }
}

spec fn branches_res(r: Result<(Vec<CaseBranch>, usize), Miss>) -> PRes<Seq<BranchNode>> {
    match r {
        Ok((v, j)) => PRes::Read(branch_nodes(v@), j as int),
        Err(m) => PRes::Fail(miss_view(m)),
    }
}

/// A read that, when it succeeds, ends after `i` and within the tokens;
/// when it fails, fails at `i` or later.
spec fn advances<A>(r: Result<(A, usize), Miss>, i: int, n: int) -> bool {
    match r {
        Ok((_, j)) => i < j <= n,
        Err(m) => i <= miss_index(m, n) && miss_valid(m, n),
    }
}

/// A failure at a token names a token that exists.
spec fn miss_valid(m: Miss, n: int) -> bool {
    match m {
        Miss::Token(k, _) => k < n,
        Miss::End(_) => true,
    }
}

fn kw(t: &Token) -> (k: Kw)
    ensures
        k == kw_of(*t),
{
    match t {
        Token::Dot => Kw::Dot,
        Token::At => Kw::At,
        Token::Tilde => Kw::Tilde,
        Token::Slash => Kw::Slash,
        Token::Plus => Kw::Plus,
        Token::Minus => Kw::Minus,
        Token::FatArrow => Kw::FatArrow,
        Token::Lt => Kw::Lt,
        Token::Le => Kw::Le,
        Token::Gt => Kw::Gt,
        Token::Ge => Kw::Ge,
        Token::Star => Kw::Star,
        Token::Assign => Kw::Assign,
        Token::Semicolon => Kw::Semicolon,
        Token::Comma => Kw::Comma,
        Token::Colon => Kw::Colon,
        Token::LBrace => Kw::LBrace,
        Token::RBrace => Kw::RBrace,
        Token::LParen => Kw::LParen,
        Token::RParen => Kw::RParen,
        Token::Eq => Kw::Eq,
        Token::SelfValue => Kw::SelfValue,
        Token::SelfType => Kw::SelfType,
        Token::Class => Kw::Class,
        Token::Else => Kw::Else,
        Token::Fi => Kw::Fi,
        Token::If => Kw::If,
        Token::In => Kw::In,
        Token::Inherits => Kw::Inherits,
        Token::IsVoid => Kw::IsVoid,
        Token::Let => Kw::Let,
        Token::Loop => Kw::Loop,
        Token::Pool => Kw::Pool,
        Token::Then => Kw::Then,
        Token::While => Kw::While,
        Token::Case => Kw::Case,
        Token::Esac => Kw::Esac,
        Token::New => Kw::New,
        Token::Of => Kw::Of,
        Token::Not => Kw::Not,
        Token::BoolConst(_) => Kw::BoolConst,
        Token::Integers(_) => Kw::Integers,
        Token::TypeIdentifier(_) => Kw::TypeId,
        Token::ObjectIdentifier(_) => Kw::ObjectId,
        Token::StringConstant(_) => Kw::StringConst,
        _ => Kw::Other,
    }
}

fn at_kw(t: &Vec<(usize, Token, usize)>, i: usize, k: Kw) -> (b: bool)
    ensures
        b == at(t@, i as int, k),
{
    i < t.len() && kw(&t[i].1) == k
}

fn fail_here(t: &Vec<(usize, Token, usize)>, j: usize, x: Expect) -> (m: Miss)
    ensures
        miss_view(m) == fail_at(t@, j as int, x),
        miss_valid(m, t.len() as int),
        miss_index(m, t.len() as int) >= j || j > t.len(),
        j <= t.len() ==> miss_index(m, t.len() as int) == j,
{
    if j < t.len() {
        Miss::Token(j, x)
    } else {
        Miss::End(x)
    }
}

fn type_id_at(t: &Vec<(usize, Token, usize)>, i: usize) -> (id: usize)
    requires
        i < t.len(),
    ensures
        id == type_id(t@, i as int),
{
    match &t[i].1 {
        Token::TypeIdentifier(id) => *id,
        _ => 0,
    }
}

fn object_id_at(t: &Vec<(usize, Token, usize)>, i: usize) -> (id: usize)
    requires
        i < t.len(),
    ensures
        id == object_id(t@, i as int),
{
    match &t[i].1 {
        Token::ObjectIdentifier(id) => *id,
        _ => 0,
    }
}

fn declared_type_at(t: &Vec<(usize, Token, usize)>, i: usize) -> (r: Option<ReturnType>)
    ensures
        r == declared_type(t@, i as int),
{
    if at_kw(t, i, Kw::TypeId) {
        Some(ReturnType::Type(type_id_at(t, i)))
    } else if at_kw(t, i, Kw::SelfType) {
        Some(ReturnType::SelfType)
    } else {
        None
    }
}

fn mk(f: &String, kind: ExprKind, start: usize, end: usize) -> (e: Expr)
    ensures
        e.kind == kind,
        e.span.file@ == f@,
        e.span.start == start,
        e.span.end == end,
{
    Expr { kind, span: Span::new(f.clone(), start, end) }
}

fn power(k: Kw) -> (p: u8)
    ensures
        p == binary_power(k),
{
    if k == Kw::Star || k == Kw::Slash {
        5
    } else if k == Kw::Plus || k == Kw::Minus {
        4
    } else if k == Kw::Lt || k == Kw::Le || k == Kw::Eq || k == Kw::Gt || k == Kw::Ge {
        3
    } else {
        0
    }
}

fn make_binary(f: &String, k: Kw, lhs: Expr, rhs: Expr) -> (e: Expr)
    ensures
        node_of(e) == binary_node(f@, k, node_of(lhs), node_of(rhs)),
{
    let s = lhs.span.start;
    let end = rhs.span.end;
    let kind = if k == Kw::Star {
        ExprKind::Mul(Box::new(lhs), Box::new(rhs))
    } else if k == Kw::Slash {
        ExprKind::Div(Box::new(lhs), Box::new(rhs))
    } else if k == Kw::Plus {
        ExprKind::Add(Box::new(lhs), Box::new(rhs))
    } else if k == Kw::Minus {
        ExprKind::Sub(Box::new(lhs), Box::new(rhs))
    } else if k == Kw::Lt {
        ExprKind::Lt(Box::new(lhs), Box::new(rhs))
    } else if k == Kw::Le {
        ExprKind::Le(Box::new(lhs), Box::new(rhs))
    } else if k == Kw::Eq {
        ExprKind::Eq(Box::new(lhs), Box::new(rhs))
    } else if k == Kw::Gt {
        ExprKind::Lt(Box::new(rhs), Box::new(lhs))
    } else {
        ExprKind::Le(Box::new(rhs), Box::new(lhs))
    };
    mk(f, kind, s, end)
}


/// A read that ends at `i` or later and within the tokens; when it
/// fails, fails at `i` or later.
spec fn reaches<A>(r: Result<(A, usize), Miss>, i: int, n: int) -> bool {
    match r {
        Ok((_, j)) => i <= j <= n,
        Err(m) => i <= miss_index(m, n) && miss_valid(m, n),
    }
}

spec fn opt_node(v: Option<Box<Expr>>) -> Option<Box<Node>> {
    match v {
        Some(b) => Some(Box::new(node_of(*b))),
        None => None,
    }
}

type Toks = Vec<(usize, Token, usize)>;

/// An expression at `i` whose operators bind tighter than `bp`.
fn r_expr(t: &Toks, f: &String, i: usize, bp: u8) -> (r: Result<(Expr, usize), Miss>)
    requires
        i <= t.len(),
    ensures
        expr_res(r) == p_expr(t@, f@, i as int, bp as int),
        advances(r, i as int, t.len() as int),
    decreases t.len() - i, 5int,
{
    if i >= t.len() {
        return Err(Miss::End(Expect::Expression));
    }
    match r_nud(t, f, i) {
        Ok((lhs, j)) => r_led(t, f, lhs, j, bp, false),
        Err(m) => Err(m),
    }
}

/// The operators after `lhs`, from `j` on, that bind tighter than `bp`.
fn r_led(t: &Toks, f: &String, lhs: Expr, j: usize, bp: u8, after_compare: bool) -> (r: Result<(Expr, usize), Miss>)
    requires
        j <= t.len(),
    ensures
        expr_res(r) == p_led(t@, f@, node_of(lhs), j as int, bp as int, after_compare),
        reaches(r, j as int, t.len() as int),
    decreases t.len() - j, 0int,
{
    if j >= t.len() {
        return Ok((lhs, j));
    }
    let k = kw(&t[j].1);
    if k == Kw::Dot {
        if !at_kw(t, j + 1, Kw::ObjectId) {
            return Err(fail_here(t, j + 1, Expect::One(Kw::ObjectId)));
        }
        if !at_kw(t, j + 2, Kw::LParen) {
            return Err(fail_here(t, j + 2, Expect::One(Kw::LParen)));
        }
        match r_args(t, f, j + 3) {
            Ok((args, m)) => {
                let name = object_id_at(t, j + 1);
                let s = lhs.span.start;
                let n = mk(f, ExprKind::Dispatch { expr: Box::new(lhs), name, args }, s, t[m - 1].2);
                r_led(t, f, n, m, bp, false)
            },
            Err(x) => Err(x),
        }
    } else if k == Kw::At {
        if !at_kw(t, j + 1, Kw::TypeId) {
            return Err(fail_here(t, j + 1, Expect::One(Kw::TypeId)));
        }
        if !at_kw(t, j + 2, Kw::Dot) {
            return Err(fail_here(t, j + 2, Expect::One(Kw::Dot)));
        }
        if !at_kw(t, j + 3, Kw::ObjectId) {
            return Err(fail_here(t, j + 3, Expect::One(Kw::ObjectId)));
        }
        if !at_kw(t, j + 4, Kw::LParen) {
            return Err(fail_here(t, j + 4, Expect::One(Kw::LParen)));
        }
        match r_args(t, f, j + 5) {
            Ok((args, m)) => {
                let type_dec = type_id_at(t, j + 1);
                let name = object_id_at(t, j + 3);
                let s = lhs.span.start;
                let n = mk(f, ExprKind::StaticDispatch { expr: Box::new(lhs), type_dec, name, args }, s, t[m - 1].2);
                r_led(t, f, n, m, bp, false)
            },
            Err(x) => Err(x),
        }
    } else {
        let p = power(k);
        if p > bp {
            if p == 3 && after_compare {
                Err(Miss::Token(j, Expect::NoComparison))
            } else {
                match r_expr(t, f, j + 1, p) {
                    Ok((rhs, m)) => {
                        let n = make_binary(f, k, lhs, rhs);
                        r_led(t, f, n, m, bp, p == 3)
                    },
                    Err(x) => Err(x),
                }
            }
        } else {
            Ok((lhs, j))
        }
    }
}

/// A prefix operator `k` at `i` and its operand.
fn r_prefix(t: &Toks, f: &String, i: usize, bp: u8, k: Kw) -> (r: Result<(Expr, usize), Miss>)
    requires
        i < t.len(),
    ensures
        expr_res(r) == p_prefix(t@, f@, i as int, bp as int, k),
        advances(r, i as int, t.len() as int),
    decreases t.len() - i, 3int,
{
    match r_expr(t, f, i + 1, bp) {
        Ok((e, j)) => {
            let end = e.span.end;
            let kind = if k == Kw::Not {
                ExprKind::Not(Box::new(e))
            } else if k == Kw::IsVoid {
                ExprKind::IsVoid(Box::new(e))
            } else {
                ExprKind::Neg(Box::new(e))
            };
            Ok((mk(f, kind, t[i].0, end), j))
        },
        Err(m) => Err(m),
    }
}

/// What starts an expression, at `i`.
fn r_nud(t: &Toks, f: &String, i: usize) -> (r: Result<(Expr, usize), Miss>)
    requires
        i <= t.len(),
    ensures
        expr_res(r) == p_nud(t@, f@, i as int),
        advances(r, i as int, t.len() as int),
    decreases t.len() - i, 4int,
{
    if i >= t.len() {
        return Err(Miss::End(Expect::Expression));
    }
    let k = kw(&t[i].1);
    let s = t[i].0;
    let e = t[i].2;
    if k == Kw::Not {
        r_prefix(t, f, i, 2, k)
    } else if k == Kw::IsVoid {
        r_prefix(t, f, i, 6, k)
    } else if k == Kw::Tilde {
        r_prefix(t, f, i, 7, k)
    } else if k == Kw::ObjectId || k == Kw::SelfValue {
        r_name(t, f, i)
    } else if k == Kw::Integers {
        let v = match &t[i].1 {
            Token::Integers(v) => *v,
            _ => 0,
        };
        Ok((mk(f, ExprKind::IntConstant(v), s, e), i + 1))
    } else if k == Kw::StringConst {
        let v = match &t[i].1 {
            Token::StringConstant(v) => *v,
            _ => 0,
        };
        Ok((mk(f, ExprKind::StringConstant(v), s, e), i + 1))
    } else if k == Kw::BoolConst {
        let v = match &t[i].1 {
            Token::BoolConst(v) => *v,
            _ => false,
        };
        Ok((mk(f, ExprKind::BoolConstant(v), s, e), i + 1))
    } else if k == Kw::LParen {
        r_paren(t, f, i)
    } else if k == Kw::New {
        match declared_type_at(t, i + 1) {
            Some(ty) => Ok((mk(f, ExprKind::New(ty), s, t[i + 1].2), i + 2)),
            None => Err(fail_here(t, i + 1, Expect::Two(Kw::TypeId, Kw::SelfType))),
        }
    } else if k == Kw::If {
        r_if(t, f, i)
    } else if k == Kw::While {
        r_while(t, f, i)
    } else if k == Kw::LBrace {
        let empty: Vec<Expr> = Vec::new();
        proof {
            assert(nodes(empty@) =~= Seq::<Node>::empty());
        }
        match r_block(t, f, i + 1, empty) {
            Ok((items, j)) => Ok((mk(f, ExprKind::Block(items), s, t[j - 1].2), j)),
            Err(m) => Err(m),
        }
    } else if k == Kw::Let {
        r_let(t, f, i + 1, i)
    } else if k == Kw::Case {
        r_case(t, f, i)
    } else {
        Err(Miss::Token(i, Expect::Expression))
    }
}

/// A name or `self` at `i`.
fn r_name(t: &Toks, f: &String, i: usize) -> (r: Result<(Expr, usize), Miss>)
    requires
        i < t.len(),
    ensures
        expr_res(r) == p_name(t@, f@, i as int),
        advances(r, i as int, t.len() as int),
    decreases t.len() - i, 3int,
{
    let s = t[i].0;
    let var = if at_kw(t, i, Kw::SelfValue) {
        Var::SelfValue
    } else {
        Var::Id(object_id_at(t, i))
    };
    if at_kw(t, i + 1, Kw::Assign) {
        match r_expr(t, f, i + 2, 0) {
            Ok((rhs, j)) => {
                let end = rhs.span.end;
                Ok((mk(f, ExprKind::Assignment { var, expr: Box::new(rhs) }, s, end), j))
            },
            Err(m) => Err(m),
        }
    } else if at_kw(t, i, Kw::ObjectId) && at_kw(t, i + 1, Kw::LParen) {
        match r_args(t, f, i + 2) {
            Ok((args, j)) => {
                let name = object_id_at(t, i);
                Ok((mk(f, ExprKind::SelfDispatch { name, args }, s, t[j - 1].2), j))
            },
            Err(m) => Err(m),
        }
    } else if at_kw(t, i, Kw::ObjectId) {
        Ok((mk(f, ExprKind::Object(object_id_at(t, i)), s, t[i].2), i + 1))
    } else {
        Ok((mk(f, ExprKind::SelfExpr, s, t[i].2), i + 1))
    }
}

/// `( expr )` at `i`.
fn r_paren(t: &Toks, f: &String, i: usize) -> (r: Result<(Expr, usize), Miss>)
    requires
        i < t.len(),
    ensures
        expr_res(r) == p_paren(t@, f@, i as int),
        advances(r, i as int, t.len() as int),
    decreases t.len() - i, 3int,
{
    match r_expr(t, f, i + 1, 0) {
        Ok((e, j)) => if at_kw(t, j, Kw::RParen) {
            Ok((e, j + 1))
        } else {
            Err(fail_here(t, j, Expect::One(Kw::RParen)))
        },
        Err(m) => Err(m),
    }
}

/// `if e then e else e fi` at `i`.
fn r_if(t: &Toks, f: &String, i: usize) -> (r: Result<(Expr, usize), Miss>)
    requires
        i < t.len(),
    ensures
        expr_res(r) == p_if(t@, f@, i as int),
        advances(r, i as int, t.len() as int),
    decreases t.len() - i, 3int,
{
    let (c, j) = match r_expr(t, f, i + 1, 0) {
        Ok(x) => x,
        Err(m) => {
            return Err(m);
        },
    };
    if !at_kw(t, j, Kw::Then) {
        return Err(fail_here(t, j, Expect::One(Kw::Then)));
    }
    let (a, k) = match r_expr(t, f, j + 1, 0) {
        Ok(x) => x,
        Err(m) => {
            return Err(m);
        },
    };
    if !at_kw(t, k, Kw::Else) {
        return Err(fail_here(t, k, Expect::One(Kw::Else)));
    }
    let (b, m) = match r_expr(t, f, k + 1, 0) {
        Ok(x) => x,
        Err(x) => {
            return Err(x);
        },
    };
    if !at_kw(t, m, Kw::Fi) {
        return Err(fail_here(t, m, Expect::One(Kw::Fi)));
    }
    let kind = ExprKind::Conditional { cond: Box::new(c), happy_path: Box::new(a), sad_path: Box::new(b) };
    Ok((mk(f, kind, t[i].0, t[m].2), m + 1))
}

/// `while e loop e pool` at `i`.
fn r_while(t: &Toks, f: &String, i: usize) -> (r: Result<(Expr, usize), Miss>)
    requires
        i < t.len(),
    ensures
        expr_res(r) == p_while(t@, f@, i as int),
        advances(r, i as int, t.len() as int),
    decreases t.len() - i, 3int,
{
    let (c, j) = match r_expr(t, f, i + 1, 0) {
        Ok(x) => x,
        Err(m) => {
            return Err(m);
        },
    };
    if !at_kw(t, j, Kw::Loop) {
        return Err(fail_here(t, j, Expect::One(Kw::Loop)));
    }
    let (b, k) = match r_expr(t, f, j + 1, 0) {
        Ok(x) => x,
        Err(m) => {
            return Err(m);
        },
    };
    if !at_kw(t, k, Kw::Pool) {
        return Err(fail_here(t, k, Expect::One(Kw::Pool)));
    }
    let kind = ExprKind::Loop { cond: Box::new(c), body: Box::new(b) };
    Ok((mk(f, kind, t[i].0, t[k].2), k + 1))
}

/// The arguments of a call from `i`, just after `(`, past the `)`.
fn r_args(t: &Toks, f: &String, i: usize) -> (r: Result<(Vec<Expr>, usize), Miss>)
    requires
        i <= t.len(),
    ensures
        list_res(r) == p_args(t@, f@, i as int),
        advances(r, i as int, t.len() as int),
    decreases t.len() - i, 7int,
{
    let empty: Vec<Expr> = Vec::new();
    proof {
        assert(nodes(empty@) =~= Seq::<Node>::empty());
    }
    if at_kw(t, i, Kw::RParen) {
        Ok((empty, i + 1))
    } else {
        r_arg_list(t, f, i, empty)
    }
}

/// The arguments from `i` on, appended to `acc`.
fn r_arg_list(t: &Toks, f: &String, i: usize, acc: Vec<Expr>) -> (r: Result<(Vec<Expr>, usize), Miss>)
    requires
        i <= t.len(),
    ensures
        list_res(r) == p_arg_list(t@, f@, i as int, nodes(acc@)),
        advances(r, i as int, t.len() as int),
    decreases t.len() - i, 6int,
{
    let mut acc = acc;
    match r_expr(t, f, i, 0) {
        Ok((e, j)) => {
            proof {
                lemma_nodes_push(acc@, e);
            }
            if at_kw(t, j, Kw::Comma) {
                acc.push(e);
                r_arg_list(t, f, j + 1, acc)
            } else if at_kw(t, j, Kw::RParen) {
                acc.push(e);
                Ok((acc, j + 1))
            } else {
                Err(fail_here(t, j, Expect::Two(Kw::Comma, Kw::RParen)))
            }
        },
        Err(m) => Err(m),
    }
}

/// The expressions of a block from `i` on, appended to `acc`, past `}`.
fn r_block(t: &Toks, f: &String, i: usize, acc: Vec<Expr>) -> (r: Result<(Vec<Expr>, usize), Miss>)
    requires
        i <= t.len(),
    ensures
        list_res(r) == p_block(t@, f@, i as int, nodes(acc@)),
        advances(r, i as int, t.len() as int),
    decreases t.len() - i, 6int,
{
    let mut acc = acc;
    match r_expr(t, f, i, 0) {
        Ok((e, j)) => {
            proof {
                lemma_nodes_push(acc@, e);
            }
            if !at_kw(t, j, Kw::Semicolon) {
                Err(fail_here(t, j, Expect::One(Kw::Semicolon)))
            } else if at_kw(t, j + 1, Kw::RBrace) {
                acc.push(e);
                Ok((acc, j + 2))
            } else {
                acc.push(e);
                r_block(t, f, j + 1, acc)
            }
        },
        Err(m) => Err(m),
    }
}

/// The bindings of a `let` from `i` on, the node starting at token `si`.
fn r_let(t: &Toks, f: &String, i: usize, si: usize) -> (r: Result<(Expr, usize), Miss>)
    requires
        i <= t.len(),
        si <= i,
    ensures
        expr_res(r) == p_let(t@, f@, i as int, si as int),
        advances(r, i as int, t.len() as int),
    decreases t.len() - i, 3int,
{
    if !at_kw(t, i, Kw::ObjectId) {
        return Err(fail_here(t, i, Expect::One(Kw::ObjectId)));
    }
    if !at_kw(t, i + 1, Kw::Colon) {
        return Err(fail_here(t, i + 1, Expect::One(Kw::Colon)));
    }
    let ty = match declared_type_at(t, i + 2) {
        Some(ty) => ty,
        None => {
            return Err(fail_here(t, i + 2, Expect::Two(Kw::TypeId, Kw::SelfType)));
        },
    };
    if at_kw(t, i + 3, Kw::Assign) {
        match r_expr(t, f, i + 4, 0) {
            Ok((e, j)) => r_let_rest(t, f, i, si, ty, Some(Box::new(e)), j),
            Err(m) => Err(m),
        }
    } else {
        r_let_rest(t, f, i, si, ty, None, i + 3)
    }
}

/// After the binding at `i` of a `let`, from `j` on.
fn r_let_rest(
    t: &Toks,
    f: &String,
    i: usize,
    si: usize,
    ty: ReturnType,
    value: Option<Box<Expr>>,
    j: usize,
) -> (r: Result<(Expr, usize), Miss>)
    requires
        si <= i < j <= t.len(),
        at(t@, i as int, Kw::ObjectId),
    ensures
        expr_res(r) == p_let_rest(t@, f@, i as int, si as int, ty, opt_node(value), j as int),
        advances(r, j as int, t.len() as int),
    decreases t.len() - j, 4int,
{
    let rest = if at_kw(t, j, Kw::Comma) {
        r_let(t, f, j + 1, j + 1)
    } else if at_kw(t, j, Kw::In) {
        r_expr(t, f, j + 1, 0)
    } else {
        Err(fail_here(t, j, Expect::Two(Kw::Comma, Kw::In)))
    };
    match rest {
        Ok((body, k)) => {
            let end = body.span.end;
            let name = object_id_at(t, i);
            let kind = ExprKind::Let { name, type_dec: ty, init: value, body: Box::new(body) };
            Ok((mk(f, kind, t[si].0, end), k))
        },
        Err(m) => Err(m),
    }
}

/// `case e of branches esac` at `i`.
fn r_case(t: &Toks, f: &String, i: usize) -> (r: Result<(Expr, usize), Miss>)
    requires
        i < t.len(),
    ensures
        expr_res(r) == p_case(t@, f@, i as int),
        advances(r, i as int, t.len() as int),
    decreases t.len() - i, 3int,
{
    let (c, j) = match r_expr(t, f, i + 1, 0) {
        Ok(x) => x,
        Err(m) => {
            return Err(m);
        },
    };
    if !at_kw(t, j, Kw::Of) {
        return Err(fail_here(t, j, Expect::One(Kw::Of)));
    }
    let empty: Vec<CaseBranch> = Vec::new();
    proof {
        assert(branch_nodes(empty@) =~= Seq::<BranchNode>::empty());
    }
    match r_branches(t, f, j + 1, empty) {
        Ok((bs, k)) => {
            let kind = ExprKind::Case { cond: Box::new(c), branches: bs };
            Ok((mk(f, kind, t[i].0, t[k - 1].2), k))
        },
        Err(m) => Err(m),
    }
}

/// The branches of a `case` from `i` on, appended to `acc`, past `esac`.
fn r_branches(t: &Toks, f: &String, i: usize, acc: Vec<CaseBranch>) -> (r: Result<(Vec<CaseBranch>, usize), Miss>)
    requires
        i <= t.len(),
    ensures
        branches_res(r) == p_branches(t@, f@, i as int, branch_nodes(acc@)),
        advances(r, i as int, t.len() as int),
    decreases t.len() - i, 6int,
{
    if !at_kw(t, i, Kw::ObjectId) {
        return Err(fail_here(t, i, Expect::One(Kw::ObjectId)));
    }
    if !at_kw(t, i + 1, Kw::Colon) {
        return Err(fail_here(t, i + 1, Expect::One(Kw::Colon)));
    }
    if !at_kw(t, i + 2, Kw::TypeId) {
        return Err(fail_here(t, i + 2, Expect::One(Kw::TypeId)));
    }
    if !at_kw(t, i + 3, Kw::FatArrow) {
        return Err(fail_here(t, i + 3, Expect::One(Kw::FatArrow)));
    }
    let mut acc = acc;
    match r_expr(t, f, i + 4, 0) {
        Ok((e, j)) => {
            let b = CaseBranch { name: object_id_at(t, i), type_dec: type_id_at(t, i + 2), body: Box::new(e) };
            proof {
                lemma_branch_nodes_push(acc@, b);
            }
            if !at_kw(t, j, Kw::Semicolon) {
                Err(fail_here(t, j, Expect::One(Kw::Semicolon)))
            } else if at_kw(t, j + 1, Kw::Esac) {
                acc.push(b);
                Ok((acc, j + 2))
            } else {
                acc.push(b);
                r_branches(t, f, j + 1, acc)
            }
        },
        Err(m) => Err(m),
    }
}


// ---------------------------------------------------------------------------
// Classes and features

pub open spec fn feature_node(ft: Feature) -> FeatureNode {
    match ft {
        Feature::Attribute { name, type_dec, init } => FeatureNode::Attribute(
            name,
            type_dec,
            match init {
                Some(b) => Some(node_of(*b)),
                None => None,
            },
        ),
        Feature::Method { name, params, type_dec, body } => FeatureNode::Method(name, params@, type_dec, node_of(*body)),
        Feature::Invalid => FeatureNode::Invalid,
    }
}

pub open spec fn feature_nodes(s: Seq<Feature>) -> Seq<FeatureNode> {
    s.map_values(|ft: Feature| feature_node(ft))
}

pub open spec fn class_node(c: Class) -> ClassNode {
    match c {
        Class::Valid { name, parent, features } => ClassNode::Valid(name, parent, feature_nodes(features@)),
        Class::Invalid => ClassNode::Invalid,
    }
}

pub open spec fn class_nodes(s: Seq<Class>) -> Seq<ClassNode> {
    s.map_values(|c: Class| class_node(c))
}

/// A recovered error: the index of the token that did not fit, what was
/// expected, and where reading went on.
type Rec = (usize, Expect, usize);

spec fn rec_view(x: Rec) -> Recovered {
    Recovered { at: x.0 as int, expected: x.1, resume: x.2 as int }
}

spec fn recs(s: Seq<Rec>) -> Seq<Recovered> {
    s.map_values(|x: Rec| rec_view(x))
}

spec fn stop_view(r: Result<usize, Miss>) -> Stop {
    match r {
        Ok(j) => Stop::At(j as int),
        Err(m) => Stop::Failed(miss_view(m)),
    }
}

spec fn feature_res(r: Result<(Feature, usize), Miss>) -> PRes<FeatureNode> {
    match r {
        Ok((ft, j)) => PRes::Read(feature_node(ft), j as int),
        Err(m) => PRes::Fail(miss_view(m)),
    }
}

spec fn formals_res(r: Result<(Vec<Formal>, usize), Miss>) -> PRes<Seq<Formal>> {
    match r {
        Ok((v, j)) => PRes::Read(v@, j as int),
        Err(m) => PRes::Fail(miss_view(m)),
    }
}

/// Where reading goes on after a failure at `k` in something that
/// started at `i`.
fn recover_at(t: &Toks, i: usize, k: usize, stop_at_close: bool) -> (r: usize)
    requires
        i <= t.len(),
    ensures
        r == recover_from(t@, i as int, 0, k as int, stop_at_close),
        i <= r <= t.len(),
        r == i ==> (i == t.len() || (stop_at_close && at(t@, i as int, Kw::RBrace))),
{
    let n = t.len();
    let mut j = i;
    let mut depth: usize = 0;
    while j < n
        invariant
            n == t.len(),
            i <= j <= n,
            depth <= j,
            recover_from(t@, i as int, 0, k as int, stop_at_close) == recover_from(
                t@,
                j as int,
                depth as int,
                k as int,
                stop_at_close,
            ),
            j == i ==> depth == 0,
        decreases n - j,
    {
        if at_kw(t, j, Kw::Semicolon) && depth == 0 && j >= k {
            return j + 1;
        }
        if at_kw(t, j, Kw::RBrace) && depth == 0 && stop_at_close {
            return j;
        }
        if at_kw(t, j, Kw::LBrace) {
            depth = depth + 1;
        } else if at_kw(t, j, Kw::RBrace) && depth > 0 {
            depth = depth - 1;
        }
        j = j + 1;
    }
    n
}

/// The formal parameters from `i` on, appended to `acc`, past `)`.
fn r_formal_list(t: &Toks, i: usize, acc: Vec<Formal>) -> (r: Result<(Vec<Formal>, usize), Miss>)
    requires
        i <= t.len(),
    ensures
        formals_res(r) == p_formal_list(t@, i as int, acc@),
        advances(r, i as int, t.len() as int),
    decreases t.len() - i,
{
    if !at_kw(t, i, Kw::ObjectId) {
        return Err(fail_here(t, i, Expect::One(Kw::ObjectId)));
    }
    if !at_kw(t, i + 1, Kw::Colon) {
        return Err(fail_here(t, i + 1, Expect::One(Kw::Colon)));
    }
    if !at_kw(t, i + 2, Kw::TypeId) {
        return Err(fail_here(t, i + 2, Expect::One(Kw::TypeId)));
    }
    let fm = Formal { name: object_id_at(t, i), type_dec: type_id_at(t, i + 2) };
    let mut acc = acc;
    if at_kw(t, i + 3, Kw::Comma) {
        acc.push(fm);
        r_formal_list(t, i + 4, acc)
    } else if at_kw(t, i + 3, Kw::RParen) {
        acc.push(fm);
        Ok((acc, i + 4))
    } else {
        Err(fail_here(t, i + 3, Expect::Two(Kw::Comma, Kw::RParen)))
    }
}

/// A method at `i`.
fn r_method(t: &Toks, f: &String, i: usize) -> (r: Result<(Feature, usize), Miss>)
    requires
        i + 1 < t.len(),
    ensures
        feature_res(r) == p_method(t@, f@, i as int),
        advances(r, i as int, t.len() as int),
{
    let fs = if at_kw(t, i + 2, Kw::RParen) {
        (Vec::new(), i + 3)
    } else {
        match r_formal_list(t, i + 2, Vec::new()) {
            Ok(x) => x,
            Err(m) => {
                return Err(m);
            },
        }
    };
    let (params, j) = fs;
    if !at_kw(t, j, Kw::Colon) {
        return Err(fail_here(t, j, Expect::One(Kw::Colon)));
    }
    let ty = match declared_type_at(t, j + 1) {
        Some(ty) => ty,
        None => {
            return Err(fail_here(t, j + 1, Expect::Two(Kw::TypeId, Kw::SelfType)));
        },
    };
    if !at_kw(t, j + 2, Kw::LBrace) {
        return Err(fail_here(t, j + 2, Expect::One(Kw::LBrace)));
    }
    match r_expr(t, f, j + 3, 0) {
        Ok((b, k)) => {
            let semi = at_kw(t, k, Kw::Semicolon);
            let close = if semi {
                k + 1
            } else {
                k
            };
            if at_kw(t, close, Kw::RBrace) {
                let name = object_id_at(t, i);
                Ok((Feature::Method { name, params, type_dec: ty, body: Box::new(b) }, close + 1))
            } else if semi {
                Err(fail_here(t, close, Expect::One(Kw::RBrace)))
            } else {
                Err(fail_here(t, k, Expect::Two(Kw::Semicolon, Kw::RBrace)))
            }
        },
        Err(m) => Err(m),
    }
}

/// A feature at `i`.
fn r_feature(t: &Toks, f: &String, i: usize) -> (r: Result<(Feature, usize), Miss>)
    requires
        i < t.len(),
    ensures
        feature_res(r) == p_feature(t@, f@, i as int),
        advances(r, i as int, t.len() as int),
{
    if !at_kw(t, i, Kw::ObjectId) {
        return Err(fail_here(t, i, Expect::Two(Kw::ObjectId, Kw::RBrace)));
    }
    if at_kw(t, i + 1, Kw::LParen) {
        return r_method(t, f, i);
    }
    if !at_kw(t, i + 1, Kw::Colon) {
        return Err(fail_here(t, i + 1, Expect::Two(Kw::LParen, Kw::Colon)));
    }
    let ty = match declared_type_at(t, i + 2) {
        Some(ty) => ty,
        None => {
            return Err(fail_here(t, i + 2, Expect::Two(Kw::TypeId, Kw::SelfType)));
        },
    };
    let name = object_id_at(t, i);
    if at_kw(t, i + 3, Kw::Assign) {
        match r_expr(t, f, i + 4, 0) {
            Ok((e, j)) => Ok((Feature::Attribute { name, type_dec: ty, init: Some(Box::new(e)) }, j)),
            Err(m) => Err(m),
        }
    } else {
        Ok((Feature::Attribute { name, type_dec: ty, init: None }, i + 3))
    }
}


spec fn body_view(features: Seq<Feature>, errors: Seq<Rec>, stop: Result<usize, Miss>) -> Body {
    Body { features: feature_nodes(features), errors: recs(errors), stop: stop_view(stop) }
}

/// The features of a class body from `i` on, up to its `}`.
fn r_features(t: &Toks, f: &String, i: usize) -> (r: (Vec<Feature>, Vec<Rec>, Result<usize, Miss>))
    requires
        i <= t.len(),
    ensures
        body_view(r.0@, r.1@, r.2) == p_features(t@, f@, i as int, Seq::empty(), Seq::empty()),
        r.2 matches Ok(k) ==> i <= k < t.len(),
        r.2 matches Err(m) ==> m is End,
        forall|q: int| 0 <= q < r.1@.len() ==> (#[trigger] r.1@[q]).0 < t.len() && r.1@[q].2 <= t.len(),
{
    let n = t.len();
    let mut features: Vec<Feature> = Vec::new();
    let mut errors: Vec<Rec> = Vec::new();
    let mut j = i;
    proof {
        assert(feature_nodes(features@) =~= Seq::<FeatureNode>::empty());
        assert(recs(errors@) =~= Seq::<Recovered>::empty());
    }
    while j < n
        invariant
            n == t.len(),
            i <= j <= n,
            forall|q: int| 0 <= q < errors@.len() ==> (#[trigger] errors@[q]).0 < n && errors@[q].2 <= n,
            p_features(t@, f@, i as int, Seq::empty(), Seq::empty()) == p_features(
                t@,
                f@,
                j as int,
                feature_nodes(features@),
                recs(errors@),
            ),
        decreases n - j,
    {
        if at_kw(t, j, Kw::RBrace) {
            return (features, errors, Ok(j));
        }
        let failure = match r_feature(t, f, j) {
            Ok((ft, k)) => {
                if at_kw(t, k, Kw::Semicolon) {
                    proof {
                        assert(feature_nodes(features@.push(ft)) =~= feature_nodes(features@).push(feature_node(ft)));
                    }
                    features.push(ft);
                    j = k + 1;
                    continue;
                }
                fail_here(t, k, Expect::One(Kw::Semicolon))
            },
            Err(m) => m,
        };
        proof {
            assert(p_features(t@, f@, j as int, feature_nodes(features@), recs(errors@)) == feature_failed(
                t@,
                f@,
                j as int,
                feature_nodes(features@),
                recs(errors@),
                miss_view(failure),
            ));
        }
        match failure {
            Miss::Token(k, e) => {
                let r = recover_at(t, j, k, true);
                proof {
                    assert(feature_nodes(features@.push(Feature::Invalid)) =~= feature_nodes(features@).push(FeatureNode::Invalid));
                    assert(recs(errors@.push((k, e, r))) =~= recs(errors@).push(Recovered { at: k as int, expected: e, resume: r as int }));
                }
                features.push(Feature::Invalid);
                errors.push((k, e, r));
                j = r;
            },
            Miss::End(_) => {
                return (features, errors, Err(failure));
            },
        }
    }
    (features, errors, Err(Miss::End(Expect::Two(Kw::ObjectId, Kw::RBrace))))
}

spec fn class_res_view(c: Class, errors: Seq<Rec>, stop: Result<usize, Miss>) -> ClassRes {
    ClassRes { class: class_node(c), errors: recs(errors), stop: stop_view(stop) }
}

/// A class at `i`.
fn r_class(t: &Toks, f: &String, i: usize) -> (r: (Class, Vec<Rec>, Result<usize, Miss>))
    requires
        i < t.len(),
    ensures
        class_res_view(r.0, r.1@, r.2) == p_class(t@, f@, i as int),
        r.2 matches Ok(k) ==> i < k <= t.len(),
        r.2 matches Err(m) ==> i <= miss_index(m, t.len() as int) && miss_valid(m, t.len() as int),
        forall|q: int| 0 <= q < r.1@.len() ==> (#[trigger] r.1@[q]).0 < t.len() && r.1@[q].2 <= t.len(),
{
    let none: Vec<Rec> = Vec::new();
    proof {
        assert(recs(none@) =~= Seq::<Recovered>::empty());
    }
    if !at_kw(t, i, Kw::Class) {
        return (Class::Invalid, none, Err(fail_here(t, i, Expect::One(Kw::Class))));
    }
    if !at_kw(t, i + 1, Kw::TypeId) {
        return (Class::Invalid, none, Err(fail_here(t, i + 1, Expect::One(Kw::TypeId))));
    }
    let inherits = at_kw(t, i + 2, Kw::Inherits);
    if inherits && !at_kw(t, i + 3, Kw::TypeId) {
        return (Class::Invalid, none, Err(fail_here(t, i + 3, Expect::One(Kw::TypeId))));
    }
    let parent = if inherits {
        Some(type_id_at(t, i + 3))
    } else {
        None
    };
    let j = if inherits {
        i + 4
    } else {
        i + 2
    };
    if !at_kw(t, j, Kw::LBrace) {
        let x = if inherits {
            Expect::One(Kw::LBrace)
        } else {
            Expect::Two(Kw::Inherits, Kw::LBrace)
        };
        return (Class::Invalid, none, Err(fail_here(t, j, x)));
    }
    let (features, errors, stop) = r_features(t, f, j + 1);
    match stop {
        Ok(k) => {
            let name = type_id_at(t, i + 1);
            (Class::Valid { name, parent, features }, errors, Ok(k + 1))
        },
        Err(m) => (Class::Invalid, errors, Err(m)),
    }
}

spec fn program_view(classes: Seq<Class>, errors: Seq<Rec>, fatal: Option<Miss>) -> ProgramRes {
    ProgramRes {
        classes: class_nodes(classes),
        errors: recs(errors),
        fatal: match fatal {
            Some(m) => Some(miss_view(m)),
            None => None,
        },
    }
}

/// All the classes of a program.
fn r_classes(t: &Toks, f: &String) -> (r: (Vec<Class>, Vec<Rec>, Option<Miss>))
    ensures
        program_view(r.0@, r.1@, r.2) == p_classes(t@, f@, 0, Seq::empty(), Seq::empty()),
        forall|q: int| 0 <= q < r.1@.len() ==> (#[trigger] r.1@[q]).0 < t.len() && r.1@[q].2 <= t.len(),
        r.2 matches Some(m) ==> miss_valid(m, t.len() as int),
{
    let n = t.len();
    let mut classes: Vec<Class> = Vec::new();
    let mut errors: Vec<Rec> = Vec::new();
    let mut i: usize = 0;
    proof {
        assert(class_nodes(classes@) =~= Seq::<ClassNode>::empty());
        assert(recs(errors@) =~= Seq::<Recovered>::empty());
    }
    while i < n
        invariant
            n == t.len(),
            i <= n,
            forall|q: int| 0 <= q < errors@.len() ==> (#[trigger] errors@[q]).0 < n && errors@[q].2 <= n,
            p_classes(t@, f@, 0, Seq::empty(), Seq::empty()) == p_classes(
                t@,
                f@,
                i as int,
                class_nodes(classes@),
                recs(errors@),
            ),
        decreases n - i,
    {
        let (c, mut errs, stop) = r_class(t, f, i);
        let ghost before = errors@;
        let ghost inner = errs@;
        proof {
            assert(recs(before + inner) =~= recs(before) + recs(inner));
        }
        errors.append(&mut errs);
        let failure = match stop {
            Ok(k) => {
                if at_kw(t, k, Kw::Semicolon) {
                    proof {
                        assert(class_nodes(classes@.push(c)) =~= class_nodes(classes@).push(class_node(c)));
                    }
                    classes.push(c);
                    i = k + 1;
                    continue;
                }
                fail_here(t, k, Expect::One(Kw::Semicolon))
            },
            Err(m) => m,
        };
        proof {
            assert(p_classes(t@, f@, i as int, class_nodes(classes@), recs(before)) == class_failed(
                t@,
                f@,
                i as int,
                class_nodes(classes@),
                recs(errors@),
                miss_view(failure),
            ));
        }
        match failure {
            Miss::Token(k, e) => {
                let r = recover_at(t, i, k, false);
                proof {
                    assert(class_nodes(classes@.push(Class::Invalid)) =~= class_nodes(classes@).push(ClassNode::Invalid));
                    assert(recs(errors@.push((k, e, r))) =~= recs(errors@).push(Recovered { at: k as int, expected: e, resume: r as int }));
                }
                classes.push(Class::Invalid);
                errors.push((k, e, r));
                i = r;
            },
            Miss::End(_) => {
                return (classes, errors, Some(failure));
            },
        }
    }
    if classes.len() > 0 {
        (classes, errors, None)
    } else {
        (classes, errors, Some(Miss::End(Expect::One(Kw::Class))))
    }
}


// ---------------------------------------------------------------------------
// Errors, and the parser as callers see it

/// An error of the parser.
#[derive(Debug, PartialEq)]
pub enum ParseError {
    /// A token that no rule of the grammar uses.
    InvalidToken { location: usize },
    /// The input ended where more was expected.
    UnrecognizedEof { location: usize, expected: Vec<String> },
    /// A token that does not fit where it stands.
    UnrecognizedToken { token: (usize, Token, usize), expected: Vec<String> },
    /// A token after a complete program.
    ExtraToken { token: (usize, Token, usize) },
    /// A lexical error met in the tokens.
    User { error: ErrorToken },
}

/// An error, and the tokens skipped to recover from it.
#[derive(Debug, PartialEq)]
pub struct ErrorRecovery {
    pub error: ParseError,
    pub dropped_tokens: Vec<(usize, Token, usize)>,
}

pub open spec fn strings(v: Seq<String>) -> Seq<Seq<char>> {
    v.map_values(|s: String| s@)
}

fn kw_name_string(k: Kw) -> (s: String)
    ensures
        s@ == kw_name(k),
{
    match k {
        Kw::Dot => String::from_str("\".\""),
        Kw::At => String::from_str("\"@\""),
        Kw::Tilde => String::from_str("\"~\""),
        Kw::Slash => String::from_str("\"/\""),
        Kw::Plus => String::from_str("\"+\""),
        Kw::Minus => String::from_str("\"-\""),
        Kw::FatArrow => String::from_str("\"=>\""),
        Kw::Lt => String::from_str("\"<\""),
        Kw::Le => String::from_str("\"<=\""),
        Kw::Gt => String::from_str("\">\""),
        Kw::Ge => String::from_str("\">=\""),
        Kw::Star => String::from_str("\"*\""),
        Kw::Assign => String::from_str("\"<-\""),
        Kw::Semicolon => String::from_str("\";\""),
        Kw::Comma => String::from_str("\",\""),
        Kw::Colon => String::from_str("\":\""),
        Kw::LBrace => String::from_str("\"{\""),
        Kw::RBrace => String::from_str("\"}\""),
        Kw::LParen => String::from_str("\"(\""),
        Kw::RParen => String::from_str("\")\""),
        Kw::Eq => String::from_str("\"=\""),
        Kw::SelfValue => String::from_str("\"self\""),
        Kw::SelfType => String::from_str("\"SELF_TYPE\""),
        Kw::Class => String::from_str("\"class\""),
        Kw::Else => String::from_str("\"else\""),
        Kw::Fi => String::from_str("\"fi\""),
        Kw::If => String::from_str("\"if\""),
        Kw::In => String::from_str("\"in\""),
        Kw::Inherits => String::from_str("\"inherits\""),
        Kw::IsVoid => String::from_str("\"isvoid\""),
        Kw::Let => String::from_str("\"let\""),
        Kw::Loop => String::from_str("\"loop\""),
        Kw::Pool => String::from_str("\"pool\""),
        Kw::Then => String::from_str("\"then\""),
        Kw::While => String::from_str("\"while\""),
        Kw::Case => String::from_str("\"case\""),
        Kw::Esac => String::from_str("\"esac\""),
        Kw::New => String::from_str("\"new\""),
        Kw::Of => String::from_str("\"of\""),
        Kw::Not => String::from_str("\"not\""),
        Kw::BoolConst => String::from_str("BoolConst"),
        Kw::Integers => String::from_str("Integers"),
        Kw::TypeId => String::from_str("TypeIdentifier"),
        Kw::ObjectId => String::from_str("ObjectIdentifier"),
        Kw::StringConst => String::from_str("StringConstant"),
        Kw::Other => String::from_str("Error"),
    }
}

/// The names of the tokens that were expected.
fn expected_strings(x: Expect) -> (v: Vec<String>)
    ensures
        strings(v@) == expect_names(x),
{
    let mut v: Vec<String> = Vec::new();
    match x {
        Expect::One(k) => {
            v.push(kw_name_string(k));
        },
        Expect::Two(a, b) => {
            v.push(kw_name_string(a));
            v.push(kw_name_string(b));
        },
        Expect::Expression => {
            v.push(kw_name_string(Kw::ObjectId));
            v.push(kw_name_string(Kw::SelfValue));
            v.push(kw_name_string(Kw::Integers));
            v.push(kw_name_string(Kw::StringConst));
            v.push(kw_name_string(Kw::BoolConst));
            v.push(kw_name_string(Kw::LParen));
            v.push(kw_name_string(Kw::New));
            v.push(kw_name_string(Kw::If));
            v.push(kw_name_string(Kw::While));
            v.push(kw_name_string(Kw::LBrace));
            v.push(kw_name_string(Kw::Let));
            v.push(kw_name_string(Kw::Case));
            v.push(kw_name_string(Kw::Not));
            v.push(kw_name_string(Kw::IsVoid));
            v.push(kw_name_string(Kw::Tilde));
        },
        Expect::NoComparison => {},
    }
    proof {
        assert(strings(v@) =~= expect_names(x));
    }
    v
}

/// The tokens from `k` up to `r`, or none when `r` comes first.
pub open spec fn dropped(t: TokSeq, k: int, r: int) -> TokSeq {
    if k <= r {
        t.subrange(k, r)
    } else {
        Seq::empty()
    }
}

fn copy_range(t: &Toks, k: usize, r: usize) -> (v: Vec<(usize, Token, usize)>)
    requires
        r <= t.len(),
    ensures
        v@ == dropped(t@, k as int, r as int),
{
    let mut v: Vec<(usize, Token, usize)> = Vec::new();
    if k > r {
        return v;
    }
    let mut q = k;
    while q < r
        invariant
            k <= q <= r,
            r <= t.len(),
            v@ == t@.subrange(k as int, q as int),
        decreases r - q,
    {
        let x = (t[q].0, t[q].1.duplicate(), t[q].2);
        proof {
            assert(t@.subrange(k as int, q + 1) =~= v@.push(x));
        }
        v.push(x);
        q = q + 1;
    }
    v
}

/// `er` reports the recovered error `rc` of the tokens `t`.
pub open spec fn recovery_is(er: ErrorRecovery, t: TokSeq, rc: Recovered) -> bool {
    &&& er.error matches ParseError::UnrecognizedToken { token, expected }
    &&& token == t[rc.at]
    &&& strings(expected@) == expect_names(rc.expected)
    &&& er.dropped_tokens@ == dropped(t, rc.at, rc.resume)
}

/// The index of the first lexical error from `i` on, or the length.
pub open spec fn first_error_from(ts: Seq<Spanned<Token, usize, ErrorToken>>, i: int) -> int
    decreases ts.len() - i,
{
    if i < 0 || i >= ts.len() {
        ts.len() as int
    } else if ts[i] is Err {
        i
    } else {
        first_error_from(ts, i + 1)
    }
}

pub open spec fn ok_value(r: Spanned<Token, usize, ErrorToken>) -> (usize, Token, usize) {
    match r {
        Ok(x) => x,
        Err(_) => (0, Token::Dot, 0),
    }
}

/// The tokens before index `n`.
pub open spec fn ok_tokens(ts: Seq<Spanned<Token, usize, ErrorToken>>, n: int) -> TokSeq {
    Seq::new(n as nat, |k: int| ok_value(ts[k]))
}

/// Where the last token ends, or 0 when there is none.
pub open spec fn last_end(t: TokSeq) -> usize {
    if t.len() == 0 {
        0
    } else {
        t.last().2
    }
}

/// `e` is the error that ends reading: the lexical error at `n` when
/// there is one, else the failure `fatal` of the grammar.
pub open spec fn fatal_is(
    e: ParseError,
    ts: Seq<Spanned<Token, usize, ErrorToken>>,
    n: int,
    t: TokSeq,
    fatal: Option<PFail>,
) -> bool {
    if n < ts.len() {
        ts[n] matches Err(le) && e == (ParseError::User { error: le })
    } else {
        match fatal {
            Some(PFail::End(x)) => e matches ParseError::UnrecognizedEof { location, expected } && location
                == last_end(t) && strings(expected@) == expect_names(x),
            Some(PFail::Token(k, x)) => e matches ParseError::UnrecognizedToken { token, expected } && token
                == t[k] && strings(expected@) == expect_names(x),
            None => false,
        }
    }
}

/// What reading the tokens `ts` of the file `file` gives: the errors it
/// recovered from are appended to `errors`, in order; then the program,
/// when the tokens hold no lexical error and the grammar reached their
/// end, or else the error that ended reading.
pub open spec fn parse_result(
    file: Seq<char>,
    ts: Seq<Spanned<Token, usize, ErrorToken>>,
    before: Seq<ErrorRecovery>,
    after: Seq<ErrorRecovery>,
    r: Result<Program, ParseError>,
) -> bool {
    let n = first_error_from(ts, 0);
    let t = ok_tokens(ts, n);
    let res = p_classes(t, file, 0, Seq::empty(), Seq::empty());
    &&& after.len() == before.len() + res.errors.len()
    &&& forall|k: int| 0 <= k < before.len() ==> after[k] == before[k]
    &&& forall|k: int|
        0 <= k < res.errors.len() ==> recovery_is(#[trigger] after[before.len() + k], t, res.errors[k])
    &&& match r {
        Ok(p) => n == ts.len() && res.fatal is None && class_nodes(p.classes@) == res.classes,
        Err(e) => fatal_is(e, ts, n, t, res.fatal),
    }
}

/// Reads a program from its tokens; see `parse_result`.
pub(crate) fn parse_tokens(
    file: &str,
    errors: &mut Vec<ErrorRecovery>,
    tokens: Vec<Spanned<Token, usize, ErrorToken>>,
) -> (r: Result<Program, ParseError>)
    ensures
        parse_result(file@, tokens@, old(errors)@, final(errors)@, r),
{
    let f = file.to_owned();
    let ghost ts = tokens@;
    let mut n: usize = 0;
    let mut toks: Vec<(usize, Token, usize)> = Vec::new();
    while n < tokens.len() && tokens[n].is_ok()
        invariant
            n <= tokens.len(),
            ts == tokens@,
            first_error_from(ts, 0) == first_error_from(ts, n as int),
            toks@ == ok_tokens(ts, n as int),
        decreases tokens.len() - n,
    {
        match &tokens[n] {
            Ok((s, t, e)) => {
                let x = (*s, t.duplicate(), *e);
                proof {
                    assert(ok_tokens(ts, n + 1) =~= toks@.push(x));
                }
                toks.push(x);
            },
            Err(_) => {},
        }
        n = n + 1;
    }
    let ghost t = toks@;
    let (classes, recs_found, fatal) = r_classes(&toks, &f);
    let ghost res = p_classes(t, f@, 0, Seq::empty(), Seq::empty());
    let ghost before = errors@;
    let mut q: usize = 0;
    while q < recs_found.len()
        invariant
            0 <= q <= recs_found.len(),
            t == toks@,
            res == p_classes(t, f@, 0, Seq::empty(), Seq::empty()),
            recs(recs_found@) == res.errors,
            forall|p: int|
                0 <= p < recs_found@.len() ==> (#[trigger] recs_found@[p]).0 < toks.len() && recs_found@[p].2
                    <= toks.len(),
            errors@.len() == before.len() + q,
            forall|k: int| 0 <= k < before.len() ==> errors@[k] == before[k],
            forall|k: int| 0 <= k < q ==> recovery_is(#[trigger] errors@[before.len() + k], t, res.errors[k]),
        decreases recs_found.len() - q,
    {
        let (k, x, r) = recs_found[q];
        proof {
            assert(res.errors[q as int] == rec_view(recs_found@[q as int]));
        }
        let token = (toks[k].0, toks[k].1.duplicate(), toks[k].2);
        let er = ErrorRecovery {
            error: ParseError::UnrecognizedToken { token, expected: expected_strings(x) },
            dropped_tokens: copy_range(&toks, k, r),
        };
        errors.push(er);
        q = q + 1;
    }
    if n < tokens.len() {
        match &tokens[n] {
            Err(le) => {
                return Err(ParseError::User { error: le.duplicate() });
            },
            Ok(_) => {},
        }
    }
    match fatal {
        None => Ok(Program { classes }),
        Some(Miss::End(x)) => {
            let location = if toks.len() == 0 {
                0
            } else {
                toks[toks.len() - 1].2
            };
            Err(ParseError::UnrecognizedEof { location, expected: expected_strings(x) })
        },
        Some(Miss::Token(k, x)) => {
            let token = (toks[k].0, toks[k].1.duplicate(), toks[k].2);
            Err(ParseError::UnrecognizedToken { token, expected: expected_strings(x) })
        },
    }
}


/// The tokens `ts` of the file `file` read as a program with no error.
pub open spec fn parses_cleanly(file: Seq<char>, ts: Seq<Spanned<Token, usize, ErrorToken>>) -> bool {
    let n = first_error_from(ts, 0);
    let res = p_classes(ok_tokens(ts, n), file, 0, Seq::empty(), Seq::empty());
    n == ts.len() && res.fatal is None && res.errors.len() == 0
}

/// Reads programs from tokens, and keeps the errors of the last read.
pub struct Parser {
    file: String,
    errors: Vec<ErrorRecovery>,
}

impl Parser {
    /// The file name that spans carry.
    pub closed spec fn file(&self) -> Seq<char> {
        self.file@
    }

    /// The errors of the last read.
    pub closed spec fn error_list(&self) -> Seq<ErrorRecovery> {
        self.errors@
    }

    /// A parser for the file `file`, with no errors yet.
    pub fn new(file: &str) -> (p: Self)
        ensures
            p.file() == file@,
            p.error_list().len() == 0,
    {
        Parser { file: file.to_owned(), errors: Vec::new() }
    }

    /// The errors of the last read.
    pub fn errors(&self) -> (e: &Vec<ErrorRecovery>)
        ensures
            e@ == self.error_list(),
    {
        &self.errors
    }

    /// Gives back the errors of the last read.
    pub fn into_errors(self) -> (e: Vec<ErrorRecovery>)
        ensures
            e@ == self.error_list(),
    {
        self.errors
    }

    /// Reads a program from `tokens`. It is given back only when reading
    /// met no error at all; else the errors are kept: those recovered
    /// from, in order, then the one that ended reading, if any.
    pub fn parse(&mut self, tokens: Vec<Spanned<Token, usize, ErrorToken>>) -> (r: Option<Program>)
        ensures
            final(self).file() == old(self).file(),
            ({
                let ts = tokens@;
                let f = old(self).file();
                let n = first_error_from(ts, 0);
                let t = ok_tokens(ts, n);
                let res = p_classes(t, f, 0, Seq::empty(), Seq::empty());
                let finished = n == ts.len() && res.fatal is None;
                let errs = final(self).error_list();
                &&& r is Some <==> parses_cleanly(f, ts)
                &&& r matches Some(p) ==> class_nodes(p.classes@) == res.classes
                &&& errs.len() == res.errors.len() + if finished { 0int } else { 1int }
                &&& forall|k: int| 0 <= k < res.errors.len() ==> recovery_is(#[trigger] errs[k], t, res.errors[k])
                &&& !finished ==> errs.last().dropped_tokens@.len() == 0 && fatal_is(errs.last().error, ts, n, t, res.fatal)
            }),
    {
        self.errors.clear();
        let ghost before = self.errors@;
        let ghost ts = tokens@;
        let r = parse_tokens(self.file.as_str(), &mut self.errors, tokens);
        proof {
            let n = first_error_from(ts, 0);
            let t = ok_tokens(ts, n);
            let res = p_classes(t, self.file@, 0, Seq::empty(), Seq::empty());
            assert forall|k: int| 0 <= k < res.errors.len() implies recovery_is(#[trigger] self.errors@[k], t, res.errors[k]) by {
                assert(self.errors@[before.len() + k] == self.errors@[k]);
            }
        }
        match r {
            Ok(program) => {
                if self.errors.len() == 0 {
                    Some(program)
                } else {
                    None
                }
            },
            Err(e) => {
                self.errors.push(ErrorRecovery { error: e, dropped_tokens: Vec::new() });
                None
            },
        }
    }
}

} // verus!
