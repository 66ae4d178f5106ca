//! The typing rules that the semantic analysis follows, as spec functions.
use vstd::prelude::*;

use crate::ast;
use crate::parse_tree::{CaseBranch, Class, Expr, ExprKind, Feature, Formal, Var};
use crate::semantic_analysis::builtins::{BOOL_ID, INT_ID, OBJECT_ID, STRING_ID};
use crate::semantic_analysis::inheritance_tree::{ancestor_at, common_ancestor_exists, hierarchy_errors, hierarchy_of, is_lub, is_subtype_of};
use crate::semantic_analysis::method_table::{formals_of, lookup_method, methods_of, same_signature, scan_methods, signature_of, FormalInfo, ReturnType, Signature};
use crate::semantic_analysis::symbol_table::lookup_spec;
use crate::semantic_analysis::{halted, plain_error, Halt, ObjInfo, ObjKind, SemanticError, SemanticErrorKind};
use crate::utils::Span;

verus! {

/// What checking an expression comes to: its type, the first error
/// found, or a point where the analysis cannot go on (an expression that
/// did not parse, or two types without a common ancestor).
pub enum Outcome {
    Typed(ReturnType),
    Failed(SemanticError),
    Stuck,
}

/// What checking a list of expressions comes to: their types, in order,
/// or the outcome of the first one that is not typed.
pub enum ListOutcome {
    Typed(Seq<ReturnType>),
    Failed(SemanticError),
    Stuck,
}

/// The environment of a class being checked.
pub struct Ctx {
    pub tree: Map<usize, Option<usize>>,
    pub methods: Map<(usize, usize), Signature>,
    pub cls: usize,
}

pub open spec fn int_type() -> ReturnType {
    ReturnType::Type(INT_ID)
}

pub open spec fn bool_type() -> ReturnType {
    ReturnType::Type(BOOL_ID)
}

pub open spec fn string_type() -> ReturnType {
    ReturnType::Type(STRING_ID)
}

pub open spec fn object_type() -> ReturnType {
    ReturnType::Type(OBJECT_ID)
}

/// The class that a type stands for inside class `cls`.
pub open spec fn class_of(cls: usize, t: ReturnType) -> usize {
    match t {
        ReturnType::SelfType => cls,
        ReturnType::Type(id) => id,
    }
}

/// A value of type `sub` may stand where `sup` is expected, inside `cls`.
pub open spec fn conforms(tree: Map<usize, Option<usize>>, cls: usize, sub: ReturnType, sup: ReturnType) -> bool {
    match (sub, sup) {
        (ReturnType::SelfType, ReturnType::SelfType) => true,
        (ReturnType::SelfType, ReturnType::Type(t)) => is_subtype_of(tree, cls, t),
        (ReturnType::Type(_), ReturnType::SelfType) => false,
        (ReturnType::Type(s), ReturnType::Type(t)) => is_subtype_of(tree, s, t),
    }
}

/// The two types have a least upper bound.
pub open spec fn join_defined(tree: Map<usize, Option<usize>>, cls: usize, a: ReturnType, b: ReturnType) -> bool {
    common_ancestor_exists(tree, class_of(cls, a), class_of(cls, b))
}

/// The least upper bound of two types: `SELF_TYPE` when both are
/// `SELF_TYPE`, else the least upper bound of their classes.
pub open spec fn join(tree: Map<usize, Option<usize>>, cls: usize, a: ReturnType, b: ReturnType) -> ReturnType {
    let l = choose|r: usize| is_lub(tree, class_of(cls, a), class_of(cls, b), r);
    if l == cls && a is SelfType && b is SelfType {
        ReturnType::SelfType
    } else {
        ReturnType::Type(l)
    }
}

/// `Int`, `String` and `Bool`, which may only be compared with their own kind.
pub open spec fn is_primitive(t: ReturnType) -> bool {
    t == int_type() || t == string_type() || t == bool_type()
}

pub open spec fn mismatch(expected: ReturnType, found: ReturnType, span: Option<Span>) -> SemanticError {
    SemanticError { kind: SemanticErrorKind::TypeMismatch { expected, found }, span }
}

/// The scopes inside a `let` or a case branch that binds `name` to `ty`.
pub open spec fn with_local(env: Seq<Map<usize, ObjInfo>>, name: usize, ty: ReturnType) -> Seq<Map<usize, ObjInfo>> {
    env.push(Map::empty().insert(name, ObjInfo { ty, kind: ObjKind::Local }))
}

/// Index of the first argument whose type does not conform to its formal.
pub open spec fn first_bad_argument(ctx: Ctx, formals: Seq<FormalInfo>, ts: Seq<ReturnType>, n: int) -> Option<int>
    decreases n,
{
    if n <= 0 {
        None
    } else {
        match first_bad_argument(ctx, formals, ts, n - 1) {
            Some(i) => Some(i),
            None => if !conforms(ctx.tree, ctx.cls, ts[n - 1], ReturnType::Type(formals[n - 1].ty)) {
                Some(n - 1)
            } else {
                None
            },
        }
    }
}

/// A call of `name` on a value of class `t0` (static type `self_ty`)
/// with arguments of types `ts`.
pub open spec fn call_outcome(ctx: Ctx, t0: usize, self_ty: ReturnType, name: usize, ts: Seq<ReturnType>) -> Outcome {
    match lookup_method(ctx.methods, ctx.tree, t0, name) {
        None => Outcome::Failed(plain_error(SemanticErrorKind::UndefinedMethod { class: ctx.cls, method: name })),
        Some(sig) => if sig.0.len() != ts.len() {
            Outcome::Failed(plain_error(SemanticErrorKind::WrongNumberOfArguments { expected: sig.0.len() as usize, found: ts.len() as usize }))
        } else {
            match first_bad_argument(ctx, sig.0, ts, ts.len() as int) {
                Some(i) => Outcome::Failed(plain_error(SemanticErrorKind::TypeMismatch { expected: ReturnType::Type(sig.0[i].ty), found: ts[i] })),
                None => Outcome::Typed(if sig.1 is SelfType { self_ty } else { sig.1 }),
            }
        },
    }
}

/// The types of the first `n` expressions of `s`, checked in order.
pub open spec fn list_outcome(ctx: Ctx, env: Seq<Map<usize, ObjInfo>>, s: Seq<Expr>, n: int) -> ListOutcome
    decreases s, n,
{
    if n <= 0 || n > s.len() {
        ListOutcome::Typed(Seq::empty())
    } else {
        match list_outcome(ctx, env, s, n - 1) {
            ListOutcome::Typed(ts) => match expr_outcome(ctx, env, s[n - 1]) {
                Outcome::Typed(t) => ListOutcome::Typed(ts.push(t)),
                Outcome::Failed(e) => ListOutcome::Failed(e),
                Outcome::Stuck => ListOutcome::Stuck,
            },
            o => o,
        }
    }
}

/// The first branch before `n` that declares the same type as branch `n`.
pub open spec fn duplicate_before(bs: Seq<CaseBranch>, n: int) -> bool {
    exists|j: int| 0 <= j < n && #[trigger] bs[j].type_dec == bs[n].type_dec
}

/// The body types of the first `n` branches of a case, checked in order.
pub open spec fn branches_outcome(ctx: Ctx, env: Seq<Map<usize, ObjInfo>>, bs: Seq<CaseBranch>, n: int) -> ListOutcome
    decreases bs, n,
{
    if n <= 0 || n > bs.len() {
        ListOutcome::Typed(Seq::empty())
    } else {
        match branches_outcome(ctx, env, bs, n - 1) {
            ListOutcome::Typed(ts) => if duplicate_before(bs, n - 1) {
                ListOutcome::Failed(plain_error(SemanticErrorKind::DuplicateCaseBranchType { ty: bs[n - 1].type_dec }))
            } else {
                match expr_outcome(ctx, with_local(env, bs[n - 1].name, ReturnType::Type(bs[n - 1].type_dec)), *bs[n - 1].body) {
                    Outcome::Typed(t) => ListOutcome::Typed(ts.push(t)),
                    Outcome::Failed(e) => ListOutcome::Failed(e),
                    Outcome::Stuck => ListOutcome::Stuck,
                }
            },
            o => o,
        }
    }
}

/// The least upper bound of the first `n` types, taken from the left;
/// `None` when two of them have none.
pub open spec fn join_all(ctx: Ctx, ts: Seq<ReturnType>, n: int) -> Option<ReturnType>
    decreases n,
{
    if n <= 1 {
        Some(ts[0])
    } else {
        match join_all(ctx, ts, n - 1) {
            Some(acc) => if join_defined(ctx.tree, ctx.cls, acc, ts[n - 1]) {
                Some(join(ctx.tree, ctx.cls, acc, ts[n - 1]))
            } else {
                None
            },
            None => None,
        }
    }
}

/// An operand that must be a subtype of `expected`.
pub open spec fn require_type(ctx: Ctx, t: ReturnType, expected: ReturnType, span: Span, then: Outcome) -> Outcome {
    if conforms(ctx.tree, ctx.cls, t, expected) {
        then
    } else {
        Outcome::Failed(mismatch(expected, t, Some(span)))
    }
}

/// The type of an expression in class `ctx.cls` with the scopes `env`,
/// or the first error found in it.
pub open spec fn expr_outcome(ctx: Ctx, env: Seq<Map<usize, ObjInfo>>, e: Expr) -> Outcome
    decreases e, 0int,
{
    match e.kind {
        ExprKind::BoolConstant(_) => Outcome::Typed(bool_type()),
        ExprKind::IntConstant(_) => Outcome::Typed(int_type()),
        ExprKind::StringConstant(_) => Outcome::Typed(string_type()),
        ExprKind::Object(name) => match lookup_spec(env, name) {
            Some(info) => Outcome::Typed(info.ty),
            None => Outcome::Failed(plain_error(SemanticErrorKind::UndeclaredIdentifier { name })),
        },
        ExprKind::SelfExpr => Outcome::Typed(ReturnType::SelfType),
        ExprKind::Assignment { var, expr } => match var {
            Var::SelfValue => Outcome::Failed(plain_error(SemanticErrorKind::AssignmentToSelf)),
            Var::Id(x) => match lookup_spec(env, x) {
                None => Outcome::Failed(SemanticError { kind: SemanticErrorKind::UndeclaredIdentifier { name: x }, span: Some(expr.span) }),
                Some(info) => match expr_outcome(ctx, env, *expr) {
                    Outcome::Typed(t) => require_type(ctx, t, info.ty, expr.span, Outcome::Typed(t)),
                    o => o,
                },
            },
        },
        ExprKind::Dispatch { expr, name, args } => match expr_outcome(ctx, env, *expr) {
            Outcome::Typed(t0) => match list_outcome(ctx, env, args@, args@.len() as int) {
                ListOutcome::Typed(ts) => call_outcome(ctx, class_of(ctx.cls, t0), t0, name, ts),
                ListOutcome::Failed(err) => Outcome::Failed(err),
                ListOutcome::Stuck => Outcome::Stuck,
            },
            o => o,
        },
        ExprKind::StaticDispatch { expr, type_dec, name, args } => match expr_outcome(ctx, env, *expr) {
            Outcome::Typed(t0) => require_type(ctx, t0, ReturnType::Type(type_dec), expr.span,
                match list_outcome(ctx, env, args@, args@.len() as int) {
                    ListOutcome::Typed(ts) => call_outcome(ctx, type_dec, t0, name, ts),
                    ListOutcome::Failed(err) => Outcome::Failed(err),
                    ListOutcome::Stuck => Outcome::Stuck,
                }),
            o => o,
        },
        ExprKind::SelfDispatch { name, args } => match list_outcome(ctx, env, args@, args@.len() as int) {
            ListOutcome::Typed(ts) => call_outcome(ctx, ctx.cls, ReturnType::SelfType, name, ts),
            ListOutcome::Failed(err) => Outcome::Failed(err),
            ListOutcome::Stuck => Outcome::Stuck,
        },
        ExprKind::Conditional { cond, happy_path, sad_path } => match expr_outcome(ctx, env, *cond) {
            Outcome::Typed(pt) => require_type(ctx, pt, bool_type(), cond.span,
                match expr_outcome(ctx, env, *happy_path) {
                    Outcome::Typed(h) => match expr_outcome(ctx, env, *sad_path) {
                        Outcome::Typed(s) => if join_defined(ctx.tree, ctx.cls, s, h) {
                            Outcome::Typed(join(ctx.tree, ctx.cls, s, h))
                        } else {
                            Outcome::Stuck
                        },
                        o => o,
                    },
                    o => o,
                }),
            o => o,
        },
        ExprKind::Loop { cond, body } => match expr_outcome(ctx, env, *cond) {
            Outcome::Typed(ct) => require_type(ctx, ct, bool_type(), cond.span,
                match expr_outcome(ctx, env, *body) {
                    Outcome::Typed(_) => Outcome::Typed(object_type()),
                    o => o,
                }),
            o => o,
        },
        ExprKind::Block(exprs) => match list_outcome(ctx, env, exprs@, exprs@.len() as int) {
            ListOutcome::Typed(ts) => if ts.len() == 0 {
                Outcome::Failed(plain_error(SemanticErrorKind::InvalidBlockConstruct))
            } else {
                Outcome::Typed(ts.last())
            },
            ListOutcome::Failed(err) => Outcome::Failed(err),
            ListOutcome::Stuck => Outcome::Stuck,
        },
        ExprKind::Let { name, type_dec, init, body } => match init {
            Some(init) => match expr_outcome(ctx, env, *init) {
                Outcome::Typed(t1) => require_type(ctx, t1, type_dec, init.span,
                    expr_outcome(ctx, with_local(env, name, type_dec), *body)),
                o => o,
            },
            None => expr_outcome(ctx, with_local(env, name, type_dec), *body),
        },
        ExprKind::Case { cond, branches } => match expr_outcome(ctx, env, *cond) {
            Outcome::Typed(_) => match branches_outcome(ctx, env, branches@, branches@.len() as int) {
                ListOutcome::Typed(ts) => if ts.len() == 0 {
                    Outcome::Failed(plain_error(SemanticErrorKind::InvalidBlockConstruct))
                } else {
                    match join_all(ctx, ts, ts.len() as int) {
                        Some(t) => Outcome::Typed(t),
                        None => Outcome::Stuck,
                    }
                },
                ListOutcome::Failed(err) => Outcome::Failed(err),
                ListOutcome::Stuck => Outcome::Stuck,
            },
            o => o,
        },
        ExprKind::New(t) => Outcome::Typed(t),
        ExprKind::IsVoid(inner) => match expr_outcome(ctx, env, *inner) {
            Outcome::Typed(_) => Outcome::Typed(bool_type()),
            o => o,
        },
        ExprKind::Add(a, b) => arith_outcome(ctx, expr_outcome(ctx, env, *a), expr_outcome(ctx, env, *b), a.span, b.span),
        ExprKind::Sub(a, b) => arith_outcome(ctx, expr_outcome(ctx, env, *a), expr_outcome(ctx, env, *b), a.span, b.span),
        ExprKind::Mul(a, b) => arith_outcome(ctx, expr_outcome(ctx, env, *a), expr_outcome(ctx, env, *b), a.span, b.span),
        ExprKind::Div(a, b) => arith_outcome(ctx, expr_outcome(ctx, env, *a), expr_outcome(ctx, env, *b), a.span, b.span),
        ExprKind::Neg(inner) => match expr_outcome(ctx, env, *inner) {
            Outcome::Typed(t) => require_type(ctx, t, int_type(), inner.span, Outcome::Typed(int_type())),
            o => o,
        },
        ExprKind::Lt(a, b) => compare_outcome(ctx, expr_outcome(ctx, env, *a), expr_outcome(ctx, env, *b), a.span, b.span),
        ExprKind::Le(a, b) => compare_outcome(ctx, expr_outcome(ctx, env, *a), expr_outcome(ctx, env, *b), a.span, b.span),
        ExprKind::Eq(a, b) => match expr_outcome(ctx, env, *a) {
            Outcome::Typed(t1) => match expr_outcome(ctx, env, *b) {
                Outcome::Typed(t2) => if (is_primitive(t1) || is_primitive(t2)) && t1 != t2 {
                    Outcome::Failed(mismatch(t1, t2, Some(a.span)))
                } else {
                    Outcome::Typed(bool_type())
                },
                o => o,
            },
            o => o,
        },
        ExprKind::Not(inner) => match expr_outcome(ctx, env, *inner) {
            Outcome::Typed(t) => require_type(ctx, t, bool_type(), inner.span, Outcome::Typed(bool_type())),
            o => o,
        },
        ExprKind::Invalid => Outcome::Stuck,
    }
}

/// A `while` loop that type-checks has type `Object`, whatever the type
/// of its body; it type-checks exactly when its condition is a `Bool`
/// and its body type-checks.
pub proof fn lemma_loop_is_object(ctx: Ctx, env: Seq<Map<usize, ObjInfo>>, e: Expr)
    requires
        e.kind is Loop,
    ensures
        match e.kind {
            ExprKind::Loop { cond, body } => {
                &&& expr_outcome(ctx, env, e) is Typed ==> expr_outcome(ctx, env, e) == Outcome::Typed(object_type())
                &&& expr_outcome(ctx, env, e) is Typed <==> (expr_outcome(ctx, env, *cond) is Typed
                    && conforms(ctx.tree, ctx.cls, expr_outcome(ctx, env, *cond)->Typed_0, bool_type())
                    && expr_outcome(ctx, env, *body) is Typed)
            },
            _ => true,
        },
{
}

/// An equality `a = b` type-checks, as a `Bool`, exactly when both
/// operands type-check and, where either of them is an `Int`, a `String`
/// or a `Bool`, both have the same type; the rule is the same with the
/// operands swapped.
pub proof fn lemma_equality_rule(ctx: Ctx, env: Seq<Map<usize, ObjInfo>>, e: Expr)
    requires
        e.kind is Eq,
    ensures
        match e.kind {
            ExprKind::Eq(a, b) => {
                &&& expr_outcome(ctx, env, e) is Typed ==> expr_outcome(ctx, env, e) == Outcome::Typed(bool_type())
                &&& expr_outcome(ctx, env, e) is Typed <==> (expr_outcome(ctx, env, *a) is Typed
                    && expr_outcome(ctx, env, *b) is Typed && ({
                    let t1 = expr_outcome(ctx, env, *a)->Typed_0;
                    let t2 = expr_outcome(ctx, env, *b)->Typed_0;
                    (t1 == int_type() || t1 == string_type() || t1 == bool_type() || t2 == int_type()
                        || t2 == string_type() || t2 == bool_type()) ==> t1 == t2
                }))
            },
            _ => true,
        },
{
}

/// The type that each kind of expression has where it type-checks:
/// constants their own class, `isvoid`, `not`, `<` and `<=` a `Bool`,
/// arithmetic and `~` an `Int` with `Int` operands, `new T` the type
/// `T`, `self` the type `SELF_TYPE`, an assignment the type of its value,
/// which conforms to the variable's, and a block the type of its last
/// expression.
pub proof fn lemma_expression_types(ctx: Ctx, env: Seq<Map<usize, ObjInfo>>, e: Expr, t: ReturnType)
    requires
        expr_outcome(ctx, env, e) == Outcome::Typed(t),
    ensures
        match e.kind {
            ExprKind::BoolConstant(_) => t == bool_type(),
            ExprKind::IntConstant(_) => t == int_type(),
            ExprKind::StringConstant(_) => t == string_type(),
            ExprKind::SelfExpr => t == ReturnType::SelfType,
            ExprKind::New(n) => t == n,
            ExprKind::IsVoid(inner) => t == bool_type() && expr_outcome(ctx, env, *inner) is Typed,
            ExprKind::Not(inner) => t == bool_type() && expr_outcome(ctx, env, *inner) is Typed
                && conforms(ctx.tree, ctx.cls, expr_outcome(ctx, env, *inner)->Typed_0, bool_type()),
            ExprKind::Neg(inner) => t == int_type() && expr_outcome(ctx, env, *inner) is Typed
                && conforms(ctx.tree, ctx.cls, expr_outcome(ctx, env, *inner)->Typed_0, int_type()),
            ExprKind::Add(a, b) | ExprKind::Sub(a, b) | ExprKind::Mul(a, b) | ExprKind::Div(a, b) => {
                &&& t == int_type()
                &&& expr_outcome(ctx, env, *a) is Typed
                &&& expr_outcome(ctx, env, *b) is Typed
                &&& conforms(ctx.tree, ctx.cls, expr_outcome(ctx, env, *a)->Typed_0, int_type())
                &&& conforms(ctx.tree, ctx.cls, expr_outcome(ctx, env, *b)->Typed_0, int_type())
            },
            ExprKind::Lt(a, b) | ExprKind::Le(a, b) => {
                &&& t == bool_type()
                &&& expr_outcome(ctx, env, *a) is Typed
                &&& expr_outcome(ctx, env, *b) is Typed
                &&& conforms(ctx.tree, ctx.cls, expr_outcome(ctx, env, *a)->Typed_0, int_type())
                &&& conforms(ctx.tree, ctx.cls, expr_outcome(ctx, env, *b)->Typed_0, int_type())
            },
            ExprKind::Assignment { var, expr } => {
                &&& var matches Var::Id(x)
                &&& expr_outcome(ctx, env, *expr) == Outcome::Typed(t)
                &&& lookup_spec(env, var->Id_0) is Some
                &&& conforms(ctx.tree, ctx.cls, t, lookup_spec(env, var->Id_0).unwrap().ty)
            },
            _ => true,
        },
{
}

/// `+`, `-`, `*` and `/`: both operands are checked, then both must be `Int`.
pub open spec fn arith_outcome(ctx: Ctx, oa: Outcome, ob: Outcome, sa: Span, sb: Span) -> Outcome {
    match oa {
        Outcome::Typed(ta) => match ob {
            Outcome::Typed(tb) => require_type(ctx, ta, int_type(), sa,
                require_type(ctx, tb, int_type(), sb, Outcome::Typed(int_type()))),
            o => o,
        },
        o => o,
    }
}

/// `<` and `<=`: each operand must be `Int` as soon as it is checked.
pub open spec fn compare_outcome(ctx: Ctx, oa: Outcome, ob: Outcome, sa: Span, sb: Span) -> Outcome {
    match oa {
        Outcome::Typed(ta) => require_type(ctx, ta, int_type(), sa,
            match ob {
                Outcome::Typed(tb) => require_type(ctx, tb, int_type(), sb, Outcome::Typed(bool_type())),
                o => o,
            }),
        o => o,
    }
}


/// `n` is `e` with the type of every subexpression written on it: the
/// same shape, the same names and constants, and at each node the type
/// that the rules give.
pub open spec fn annotated(ctx: Ctx, env: Seq<Map<usize, ObjInfo>>, e: Expr, n: ast::ExprNode) -> bool
    decreases e, 0int,
{
    &&& expr_outcome(ctx, env, e) == Outcome::Typed(n.ty)
    &&& match (e.kind, n.kind) {
        (ExprKind::BoolConstant(a), ast::ExprKind::BoolConstant(b)) => a == b,
        (ExprKind::IntConstant(a), ast::ExprKind::IntConstant(b)) => a == b,
        (ExprKind::StringConstant(a), ast::ExprKind::StringConstant(b)) => a == b,
        (ExprKind::Object(a), ast::ExprKind::Object(b)) => a == b,
        (ExprKind::SelfExpr, ast::ExprKind::SelfExpr) => true,
        (ExprKind::Assignment { var, expr }, ast::ExprKind::Assignment { var: nv, expr: ne }) => {
            &&& var matches Var::Id(x)
            &&& nv == ast::Var::Id(x)
            &&& annotated(ctx, env, *expr, *ne)
        },
        (ExprKind::Dispatch { expr, name, args }, ast::ExprKind::Dispatch { expr: ne, name: nn, args: na, static_class }) => {
            &&& annotated(ctx, env, *expr, *ne)
            &&& nn == name
            &&& na@.len() == args@.len()
            &&& list_annotated(ctx, env, args@, na@, args@.len() as int)
            &&& static_class == class_of(ctx.cls, ne.ty)
        },
        (ExprKind::StaticDispatch { expr, type_dec, name, args }, ast::ExprKind::StaticDispatch { expr: ne, type_dec: nt, name: nn, args: na }) => {
            &&& annotated(ctx, env, *expr, *ne)
            &&& nt == type_dec
            &&& nn == name
            &&& na@.len() == args@.len()
            &&& list_annotated(ctx, env, args@, na@, args@.len() as int)
        },
        (ExprKind::SelfDispatch { name, args }, ast::ExprKind::SelfDispatch { name: nn, args: na, static_class }) => {
            &&& nn == name
            &&& na@.len() == args@.len()
            &&& list_annotated(ctx, env, args@, na@, args@.len() as int)
            &&& static_class == ctx.cls
        },
        (ExprKind::Conditional { cond, happy_path, sad_path }, ast::ExprKind::Conditional { cond: nc, happy_path: nh, sad_path: ns }) => {
            &&& annotated(ctx, env, *cond, *nc)
            &&& annotated(ctx, env, *happy_path, *nh)
            &&& annotated(ctx, env, *sad_path, *ns)
        },
        (ExprKind::Loop { cond, body }, ast::ExprKind::Loop { cond: nc, body: nb }) => {
            &&& annotated(ctx, env, *cond, *nc)
            &&& annotated(ctx, env, *body, *nb)
        },
        (ExprKind::Block(es), ast::ExprKind::Block(ns)) => {
            &&& ns@.len() == es@.len()
            &&& list_annotated(ctx, env, es@, ns@, es@.len() as int)
        },
        (ExprKind::Let { name, type_dec, init, body }, ast::ExprKind::Let { name: nn, type_dec: nt, init: ni, body: nb }) => {
            &&& nn == name
            &&& nt == type_dec
            &&& match (init, ni) {
                (Some(i), Some(j)) => annotated(ctx, env, *i, *j),
                (None, None) => true,
                _ => false,
            }
            &&& annotated(ctx, with_local(env, name, type_dec), *body, *nb)
        },
        (ExprKind::Case { cond, branches }, ast::ExprKind::Case { cond: nc, branches: nbs }) => {
            &&& annotated(ctx, env, *cond, *nc)
            &&& nbs@.len() == branches@.len()
            &&& branches_annotated(ctx, env, branches@, nbs@, branches@.len() as int)
        },
        (ExprKind::New(t), ast::ExprKind::New(u)) => t == u,
        (ExprKind::IsVoid(a), ast::ExprKind::IsVoid(b)) => annotated(ctx, env, *a, *b),
        (ExprKind::Add(a, b), ast::ExprKind::Add(na, nb)) => annotated(ctx, env, *a, *na) && annotated(ctx, env, *b, *nb),
        (ExprKind::Sub(a, b), ast::ExprKind::Sub(na, nb)) => annotated(ctx, env, *a, *na) && annotated(ctx, env, *b, *nb),
        (ExprKind::Mul(a, b), ast::ExprKind::Mul(na, nb)) => annotated(ctx, env, *a, *na) && annotated(ctx, env, *b, *nb),
        (ExprKind::Div(a, b), ast::ExprKind::Div(na, nb)) => annotated(ctx, env, *a, *na) && annotated(ctx, env, *b, *nb),
        (ExprKind::Neg(a), ast::ExprKind::Neg(b)) => annotated(ctx, env, *a, *b),
        (ExprKind::Lt(a, b), ast::ExprKind::Lt(na, nb)) => annotated(ctx, env, *a, *na) && annotated(ctx, env, *b, *nb),
        (ExprKind::Eq(a, b), ast::ExprKind::Eq(na, nb)) => annotated(ctx, env, *a, *na) && annotated(ctx, env, *b, *nb),
        (ExprKind::Le(a, b), ast::ExprKind::Le(na, nb)) => annotated(ctx, env, *a, *na) && annotated(ctx, env, *b, *nb),
        (ExprKind::Not(a), ast::ExprKind::Not(b)) => annotated(ctx, env, *a, *b),
        _ => false,
    }
}

/// The first `k` nodes of `ns` annotate the first `k` expressions of `s`.
pub open spec fn list_annotated(ctx: Ctx, env: Seq<Map<usize, ObjInfo>>, s: Seq<Expr>, ns: Seq<ast::ExprNode>, k: int) -> bool
    decreases s, k,
{
    if k <= 0 || k > s.len() {
        true
    } else {
        list_annotated(ctx, env, s, ns, k - 1) && annotated(ctx, env, s[k - 1], ns[k - 1])
    }
}

/// The first `k` typed branches annotate the first `k` branches of a case.
pub open spec fn branches_annotated(
    ctx: Ctx,
    env: Seq<Map<usize, ObjInfo>>,
    bs: Seq<CaseBranch>,
    nbs: Seq<ast::CaseBranchNode>,
    k: int,
) -> bool
    decreases bs, k,
{
    if k <= 0 || k > bs.len() {
        true
    } else {
        &&& branches_annotated(ctx, env, bs, nbs, k - 1)
        &&& nbs[k - 1].name == bs[k - 1].name
        &&& nbs[k - 1].type_dec == bs[k - 1].type_dec
        &&& annotated(ctx, with_local(env, bs[k - 1].name, ReturnType::Type(bs[k - 1].type_dec)), *bs[k - 1].body, *nbs[k - 1].body)
    }
}

/// What checking `e` returned agrees with the rules: the annotated
/// expression, or the error that the rules find first.
pub open spec fn check_result(ctx: Ctx, env: Seq<Map<usize, ObjInfo>>, e: Expr, r: Result<ast::ExprNode, Halt>) -> bool {
    match r {
        Ok(n) => annotated(ctx, env, e, n),
        Err(h) => halted(expr_outcome(ctx, env, e), h),
    }
}

/// The types of a list of annotated nodes.
pub open spec fn types_of(ns: Seq<ast::ExprNode>) -> Seq<ReturnType> {
    ns.map_values(|n: ast::ExprNode| n.ty)
}

/// Once a prefix of a list fails or is stuck, every longer prefix ends the same way.
pub proof fn lemma_list_outcome_stays(ctx: Ctx, env: Seq<Map<usize, ObjInfo>>, s: Seq<Expr>, i: int, n: int)
    requires
        0 <= i <= n <= s.len(),
        !(list_outcome(ctx, env, s, i) is Typed),
    ensures
        list_outcome(ctx, env, s, n) == list_outcome(ctx, env, s, i),
    decreases n - i,
{
    if n > i {
        lemma_list_outcome_stays(ctx, env, s, i, n - 1);
    }
}

pub proof fn lemma_branches_outcome_stays(ctx: Ctx, env: Seq<Map<usize, ObjInfo>>, bs: Seq<CaseBranch>, i: int, n: int)
    requires
        0 <= i <= n <= bs.len(),
        !(branches_outcome(ctx, env, bs, i) is Typed),
    ensures
        branches_outcome(ctx, env, bs, n) == branches_outcome(ctx, env, bs, i),
    decreases n - i,
{
    if n > i {
        lemma_branches_outcome_stays(ctx, env, bs, i, n - 1);
    }
}

/// A typed list has one type per expression.
pub proof fn lemma_list_outcome_len(ctx: Ctx, env: Seq<Map<usize, ObjInfo>>, s: Seq<Expr>, n: int)
    requires
        0 <= n <= s.len(),
    ensures
        list_outcome(ctx, env, s, n) matches ListOutcome::Typed(ts) ==> ts.len() == n,
    decreases n,
{
    if n > 0 {
        lemma_list_outcome_len(ctx, env, s, n - 1);
    }
}

pub proof fn lemma_branches_outcome_len(ctx: Ctx, env: Seq<Map<usize, ObjInfo>>, bs: Seq<CaseBranch>, n: int)
    requires
        0 <= n <= bs.len(),
    ensures
        branches_outcome(ctx, env, bs, n) matches ListOutcome::Typed(ts) ==> ts.len() == n,
    decreases n,
{
    if n > 0 {
        lemma_branches_outcome_len(ctx, env, bs, n - 1);
    }
}

/// The first bad argument among the first `n` stays the first among more.
pub proof fn lemma_first_bad_stays(ctx: Ctx, formals: Seq<FormalInfo>, ts: Seq<ReturnType>, i: int, n: int)
    requires
        0 <= i <= n,
        first_bad_argument(ctx, formals, ts, i) is Some,
    ensures
        first_bad_argument(ctx, formals, ts, n) == first_bad_argument(ctx, formals, ts, i),
    decreases n - i,
{
    if n > i {
        lemma_first_bad_stays(ctx, formals, ts, i, n - 1);
    }
}

pub proof fn lemma_join_all_none_stays(ctx: Ctx, ts: Seq<ReturnType>, i: int, n: int)
    requires
        1 <= i <= n,
        join_all(ctx, ts, i) is None,
    ensures
        join_all(ctx, ts, n) is None,
    decreases n - i,
{
    if n > i {
        lemma_join_all_none_stays(ctx, ts, i, n - 1);
    }
}

// ---------------------------------------------------------------------------
// Features, classes and programs

/// What checking a feature comes to.
pub enum FeatureOutcome {
    Checked,
    Failed(SemanticError),
    Stuck,
}

/// An attribute: its initializer, if any, must conform to its type.
pub open spec fn attribute_outcome(ctx: Ctx, env: Seq<Map<usize, ObjInfo>>, name: usize, type_dec: ReturnType, init: Option<Box<Expr>>) -> FeatureOutcome {
    match init {
        None => FeatureOutcome::Checked,
        Some(e) => match expr_outcome(ctx, env, *e) {
            Outcome::Typed(t) => if conforms(ctx.tree, ctx.cls, t, type_dec) {
                FeatureOutcome::Checked
            } else {
                FeatureOutcome::Failed(plain_error(SemanticErrorKind::AttributeMismatch { attribute: name, found: t }))
            },
            Outcome::Failed(err) => FeatureOutcome::Failed(err),
            Outcome::Stuck => FeatureOutcome::Stuck,
        },
    }
}

/// The scope of a method body: its formals, a later one with the same
/// name replacing an earlier one.
pub open spec fn formals_scope(formals: Seq<FormalInfo>) -> Map<usize, ObjInfo>
    decreases formals.len(),
{
    if formals.len() == 0 {
        Map::empty()
    } else {
        formals_scope(formals.drop_last()).insert(
            formals.last().name,
            ObjInfo { ty: ReturnType::Type(formals.last().ty), kind: ObjKind::Formal },
        )
    }
}

/// A method: its signature is the one the class sees for its name; the
/// body, checked with the formals bound, must conform to the return type.
pub open spec fn method_outcome(ctx: Ctx, env: Seq<Map<usize, ObjInfo>>, name: usize, body: Expr) -> FeatureOutcome {
    match lookup_method(ctx.methods, ctx.tree, ctx.cls, name) {
        None => FeatureOutcome::Failed(plain_error(SemanticErrorKind::UndefinedMethod { class: ctx.cls, method: name })),
        Some(sig) => match expr_outcome(ctx, env.push(formals_scope(sig.0)), body) {
            Outcome::Typed(t) => if conforms(ctx.tree, ctx.cls, t, sig.1) {
                FeatureOutcome::Checked
            } else {
                FeatureOutcome::Failed(mismatch(sig.1, t, Some(body.span)))
            },
            Outcome::Failed(err) => FeatureOutcome::Failed(err),
            Outcome::Stuck => FeatureOutcome::Stuck,
        },
    }
}

pub open spec fn feature_outcome(ctx: Ctx, env: Seq<Map<usize, ObjInfo>>, f: Feature) -> FeatureOutcome {
    match f {
        Feature::Attribute { name, type_dec, init } => attribute_outcome(ctx, env, name, type_dec, init),
        Feature::Method { name, body, .. } => method_outcome(ctx, env, name, *body),
        Feature::Invalid => FeatureOutcome::Checked,
    }
}

/// The node is the checked form of a feature that passed.
pub open spec fn feature_annotated(ctx: Ctx, env: Seq<Map<usize, ObjInfo>>, f: Feature, n: ast::FeatureNode) -> bool {
    match (f, n) {
        (Feature::Attribute { name, type_dec, init }, ast::FeatureNode::Attribute { name: nn, type_dec: nt, init: ni }) => {
            &&& nn == name
            &&& nt == type_dec
            &&& match (init, ni) {
                (Some(e), Some(ne)) => annotated(ctx, env, *e, *ne),
                (None, None) => true,
                _ => false,
            }
        },
        (Feature::Method { name, body, .. }, ast::FeatureNode::Method { name: nn, params, return_type, body: nb }) => {
            &&& nn == name
            &&& lookup_method(ctx.methods, ctx.tree, ctx.cls, name) matches Some(sig)
            &&& return_type == sig.1
            &&& params@.len() == sig.0.len()
            &&& forall|i: int| 0 <= i < params@.len() ==> (#[trigger] params@[i]).name == sig.0[i].name && params@[i].type_dec == sig.0[i].ty
            &&& annotated(ctx, env.push(formals_scope(sig.0)), *body, *nb)
        },
        _ => false,
    }
}

/// The errors of the first `n` features, in order.
pub open spec fn features_errors(ctx: Ctx, env: Seq<Map<usize, ObjInfo>>, fs: Seq<Feature>, n: int) -> Seq<SemanticError>
    decreases n,
{
    if n <= 0 {
        Seq::empty()
    } else {
        let rest = features_errors(ctx, env, fs, n - 1);
        match feature_outcome(ctx, env, fs[n - 1]) {
            FeatureOutcome::Failed(err) => rest.push(err),
            _ => rest,
        }
    }
}

/// Some feature among the first `n` gets stuck.
pub open spec fn features_stuck(ctx: Ctx, env: Seq<Map<usize, ObjInfo>>, fs: Seq<Feature>, n: int) -> bool {
    exists|i: int| 0 <= i < n && #[trigger] feature_outcome(ctx, env, fs[i]) is Stuck
}

/// The nodes annotate, in order, the features among the first `n` that
/// are not `Invalid`.
pub open spec fn features_annotated(ctx: Ctx, env: Seq<Map<usize, ObjInfo>>, fs: Seq<Feature>, ns: Seq<ast::FeatureNode>, n: int) -> bool
    decreases n,
{
    if n <= 0 {
        ns.len() == 0
    } else if fs[n - 1] is Invalid {
        features_annotated(ctx, env, fs, ns, n - 1)
    } else {
        &&& ns.len() > 0
        &&& features_annotated(ctx, env, fs, ns.drop_last(), n - 1)
        &&& feature_annotated(ctx, env, fs[n - 1], ns.last())
    }
}

/// The features of the last valid class of `classes` named `id`.
pub open spec fn class_features(classes: Seq<Class>, id: usize) -> Option<Seq<Feature>>
    decreases classes.len(),
{
    if classes.len() == 0 {
        None
    } else {
        match classes.last() {
            Class::Valid { name, features, .. } => if name == id {
                Some(features@)
            } else {
                class_features(classes.drop_last(), id)
            },
            Class::Invalid => class_features(classes.drop_last(), id),
        }
    }
}

/// The scope after binding, in order, the attributes among the first `n`
/// features.
pub open spec fn bind_attributes(m: Map<usize, ObjInfo>, fs: Seq<Feature>, n: int) -> Map<usize, ObjInfo>
    decreases n,
{
    if n <= 0 {
        m
    } else {
        let m1 = bind_attributes(m, fs, n - 1);
        match fs[n - 1] {
            Feature::Attribute { name, type_dec, .. } => m1.insert(name, ObjInfo { ty: type_dec, kind: ObjKind::Attribute }),
            _ => m1,
        }
    }
}

/// The scope after binding the attributes of the `k` farthest classes of
/// the chain `anc` (nearest first), farthest first.
pub open spec fn bind_chain(classes: Seq<Class>, anc: Seq<usize>, k: int) -> Map<usize, ObjInfo>
    decreases k,
{
    if k <= 0 || k > anc.len() {
        Map::empty()
    } else {
        let m = bind_chain(classes, anc, k - 1);
        match class_features(classes, anc[anc.len() - k]) {
            Some(fs) => bind_attributes(m, fs, fs.len() as int),
            None => m,
        }
    }
}

/// The ancestors of `c`, nearest first: the chain of parents above it.
pub open spec fn chain_above(tree: Map<usize, Option<usize>>, c: usize) -> Seq<usize> {
    let t = choose|t: nat| #[trigger] ancestor_at(tree, c, t) is Some && ancestor_at(tree, c, t + 1) is None;
    Seq::new(t, |i: int| ancestor_at(tree, c, (i + 1) as nat).unwrap())
}

/// The scope in which the features of class `c` are checked: the
/// attributes of its ancestors, farthest first, then its own.
pub open spec fn class_scope(tree: Map<usize, Option<usize>>, classes: Seq<Class>, c: usize, own: Seq<Feature>) -> Map<usize, ObjInfo> {
    let anc = chain_above(tree, c);
    bind_attributes(bind_chain(classes, anc, anc.len() as int), own, own.len() as int)
}

/// The rules as seen from class `cls` of a program whose hierarchy and
/// method table were built.
pub open spec fn program_ctx(classes: Seq<Class>, cls: usize) -> Ctx {
    Ctx { tree: hierarchy_of(classes), methods: methods_of(classes), cls }
}

/// The checked form of a class.
pub open spec fn class_annotated(classes: Seq<Class>, c: Class, n: ast::ClassNode) -> bool {
    match c {
        Class::Valid { name, parent, features } => {
            let ctx = program_ctx(classes, name);
            let env = seq![class_scope(ctx.tree, classes, name, features@)];
            &&& n.name == name
            &&& n.parent == parent
            &&& features_annotated(ctx, env, features@, n.features@, features@.len() as int)
        },
        Class::Invalid => false,
    }
}

/// The type errors of the valid classes, in order.
pub open spec fn class_errors(classes: Seq<Class>, c: Class) -> Seq<SemanticError> {
    match c {
        Class::Valid { name, features, .. } => {
            let ctx = program_ctx(classes, name);
            let env = seq![class_scope(ctx.tree, classes, name, features@)];
            features_errors(ctx, env, features@, features@.len() as int)
        },
        Class::Invalid => Seq::empty(),
    }
}

pub open spec fn class_stuck(classes: Seq<Class>, c: Class) -> bool {
    match c {
        Class::Valid { name, features, .. } => {
            let ctx = program_ctx(classes, name);
            let env = seq![class_scope(ctx.tree, classes, name, features@)];
            features_stuck(ctx, env, features@, features@.len() as int)
        },
        Class::Invalid => false,
    }
}

/// The type errors of the first `n` classes, in order.
pub open spec fn type_errors(classes: Seq<Class>, n: int) -> Seq<SemanticError>
    decreases n,
{
    if n <= 0 {
        Seq::empty()
    } else {
        type_errors(classes, n - 1) + class_errors(classes, classes[n - 1])
    }
}

/// The checked classes annotate, in order, the valid classes among the
/// first `n`.
pub open spec fn classes_annotated(classes: Seq<Class>, ns: Seq<ast::ClassNode>, n: int) -> bool
    decreases n,
{
    if n <= 0 {
        ns.len() == 0
    } else if classes[n - 1] is Invalid {
        classes_annotated(classes, ns, n - 1)
    } else {
        &&& ns.len() > 0
        &&& classes_annotated(classes, ns.drop_last(), n - 1)
        &&& class_annotated(classes, classes[n - 1], ns.last())
    }
}

/// The error for a method whose signature differs from the one the
/// parent class sees for its name, for each method of the first `n`
/// features of class `c` with declared parent `p`.
pub open spec fn feature_override_errors(classes: Seq<Class>, c: usize, p: usize, fs: Seq<Feature>, n: int) -> Seq<SemanticError>
    decreases n,
{
    if n <= 0 {
        Seq::empty()
    } else {
        let rest = feature_override_errors(classes, c, p, fs, n - 1);
        match fs[n - 1] {
            Feature::Method { name, params, type_dec, .. } => match lookup_method(methods_of(classes), hierarchy_of(classes), p, name) {
                Some(sig) => if !same_signature(sig, signature_of(params@, type_dec)) {
                    rest.push(plain_error(SemanticErrorKind::WrongOverrideSignature { class: c, method: name }))
                } else {
                    rest
                },
                None => rest,
            },
            _ => rest,
        }
    }
}

/// A method that overrides an inherited one with a different number of
/// formals is reported as a wrong override, whatever their types.
pub proof fn lemma_arity_change_is_reported(
    classes: Seq<Class>,
    c: usize,
    p: usize,
    fs: Seq<Feature>,
    n: int,
    sig: Signature,
)
    requires
        0 < n <= fs.len(),
        fs[n - 1] is Method,
        lookup_method(methods_of(classes), hierarchy_of(classes), p, fs[n - 1]->Method_name) == Some(sig),
        sig.0.len() != fs[n - 1]->Method_params@.len(),
    ensures
        feature_override_errors(classes, c, p, fs, n) == feature_override_errors(classes, c, p, fs, n - 1).push(
            plain_error(SemanticErrorKind::WrongOverrideSignature { class: c, method: fs[n - 1]->Method_name }),
        ),
{
    let params = fs[n - 1]->Method_params@;
    assert(formals_of(params).len() == params.len());
}

/// The override errors of the first `n` classes, in order. Only classes
/// that name a parent are checked.
pub open spec fn override_errors(classes: Seq<Class>, n: int) -> Seq<SemanticError>
    decreases n,
{
    if n <= 0 {
        Seq::empty()
    } else {
        override_errors(classes, n - 1) + match classes[n - 1] {
            Class::Valid { name, parent: Some(p), features } => feature_override_errors(classes, name, p, features@, features@.len() as int),
            _ => Seq::empty(),
        }
    }
}

/// Every error that the analysis of a program reports, in order: those
/// of its hierarchy when it has any, else those of its method table when
/// it has any, else the override errors followed by the type errors.
pub open spec fn analysis_errors(classes: Seq<Class>) -> Seq<SemanticError> {
    if hierarchy_errors(classes).len() > 0 {
        hierarchy_errors(classes)
    } else if scan_methods(classes).1.len() > 0 {
        scan_methods(classes).1
    } else {
        override_errors(classes, classes.len() as int) + type_errors(classes, classes.len() as int)
    }
}

/// The analysis runs to its end on this program: when the hierarchy and
/// the method table are sound, no feature gets stuck.
pub open spec fn analysis_defined(classes: Seq<Class>) -> bool {
    hierarchy_errors(classes).len() == 0 && scan_methods(classes).1.len() == 0 ==>
        forall|i: int| 0 <= i < classes.len() ==> !class_stuck(classes, #[trigger] classes[i])
}
} // verus!
