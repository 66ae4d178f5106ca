use vstd::prelude::*;

use crate::ast::{self, ExprNode};
use crate::parse_tree::{self, Expr, ExprKind};
use crate::semantic_analysis::builtins::{BOOL_ID, INT_ID, OBJECT_ID, STRING_ID};
use crate::semantic_analysis::inheritance_tree::{acyclic, lemma_lub_unique, InheritanceTree};
use crate::semantic_analysis::method_table::{MethodTable, ReturnType};
use crate::semantic_analysis::symbol_table::{lookup_spec, SymbolTable};
use crate::semantic_analysis::typing::{
    annotated, branches_annotated, branches_outcome, check_result, conforms, expr_outcome, join,
    join_all, join_defined, lemma_branches_outcome_len, lemma_branches_outcome_stays,
    lemma_first_bad_stays, lemma_join_all_none_stays, lemma_list_outcome_len,
    lemma_list_outcome_stays, list_annotated, list_outcome, mismatch, types_of, with_local, Ctx,
    ListOutcome, Outcome, call_outcome, first_bad_argument, FeatureOutcome, feature_outcome,
    feature_annotated, attribute_outcome, method_outcome, formals_scope, features_errors,
    features_stuck, features_annotated, class_features, bind_attributes, bind_chain, chain_above,
    class_scope, program_ctx, class_annotated, class_errors, class_stuck, type_errors,
    classes_annotated, feature_override_errors, override_errors, analysis_errors,
    analysis_defined,
};
use crate::semantic_analysis::inheritance_tree::{
    ancestor_at, hierarchy_errors, hierarchy_of, lemma_ancestor_none_stays, lemma_chain_ends,
    parent_of, rooted_at_object,
};
use crate::semantic_analysis::method_table::{
    formals_of, lookup_method, methods_of, same_signature, scan_methods, signature_of, FormalInfo,
    MethodInfo,
};
use crate::utils::Span;

pub mod builtins;
pub mod inheritance_tree;
pub mod method_table;
pub mod symbol_table;

verus! {

#[derive(Debug)]
pub enum ArithOp {
    Add,
    Sub,
    Mul,
    Div,
}

#[derive(Debug)]
pub enum CompOp {
    Lt,
    Le,
}

/// A reason why a program has no meaning, and where it was found.
#[derive(Debug, PartialEq)]
pub struct SemanticError {
    pub kind: SemanticErrorKind,
    pub span: Option<Span>,
}

impl SemanticError {
    pub fn new(kind: SemanticErrorKind, span: Option<Span>) -> (e: Self)
        ensures
            e == (SemanticError { kind, span }),
    {
        Self { kind, span }
    }
}

#[derive(Debug, PartialEq, Eq, Structural, Clone, Copy)]
pub enum SemanticErrorKind {
    // Class related
    InheritanceCycle,
    DuplicateClass { name: usize },
    UndefinedClass { name: usize },
    // Method related
    RedefinedMethod { class: usize, method: usize },
    WrongOverrideSignature { class: usize, method: usize },
    UndefinedMethod { class: usize, method: usize },
    // Attribute related
    AttributeMismatch { attribute: usize, found: ReturnType },
    // Expr related
    AssignmentToSelf,
    UndeclaredIdentifier { name: usize },
    InvalidArithmeticOperandType { found: ReturnType },
    InvalidNegationType { found: ReturnType },
    TypeMismatch { expected: ReturnType, found: ReturnType },
    WrongNumberOfArguments { expected: usize, found: usize },
    DuplicateCaseBranchType { ty: usize },
    InvalidBlockConstruct,
}

/// What kind of name an object identifier is bound as.
#[derive(Debug, PartialEq, Eq, Structural, Clone, Copy)]
pub enum ObjKind {
    Local,
    Formal,
    Attribute,
    SelfObject,
}

/// What the scopes know of an object identifier: its type and its kind.
#[derive(Debug, PartialEq, Eq, Structural, Clone, Copy)]
pub struct ObjInfo {
    pub ty: ReturnType,
    pub kind: ObjKind,
}

impl ObjInfo {
    pub fn new(ty: ReturnType, kind: ObjKind) -> (o: Self)
        ensures
            o == (ObjInfo { ty, kind }),
    {
        Self { ty, kind }
    }
}

/// An error that no source position is given for.
/// Why checking an expression or a feature stopped: an error, or a
/// point where the analysis cannot go on (an expression that did not
/// parse, or two types without a common ancestor).
#[derive(Debug)]
pub enum Halt {
    Failed(SemanticError),
    Stuck,
}

/// `h` is how the outcome `o` ends.
pub open spec fn halted(o: Outcome, h: Halt) -> bool {
    match h {
        Halt::Failed(err) => o == Outcome::Failed(err),
        Halt::Stuck => o is Stuck,
    }
}

pub open spec fn halted_list(o: ListOutcome, h: Halt) -> bool {
    match h {
        Halt::Failed(err) => o == ListOutcome::Failed(err),
        Halt::Stuck => o is Stuck,
    }
}

pub open spec fn halted_feature(o: FeatureOutcome, h: Halt) -> bool {
    match h {
        Halt::Failed(err) => o == FeatureOutcome::Failed(err),
        Halt::Stuck => o is Stuck,
    }
}

pub open spec fn plain_error(kind: SemanticErrorKind) -> SemanticError {
    SemanticError { kind, span: None }
}


broadcast use vstd::std_specs::hash::group_hash_axioms;

/// Checks the meaning of a program: its class hierarchy, its method
/// overrides and the types of its expressions.
#[derive(Debug)]
pub struct SemanticAnalyzer {
    inheritance_tree: InheritanceTree,
    method_table: MethodTable,
}

/// `op` names the arithmetic operation of `k`.
pub open spec fn arith_matches(op: ArithOp, k: ExprKind) -> bool {
    match op {
        ArithOp::Add => k is Add,
        ArithOp::Sub => k is Sub,
        ArithOp::Mul => k is Mul,
        ArithOp::Div => k is Div,
    }
}

/// `op` names the comparison of `k`.
pub open spec fn comp_matches(op: CompOp, k: ExprKind) -> bool {
    match op {
        CompOp::Lt => k is Lt,
        CompOp::Le => k is Le,
    }
}

impl SemanticAnalyzer {
    /// The hierarchy is well formed and has no cycle; the method table is
    /// well formed.
    pub closed spec fn inv(&self) -> bool {
        &&& self.inheritance_tree.wf()
        &&& acyclic(self.inheritance_tree@)
        &&& self.method_table.wf()
    }

    /// What the rules see when checking class `cls`.
    pub closed spec fn ctx(&self, cls: usize) -> Ctx {
        Ctx { tree: self.inheritance_tree@, methods: self.method_table@, cls }
    }

    /// Whether `sub` conforms to `sup` inside `current_class`.
    fn is_subtype(&self, current_class: usize, sub: &ReturnType, sup: &ReturnType) -> (r: bool)
        requires
            self.inv(),
        ensures
            r == conforms(self.inheritance_tree@, current_class, *sub, *sup),
    {
        match (sub, sup) {
            (ReturnType::SelfType, ReturnType::SelfType) => true,
            (ReturnType::SelfType, ReturnType::Type(t)) => self.inheritance_tree.is_subtype(current_class, *t),
            (ReturnType::Type(_), ReturnType::SelfType) => false,
            (ReturnType::Type(s), ReturnType::Type(t)) => self.inheritance_tree.is_subtype(*s, *t),
        }
    }

    /// Whether two types inside `current_class` have a common ancestor.
    fn join_exists(&self, current_class: usize, a: &ReturnType, b: &ReturnType) -> (r: bool)
        requires
            self.inv(),
        ensures
            r == join_defined(self.inheritance_tree@, current_class, *a, *b),
    {
        let lhs = match a {
            ReturnType::SelfType => current_class,
            ReturnType::Type(id) => *id,
        };
        let rhs = match b {
            ReturnType::SelfType => current_class,
            ReturnType::Type(id) => *id,
        };
        self.inheritance_tree.have_common_ancestor(lhs, rhs)
    }

    /// The least upper bound of two types inside `current_class`.
    fn lub(&self, current_class: usize, a: &ReturnType, b: &ReturnType) -> (r: ReturnType)
        requires
            self.inv(),
            join_defined(self.inheritance_tree@, current_class, *a, *b),
        ensures
            r == join(self.inheritance_tree@, current_class, *a, *b),
    {
        let lhs = match a {
            ReturnType::SelfType => current_class,
            ReturnType::Type(id) => *id,
        };
        let rhs = match b {
            ReturnType::SelfType => current_class,
            ReturnType::Type(id) => *id,
        };
        let lub = self.inheritance_tree.lub(lhs, rhs);
        proof {
            let l = choose|r: usize| crate::semantic_analysis::inheritance_tree::is_lub(self.inheritance_tree@, lhs, rhs, r);
            lemma_lub_unique(self.inheritance_tree@, lhs, rhs, l, lub);
        }
        let both_self = match (a, b) {
            (ReturnType::SelfType, ReturnType::SelfType) => true,
            _ => false,
        };
        if lub == current_class && both_self {
            ReturnType::SelfType
        } else {
            ReturnType::Type(lub)
        }
    }

    /// An error with the position of `e`.
    fn mismatch_at(expected: ReturnType, found: ReturnType, e: &Expr) -> (err: SemanticError)
        ensures
            err == mismatch(expected, found, Some(e.span)),
    {
        SemanticError { kind: SemanticErrorKind::TypeMismatch { expected, found }, span: Some(e.span.duplicate()) }
    }

    /// Checks the arguments of a call in order.
    #[verifier::loop_isolation(false)]
    fn type_check_list(
        &self,
        current_class: usize,
        parent: &Expr,
        args: &Vec<Expr>,
        obj_env: &mut SymbolTable<usize, ObjInfo>,
    ) -> (r: Result<Vec<ExprNode>, Halt>)
        requires
            self.inv(),
            parent.kind is Dispatch || parent.kind is StaticDispatch || parent.kind is SelfDispatch || parent.kind is Block,
            match parent.kind {
                ExprKind::Dispatch { args: a, .. } => a@ == args@,
                ExprKind::StaticDispatch { args: a, .. } => a@ == args@,
                ExprKind::SelfDispatch { args: a, .. } => a@ == args@,
                ExprKind::Block(a) => a@ == args@,
                _ => false,
            },
        ensures
            final(obj_env)@ == old(obj_env)@,
            match r {
                Ok(ns) => {
                    &&& ns@.len() == args@.len()
                    &&& list_outcome(self.ctx(current_class), old(obj_env)@, args@, args@.len() as int) == ListOutcome::Typed(types_of(ns@))
                    &&& list_annotated(self.ctx(current_class), old(obj_env)@, args@, ns@, args@.len() as int)
                },
                Err(h) => halted_list(list_outcome(self.ctx(current_class), old(obj_env)@, args@, args@.len() as int), h),
            },
        decreases parent, 0int,
    {
        let ghost ctx = self.ctx(current_class);
        let ghost env = obj_env@;
        let mut typed: Vec<ExprNode> = Vec::new();
        let mut i: usize = 0;
        proof {
            assert(types_of(typed@) =~= Seq::<ReturnType>::empty());
        }
        while i < args.len()
            invariant
                i <= args@.len(),
                obj_env@ == env,
                typed@.len() == i,
                list_outcome(ctx, env, args@, i as int) == ListOutcome::Typed(types_of(typed@)),
                list_annotated(ctx, env, args@, typed@, i as int),
            decreases args@.len() - i,
        {
            proof {
                if expr_outcome(ctx, env, args@[i as int]) is Stuck {
                    lemma_list_outcome_stays(ctx, env, args@, i + 1, args@.len() as int);
                }
            }
            let node = self.type_check_expr(current_class, &args[i], obj_env);
            match node {
                Ok(node) => {
                    let ghost prev = typed@;
                    typed.push(node);
                    proof {
                        assert(types_of(typed@) =~= types_of(prev).push(node.ty));
                        lemma_list_annotated_push(ctx, env, args@, prev, node, i as int);
                    }
                },
                Err(err) => {
                    proof {
                        lemma_list_outcome_stays(ctx, env, args@, i + 1, args@.len() as int);
                    }
                    return Err(err);
                },
            }
            i = i + 1;
        }
        Ok(typed)
    }

    /// The type of an object identifier: the one its innermost binding gives.
    fn type_check_object(
        &self,
        current_class: usize,
        e: &Expr,
        name: usize,
        obj_env: &mut SymbolTable<usize, ObjInfo>,
    ) -> (r: Result<ExprNode, Halt>)
        requires
            self.inv(),
            e.kind == ExprKind::Object(name),
        ensures
            final(obj_env)@ == old(obj_env)@,
            check_result(self.ctx(current_class), old(obj_env)@, *e, r),
    {
        match obj_env.lookup(&name) {
            Some(info) => Ok(ast::ExprNode::new(ast::ExprKind::Object(name), info.ty)),
            None => Err(Halt::Failed(SemanticError { kind: SemanticErrorKind::UndeclaredIdentifier { name }, span: None })),
        }
    }

    /// Checks an expression of any kind.
    fn type_check_expr(
        &self,
        class_id: usize,
        expr: &Expr,
        obj_env: &mut SymbolTable<usize, ObjInfo>,
    ) -> (r: Result<ExprNode, Halt>)
        requires
            self.inv(),
        ensures
            final(obj_env)@ == old(obj_env)@,
            check_result(self.ctx(class_id), old(obj_env)@, *expr, r),
        decreases expr, 2int,
    {
        match &expr.kind {
            ExprKind::BoolConstant(value) => Ok(ExprNode::new(ast::ExprKind::BoolConstant(*value), ReturnType::Type(BOOL_ID))),
            ExprKind::IntConstant(value) => Ok(ExprNode::new(ast::ExprKind::IntConstant(*value), ReturnType::Type(INT_ID))),
            ExprKind::StringConstant(value) => Ok(ExprNode::new(ast::ExprKind::StringConstant(*value), ReturnType::Type(STRING_ID))),
            ExprKind::Object(name) => self.type_check_object(class_id, expr, *name, obj_env),
            ExprKind::SelfExpr => Ok(ExprNode::new(ast::ExprKind::SelfExpr, ReturnType::SelfType)),
            ExprKind::Assignment { .. } => self.type_check_expr_assignment(class_id, expr, obj_env),
            ExprKind::Dispatch { .. } => self.type_check_expr_dispatch(class_id, expr, obj_env),
            ExprKind::StaticDispatch { .. } => self.type_check_expr_static_dispatch(class_id, expr, obj_env),
            ExprKind::SelfDispatch { .. } => self.type_check_expr_self_dispatch(class_id, expr, obj_env),
            ExprKind::Conditional { .. } => self.type_check_expr_conditional(class_id, expr, obj_env),
            ExprKind::Loop { .. } => self.type_check_expr_loop(class_id, expr, obj_env),
            ExprKind::Block(_) => self.type_check_expr_block(class_id, expr, obj_env),
            ExprKind::Let { init, .. } => match init {
                Some(_) => self.type_check_let_init(class_id, expr, obj_env),
                None => self.type_check_let_no_init(class_id, expr, obj_env),
            },
            ExprKind::Case { .. } => self.type_check_expr_case(class_id, expr, obj_env),
            ExprKind::New(ty) => Ok(ExprNode::new(ast::ExprKind::New(*ty), *ty)),
            ExprKind::IsVoid(_) => self.type_check_expr_is_void(class_id, expr, obj_env),
            ExprKind::Add(_, _) => self.type_check_expr_arith(class_id, expr, ArithOp::Add, obj_env),
            ExprKind::Sub(_, _) => self.type_check_expr_arith(class_id, expr, ArithOp::Sub, obj_env),
            ExprKind::Mul(_, _) => self.type_check_expr_arith(class_id, expr, ArithOp::Mul, obj_env),
            ExprKind::Div(_, _) => self.type_check_expr_arith(class_id, expr, ArithOp::Div, obj_env),
            ExprKind::Neg(_) => self.type_check_expr_neg(class_id, expr, obj_env),
            ExprKind::Lt(_, _) => self.type_check_expr_comparison(class_id, expr, CompOp::Lt, obj_env),
            ExprKind::Eq(_, _) => self.type_check_expr_eq(class_id, expr, obj_env),
            ExprKind::Le(_, _) => self.type_check_expr_comparison(class_id, expr, CompOp::Le, obj_env),
            ExprKind::Not(_) => self.type_check_expr_not(class_id, expr, obj_env),
            ExprKind::Invalid => Err(Halt::Stuck),
        }
    }

    /// `while cond loop body pool`: the condition must be `Bool`; the
    /// loop has type `Object`.
    fn type_check_expr_loop(
        &self,
        current_class: usize,
        e: &Expr,
        obj_env: &mut SymbolTable<usize, ObjInfo>,
    ) -> (r: Result<ExprNode, Halt>)
        requires
            self.inv(),
            e.kind is Loop,
        ensures
            final(obj_env)@ == old(obj_env)@,
            check_result(self.ctx(current_class), old(obj_env)@, *e, r),
        decreases e, 1int,
    {
        let (expr, body) = match &e.kind {
            ExprKind::Loop { cond, body } => (cond, body),
            _ => {
                proof {
                    assert(false);
                }
                return Err(Halt::Failed(SemanticError { kind: SemanticErrorKind::InvalidBlockConstruct, span: None }));
            },
        };
        let typed_cond = self.type_check_expr(current_class, expr, obj_env)?;
        if !self.is_subtype(current_class, &typed_cond.ty, &ReturnType::Type(BOOL_ID)) {
            return Err(Halt::Failed(Self::mismatch_at(ReturnType::Type(BOOL_ID), typed_cond.ty, expr)));
        }
        let body = self.type_check_expr(current_class, body, obj_env)?;
        Ok(ExprNode::new(ast::ExprKind::Loop { cond: Box::new(typed_cond), body: Box::new(body) }, ReturnType::Type(OBJECT_ID)))
    }

    /// `e1 = e2`: when either side is `Int`, `String` or `Bool`, both
    /// must have the same type.
    fn type_check_expr_eq(
        &self,
        current_class: usize,
        e: &Expr,
        obj_env: &mut SymbolTable<usize, ObjInfo>,
    ) -> (r: Result<ExprNode, Halt>)
        requires
            self.inv(),
            e.kind is Eq,
        ensures
            final(obj_env)@ == old(obj_env)@,
            check_result(self.ctx(current_class), old(obj_env)@, *e, r),
        decreases e, 1int,
    {
        let (expr1, expr2) = match &e.kind {
            ExprKind::Eq(a, b) => (a, b),
            _ => {
                proof {
                    assert(false);
                }
                return Err(Halt::Failed(SemanticError { kind: SemanticErrorKind::InvalidBlockConstruct, span: None }));
            },
        };
        let typed_expr1 = self.type_check_expr(current_class, expr1, obj_env)?;
        let typed_expr2 = self.type_check_expr(current_class, expr2, obj_env)?;
        let p1 = Self::is_primitive(&typed_expr1.ty);
        let p2 = Self::is_primitive(&typed_expr2.ty);
        if p1 || p2 {
            if typed_expr1.ty != typed_expr2.ty {
                return Err(Halt::Failed(Self::mismatch_at(typed_expr1.ty, typed_expr2.ty, expr1)));
            }
        }
        Ok(ExprNode::new(ast::ExprKind::Eq(Box::new(typed_expr1), Box::new(typed_expr2)), ReturnType::Type(BOOL_ID)))
    }

    /// `Int`, `String` and `Bool`.
    fn is_primitive(ty: &ReturnType) -> (r: bool)
        ensures
            r == crate::semantic_analysis::typing::is_primitive(*ty),
    {
        *ty == ReturnType::Type(INT_ID) || *ty == ReturnType::Type(STRING_ID) || *ty == ReturnType::Type(BOOL_ID)
    }

    /// `not e`: `e` must be `Bool`.
    fn type_check_expr_not(
        &self,
        current_class: usize,
        e: &Expr,
        obj_env: &mut SymbolTable<usize, ObjInfo>,
    ) -> (r: Result<ExprNode, Halt>)
        requires
            self.inv(),
            e.kind is Not,
        ensures
            final(obj_env)@ == old(obj_env)@,
            check_result(self.ctx(current_class), old(obj_env)@, *e, r),
        decreases e, 1int,
    {
        let expr = match &e.kind {
            ExprKind::Not(a) => a,
            _ => {
                proof {
                    assert(false);
                }
                return Err(Halt::Failed(SemanticError { kind: SemanticErrorKind::InvalidBlockConstruct, span: None }));
            },
        };
        let typed_expr = self.type_check_expr(current_class, expr, obj_env)?;
        if !self.is_subtype(current_class, &typed_expr.ty, &ReturnType::Type(BOOL_ID)) {
            return Err(Halt::Failed(Self::mismatch_at(ReturnType::Type(BOOL_ID), typed_expr.ty, expr)));
        }
        Ok(ExprNode::new(ast::ExprKind::Not(Box::new(typed_expr)), ReturnType::Type(BOOL_ID)))
    }

    /// `isvoid e` has type `Bool`.
    fn type_check_expr_is_void(
        &self,
        current_class: usize,
        e: &Expr,
        obj_env: &mut SymbolTable<usize, ObjInfo>,
    ) -> (r: Result<ExprNode, Halt>)
        requires
            self.inv(),
            e.kind is IsVoid,
        ensures
            final(obj_env)@ == old(obj_env)@,
            check_result(self.ctx(current_class), old(obj_env)@, *e, r),
        decreases e, 1int,
    {
        let inner = match &e.kind {
            ExprKind::IsVoid(a) => a,
            _ => {
                proof {
                    assert(false);
                }
                return Err(Halt::Failed(SemanticError { kind: SemanticErrorKind::InvalidBlockConstruct, span: None }));
            },
        };
        let e = self.type_check_expr(current_class, inner, obj_env)?;
        Ok(ExprNode::new(ast::ExprKind::IsVoid(Box::new(e)), ReturnType::Type(BOOL_ID)))
    }

    /// `~e`: `e` must be `Int`.
    fn type_check_expr_neg(
        &self,
        current_class: usize,
        e: &Expr,
        obj_env: &mut SymbolTable<usize, ObjInfo>,
    ) -> (r: Result<ExprNode, Halt>)
        requires
            self.inv(),
            e.kind is Neg,
        ensures
            final(obj_env)@ == old(obj_env)@,
            check_result(self.ctx(current_class), old(obj_env)@, *e, r),
        decreases e, 1int,
    {
        let expr = match &e.kind {
            ExprKind::Neg(a) => a,
            _ => {
                proof {
                    assert(false);
                }
                return Err(Halt::Failed(SemanticError { kind: SemanticErrorKind::InvalidBlockConstruct, span: None }));
            },
        };
        let typed_expr = self.type_check_expr(current_class, expr, obj_env)?;
        if !self.is_subtype(current_class, &typed_expr.ty, &ReturnType::Type(INT_ID)) {
            return Err(Halt::Failed(Self::mismatch_at(ReturnType::Type(INT_ID), typed_expr.ty, expr)));
        }
        Ok(ExprNode::new(ast::ExprKind::Neg(Box::new(typed_expr)), ReturnType::Type(INT_ID)))
    }

    /// `+`, `-`, `*`, `/`: both operands are checked, then both must be `Int`.
    fn type_check_expr_arith(
        &self,
        current_class: usize,
        e: &Expr,
        op: ArithOp,
        obj_env: &mut SymbolTable<usize, ObjInfo>,
    ) -> (r: Result<ExprNode, Halt>)
        requires
            self.inv(),
            arith_matches(op, e.kind),
        ensures
            final(obj_env)@ == old(obj_env)@,
            check_result(self.ctx(current_class), old(obj_env)@, *e, r),
        decreases e, 1int,
    {
        let (expr1, expr2) = match &e.kind {
            ExprKind::Add(a, b) => (a, b),
            ExprKind::Sub(a, b) => (a, b),
            ExprKind::Mul(a, b) => (a, b),
            ExprKind::Div(a, b) => (a, b),
            _ => {
                proof {
                    assert(false);
                }
                return Err(Halt::Failed(SemanticError { kind: SemanticErrorKind::InvalidBlockConstruct, span: None }));
            },
        };
        let a = self.type_check_expr(current_class, expr1, obj_env)?;
        let b = self.type_check_expr(current_class, expr2, obj_env)?;
        if !self.is_subtype(current_class, &a.ty, &ReturnType::Type(INT_ID)) {
            return Err(Halt::Failed(Self::mismatch_at(ReturnType::Type(INT_ID), a.ty, expr1)));
        }
        if !self.is_subtype(current_class, &b.ty, &ReturnType::Type(INT_ID)) {
            return Err(Halt::Failed(Self::mismatch_at(ReturnType::Type(INT_ID), b.ty, expr2)));
        }
        match op {
            ArithOp::Add => Ok(ExprNode::new(ast::ExprKind::Add(Box::new(a), Box::new(b)), ReturnType::Type(INT_ID))),
            ArithOp::Sub => Ok(ExprNode::new(ast::ExprKind::Sub(Box::new(a), Box::new(b)), ReturnType::Type(INT_ID))),
            ArithOp::Mul => Ok(ExprNode::new(ast::ExprKind::Mul(Box::new(a), Box::new(b)), ReturnType::Type(INT_ID))),
            ArithOp::Div => Ok(ExprNode::new(ast::ExprKind::Div(Box::new(a), Box::new(b)), ReturnType::Type(INT_ID))),
        }
    }

    /// `<` and `<=`: each operand must be `Int` as soon as it is checked;
    /// the comparison has type `Bool`.
    fn type_check_expr_comparison(
        &self,
        current_class: usize,
        e: &Expr,
        op: CompOp,
        obj_env: &mut SymbolTable<usize, ObjInfo>,
    ) -> (r: Result<ExprNode, Halt>)
        requires
            self.inv(),
            comp_matches(op, e.kind),
        ensures
            final(obj_env)@ == old(obj_env)@,
            check_result(self.ctx(current_class), old(obj_env)@, *e, r),
        decreases e, 1int,
    {
        let (expr1, expr2) = match &e.kind {
            ExprKind::Lt(a, b) => (a, b),
            ExprKind::Le(a, b) => (a, b),
            _ => {
                proof {
                    assert(false);
                }
                return Err(Halt::Failed(SemanticError { kind: SemanticErrorKind::InvalidBlockConstruct, span: None }));
            },
        };
        let e1 = self.type_check_expr(current_class, expr1, obj_env)?;
        if !self.is_subtype(current_class, &e1.ty, &ReturnType::Type(INT_ID)) {
            return Err(Halt::Failed(Self::mismatch_at(ReturnType::Type(INT_ID), e1.ty, expr1)));
        }
        let e2 = self.type_check_expr(current_class, expr2, obj_env)?;
        if !self.is_subtype(current_class, &e2.ty, &ReturnType::Type(INT_ID)) {
            return Err(Halt::Failed(Self::mismatch_at(ReturnType::Type(INT_ID), e2.ty, expr2)));
        }
        match op {
            CompOp::Lt => Ok(ExprNode::new(ast::ExprKind::Lt(Box::new(e1), Box::new(e2)), ReturnType::Type(BOOL_ID))),
            CompOp::Le => Ok(ExprNode::new(ast::ExprKind::Le(Box::new(e1), Box::new(e2)), ReturnType::Type(BOOL_ID))),
        }
    }

    /// `if p then a else b fi`: `p` must be `Bool`; the type is the least
    /// upper bound of the two branches.
    fn type_check_expr_conditional(
        &self,
        current_class: usize,
        e: &Expr,
        obj_env: &mut SymbolTable<usize, ObjInfo>,
    ) -> (r: Result<ExprNode, Halt>)
        requires
            self.inv(),
            e.kind is Conditional,
        ensures
            final(obj_env)@ == old(obj_env)@,
            check_result(self.ctx(current_class), old(obj_env)@, *e, r),
        decreases e, 1int,
    {
        let (predicate, hp, sp) = match &e.kind {
            ExprKind::Conditional { cond, happy_path, sad_path } => (cond, happy_path, sad_path),
            _ => {
                proof {
                    assert(false);
                }
                return Err(Halt::Failed(SemanticError { kind: SemanticErrorKind::InvalidBlockConstruct, span: None }));
            },
        };
        let typed_predicate = self.type_check_expr(current_class, predicate, obj_env)?;
        if !self.is_subtype(current_class, &typed_predicate.ty, &ReturnType::Type(BOOL_ID)) {
            return Err(Halt::Failed(Self::mismatch_at(ReturnType::Type(BOOL_ID), typed_predicate.ty, predicate)));
        }
        let hp: ExprNode = self.type_check_expr(current_class, hp, obj_env)?;
        let sp = self.type_check_expr(current_class, sp, obj_env)?;
        if !self.join_exists(current_class, &sp.ty, &hp.ty) {
            return Err(Halt::Stuck);
        }
        let rt = self.lub(current_class, &sp.ty, &hp.ty);
        Ok(ExprNode::new(
            ast::ExprKind::Conditional { cond: Box::new(typed_predicate), happy_path: Box::new(hp), sad_path: Box::new(sp) },
            rt,
        ))
    }

    /// A call of `name` on a value of class `t0` whose static type is
    /// `self_ty`: the method must exist, take as many arguments, and each
    /// argument must conform to its formal. `SELF_TYPE` as return type
    /// stands for `self_ty`.
    fn check_method_call(
        &self,
        current_class: usize,
        t0: usize,
        self_ty: &ReturnType,
        name: usize,
        args: &Vec<ExprNode>,
    ) -> (r: Result<ReturnType, SemanticError>)
        requires
            self.inv(),
        ensures
            match r {
                Ok(t) => call_outcome(self.ctx(current_class), t0, *self_ty, name, types_of(args@)) == Outcome::Typed(t),
                Err(err) => call_outcome(self.ctx(current_class), t0, *self_ty, name, types_of(args@)) == Outcome::Failed(err),
            },
    {
        let ghost ctx = self.ctx(current_class);
        let ghost ts = types_of(args@);
        let method_info = match self.method_table.lookup(&self.inheritance_tree, t0, name) {
            Some(info) => info,
            None => {
                return Err(SemanticError { kind: SemanticErrorKind::UndefinedMethod { class: current_class, method: name }, span: None });
            },
        };
        let formals = method_info.formals();
        if formals.len() != args.len() {
            return Err(SemanticError {
                kind: SemanticErrorKind::WrongNumberOfArguments { expected: formals.len(), found: args.len() },
                span: None,
            });
        }
        let mut i: usize = 0;
        while i < formals.len()
            invariant
                self.inv(),
                ctx == self.ctx(current_class),
                ts == types_of(args@),
                ts.len() == args@.len(),
                formals@ == method_info@.0,
                crate::semantic_analysis::method_table::lookup_method(ctx.methods, ctx.tree, t0, name) == Some(method_info@),
                formals@.len() == args@.len(),
                i <= formals@.len(),
                first_bad_argument(ctx, formals@, ts, i as int) is None,
            decreases formals@.len() - i,
        {
            if !self.is_subtype(current_class, &args[i].ty, &ReturnType::Type(formals[i].ty())) {
                proof {
                    assert(ts[i as int] == args@[i as int].ty);
                    assert(first_bad_argument(ctx, formals@, ts, i + 1) == Some(i as int));
                    lemma_first_bad_stays(ctx, formals@, ts, i + 1, ts.len() as int);
                }
                return Err(SemanticError {
                    kind: SemanticErrorKind::TypeMismatch { expected: ReturnType::Type(formals[i].ty()), found: args[i].ty },
                    span: None,
                });
            }
            proof {
                assert(ts[i as int] == args@[i as int].ty);
            }
            i = i + 1;
        }
        Ok(match method_info.rt() {
            ReturnType::SelfType => *self_ty,
            ty => ty,
        })
    }

    /// `x <- e`: `x` must be bound and `e` must conform to its type.
    fn type_check_expr_assignment(
        &self,
        current_class: usize,
        e: &Expr,
        obj_env: &mut SymbolTable<usize, ObjInfo>,
    ) -> (r: Result<ExprNode, Halt>)
        requires
            self.inv(),
            e.kind is Assignment,
        ensures
            final(obj_env)@ == old(obj_env)@,
            check_result(self.ctx(current_class), old(obj_env)@, *e, r),
        decreases e, 1int,
    {
        let (var, expr) = match &e.kind {
            ExprKind::Assignment { var, expr } => (var, expr),
            _ => {
                proof {
                    assert(false);
                }
                return Err(Halt::Failed(SemanticError { kind: SemanticErrorKind::InvalidBlockConstruct, span: None }));
            },
        };
        let ast_var = match var {
            parse_tree::Var::Id(id) => *id,
            parse_tree::Var::SelfValue => {
                return Err(Halt::Failed(SemanticError { kind: SemanticErrorKind::AssignmentToSelf, span: None }));
            },
        };
        let declared_ty = match obj_env.lookup(&ast_var) {
            Some(info) => info.ty,
            None => {
                return Err(Halt::Failed(SemanticError {
                    kind: SemanticErrorKind::UndeclaredIdentifier { name: ast_var },
                    span: Some(expr.span.duplicate()),
                }));
            },
        };
        let typed_expr = self.type_check_expr(current_class, expr, obj_env)?;
        if !self.is_subtype(current_class, &typed_expr.ty, &declared_ty) {
            return Err(Halt::Failed(Self::mismatch_at(declared_ty, typed_expr.ty, expr)));
        }
        let ty = typed_expr.ty;
        Ok(ast::ExprNode::new(ast::ExprKind::Assignment { var: ast::Var::Id(ast_var), expr: Box::new(typed_expr) }, ty))
    }

    /// `e0.f(args)`: the method is looked up in the class of `e0`.
    fn type_check_expr_dispatch(
        &self,
        current_class: usize,
        e: &Expr,
        obj_env: &mut SymbolTable<usize, ObjInfo>,
    ) -> (r: Result<ExprNode, Halt>)
        requires
            self.inv(),
            e.kind is Dispatch,
        ensures
            final(obj_env)@ == old(obj_env)@,
            check_result(self.ctx(current_class), old(obj_env)@, *e, r),
        decreases e, 1int,
    {
        let (e0, name, args) = match &e.kind {
            ExprKind::Dispatch { expr, name, args } => (expr, *name, args),
            _ => {
                proof {
                    assert(false);
                }
                return Err(Halt::Failed(SemanticError { kind: SemanticErrorKind::InvalidBlockConstruct, span: None }));
            },
        };
        let e0 = self.type_check_expr(current_class, e0, obj_env)?;
        let t0 = match &e0.ty {
            ReturnType::SelfType => current_class,
            ReturnType::Type(id) => *id,
        };
        let typed_args = self.type_check_list(current_class, e, args, obj_env)?;
        let rt = match self.check_method_call(current_class, t0, &e0.ty, name, &typed_args) {
            Ok(rt) => rt,
            Err(err) => {
                return Err(Halt::Failed(err));
            },
        };
        Ok(ExprNode::new(ast::ExprKind::Dispatch { expr: Box::new(e0), name, args: typed_args, static_class: t0 }, rt))
    }

    /// `e0@T.f(args)`: `e0` must conform to `T`, and the method is looked
    /// up in `T`.
    fn type_check_expr_static_dispatch(
        &self,
        current_class: usize,
        e: &Expr,
        obj_env: &mut SymbolTable<usize, ObjInfo>,
    ) -> (r: Result<ExprNode, Halt>)
        requires
            self.inv(),
            e.kind is StaticDispatch,
        ensures
            final(obj_env)@ == old(obj_env)@,
            check_result(self.ctx(current_class), old(obj_env)@, *e, r),
        decreases e, 1int,
    {
        let (expr, t, method_name, args) = match &e.kind {
            ExprKind::StaticDispatch { expr, type_dec, name, args } => (expr, *type_dec, *name, args),
            _ => {
                proof {
                    assert(false);
                }
                return Err(Halt::Failed(SemanticError { kind: SemanticErrorKind::InvalidBlockConstruct, span: None }));
            },
        };
        let e0 = self.type_check_expr(current_class, expr, obj_env)?;
        if !self.is_subtype(current_class, &e0.ty, &ReturnType::Type(t)) {
            return Err(Halt::Failed(Self::mismatch_at(ReturnType::Type(t), e0.ty, expr)));
        }
        let typed_args = self.type_check_list(current_class, e, args, obj_env)?;
        let rt = match self.check_method_call(current_class, t, &e0.ty, method_name, &typed_args) {
            Ok(rt) => rt,
            Err(err) => {
                return Err(Halt::Failed(err));
            },
        };
        Ok(ExprNode::new(ast::ExprKind::StaticDispatch { expr: Box::new(e0), type_dec: t, name: method_name, args: typed_args }, rt))
    }

    /// `f(args)`: a call on `self`.
    fn type_check_expr_self_dispatch(
        &self,
        current_class: usize,
        e: &Expr,
        obj_env: &mut SymbolTable<usize, ObjInfo>,
    ) -> (r: Result<ExprNode, Halt>)
        requires
            self.inv(),
            e.kind is SelfDispatch,
        ensures
            final(obj_env)@ == old(obj_env)@,
            check_result(self.ctx(current_class), old(obj_env)@, *e, r),
        decreases e, 1int,
    {
        let (method_name, args) = match &e.kind {
            ExprKind::SelfDispatch { name, args } => (*name, args),
            _ => {
                proof {
                    assert(false);
                }
                return Err(Halt::Failed(SemanticError { kind: SemanticErrorKind::InvalidBlockConstruct, span: None }));
            },
        };
        let typed_args = self.type_check_list(current_class, e, args, obj_env)?;
        let rt = match self.check_method_call(current_class, current_class, &ReturnType::SelfType, method_name, &typed_args) {
            Ok(rt) => rt,
            Err(err) => {
                return Err(Halt::Failed(err));
            },
        };
        Ok(ExprNode::new(ast::ExprKind::SelfDispatch { name: method_name, args: typed_args, static_class: current_class }, rt))
    }

    /// Checks `body` in a new innermost scope that binds `name` to `ty`.
    fn check_in_scope(
        &self,
        class_id: usize,
        parent: &Expr,
        name: usize,
        ty: ReturnType,
        body: &Expr,
        obj_env: &mut SymbolTable<usize, ObjInfo>,
    ) -> (r: Result<ExprNode, Halt>)
        requires
            self.inv(),
            decreases_to!(*parent => *body),
        ensures
            final(obj_env)@ == old(obj_env)@,
            check_result(self.ctx(class_id), with_local(old(obj_env)@, name, ty), *body, r),
        decreases parent, 0int,
    {
        obj_env.enter_scope();
        obj_env.add_id(name, ObjInfo::new(ty, ObjKind::Local));
        proof {
            assert(obj_env@ =~= with_local(old(obj_env)@, name, ty));
        }
        let res = self.type_check_expr(class_id, body, obj_env);
        obj_env.exit_scope();
        proof {
            assert(obj_env@ =~= old(obj_env)@);
        }
        res
    }

    /// `let x: T <- init in body`: `init` must conform to `T`; the type
    /// is that of `body`, checked with `x` bound to `T`.
    fn type_check_let_init(
        &self,
        class_id: usize,
        e: &Expr,
        obj_env: &mut SymbolTable<usize, ObjInfo>,
    ) -> (r: Result<ExprNode, Halt>)
        requires
            self.inv(),
            e.kind matches ExprKind::Let { init, .. } && init is Some,
        ensures
            final(obj_env)@ == old(obj_env)@,
            check_result(self.ctx(class_id), old(obj_env)@, *e, r),
        decreases e, 1int,
    {
        let (var_name, type_dec, init, body) = match &e.kind {
            ExprKind::Let { name, type_dec, init: Some(init), body } => (*name, *type_dec, init, body),
            _ => {
                proof {
                    assert(false);
                }
                return Err(Halt::Failed(SemanticError { kind: SemanticErrorKind::InvalidBlockConstruct, span: None }));
            },
        };
        let declared_ty = type_dec;
        let e1 = self.type_check_expr(class_id, init, obj_env)?;
        if !self.is_subtype(class_id, &e1.ty, &declared_ty) {
            return Err(Halt::Failed(Self::mismatch_at(declared_ty, e1.ty, init)));
        }
        let e2 = self.check_in_scope(class_id, e, var_name, declared_ty, body, obj_env)?;
        let t2 = e2.ty;
        Ok(ExprNode::new(
            ast::ExprKind::Let { name: var_name, type_dec: declared_ty, init: Some(Box::new(e1)), body: Box::new(e2) },
            t2,
        ))
    }

    /// `let x: T in body`: the type of `body`, checked with `x` bound to `T`.
    fn type_check_let_no_init(
        &self,
        class_id: usize,
        e: &Expr,
        obj_env: &mut SymbolTable<usize, ObjInfo>,
    ) -> (r: Result<ExprNode, Halt>)
        requires
            self.inv(),
            e.kind matches ExprKind::Let { init, .. } && init is None,
        ensures
            final(obj_env)@ == old(obj_env)@,
            check_result(self.ctx(class_id), old(obj_env)@, *e, r),
        decreases e, 1int,
    {
        let (var_name, type_dec, body) = match &e.kind {
            ExprKind::Let { name, type_dec, init: None, body } => (*name, *type_dec, body),
            _ => {
                proof {
                    assert(false);
                }
                return Err(Halt::Failed(SemanticError { kind: SemanticErrorKind::InvalidBlockConstruct, span: None }));
            },
        };
        let declared_ty = type_dec;
        let e1 = self.check_in_scope(class_id, e, var_name, declared_ty, body, obj_env)?;
        let t1 = e1.ty;
        Ok(ExprNode::new(ast::ExprKind::Let { name: var_name, type_dec: declared_ty, init: None, body: Box::new(e1) }, t1))
    }

    /// `case e of x1: T1 => b1; ... esac`: no two branches may declare
    /// the same type; each body is checked with its variable bound; the
    /// type is the least upper bound of the body types, from the left.
    #[verifier::loop_isolation(false)]
    fn type_check_expr_case(
        &self,
        current_class: usize,
        e: &Expr,
        obj_env: &mut SymbolTable<usize, ObjInfo>,
    ) -> (r: Result<ExprNode, Halt>)
        requires
            self.inv(),
            e.kind is Case,
        ensures
            final(obj_env)@ == old(obj_env)@,
            check_result(self.ctx(current_class), old(obj_env)@, *e, r),
        decreases e, 1int,
    {
        let ghost ctx = self.ctx(current_class);
        let ghost env = obj_env@;
        let (cond, branches) = match &e.kind {
            ExprKind::Case { cond, branches } => (cond, branches),
            _ => {
                proof {
                    assert(false);
                }
                return Err(Halt::Failed(SemanticError { kind: SemanticErrorKind::InvalidBlockConstruct, span: None }));
            },
        };
        let cond = self.type_check_expr(current_class, cond, obj_env)?;
        let mut seen_types: Vec<usize> = Vec::new();
        let mut typed_branches: Vec<ast::CaseBranchNode> = Vec::new();
        let ghost mut tys: Seq<ReturnType> = Seq::empty();
        let mut i: usize = 0;
        while i < branches.len()
            invariant
                i <= branches@.len(),
                obj_env@ == env,
                typed_branches@.len() == i,
                seen_types@.len() == i,
                forall|k: int| 0 <= k < i ==> seen_types@[k] == (#[trigger] branches@[k]).type_dec,
                tys.len() == i,
                forall|k: int| 0 <= k < i ==> tys[k] == (#[trigger] typed_branches@[k]).body.ty,
                branches_outcome(ctx, env, branches@, i as int) == ListOutcome::Typed(tys),
                branches_annotated(ctx, env, branches@, typed_branches@, i as int),
            decreases branches@.len() - i,
        {
            let branch = &branches[i];
            if vec_contains(&seen_types, branch.type_dec) {
                proof {
                    let k = choose|k: int| 0 <= k < seen_types@.len() && seen_types@[k] == branch.type_dec;
                    assert(branches@[k].type_dec == branches@[i as int].type_dec);
                    assert(crate::semantic_analysis::typing::duplicate_before(branches@, i as int));
                    lemma_branches_outcome_stays(ctx, env, branches@, i + 1, branches@.len() as int);
                }
                return Err(Halt::Failed(SemanticError { kind: SemanticErrorKind::DuplicateCaseBranchType { ty: branch.type_dec }, span: None }));
            }
            proof {
                assert(!crate::semantic_analysis::typing::duplicate_before(branches@, i as int)) by {
                    if crate::semantic_analysis::typing::duplicate_before(branches@, i as int) {
                        let k = choose|k: int| 0 <= k < i && #[trigger] branches@[k].type_dec == branches@[i as int].type_dec;
                        assert(seen_types@[k] == branch.type_dec);
                    }
                }
                if expr_outcome(ctx, with_local(env, branch.name, ReturnType::Type(branch.type_dec)), *branch.body) is Stuck {
                    lemma_branches_outcome_stays(ctx, env, branches@, i + 1, branches@.len() as int);
                }
            }
            seen_types.push(branch.type_dec);
            let res = self.check_in_scope(current_class, e, branch.name, ReturnType::Type(branch.type_dec), &branch.body, obj_env);
            let typed_body = match res {
                Ok(b) => b,
                Err(err) => {
                    proof {
                        lemma_branches_outcome_stays(ctx, env, branches@, i + 1, branches@.len() as int);
                    }
                    return Err(err);
                },
            };
            let ghost prev = typed_branches@;
            let ghost body_ty = typed_body.ty;
            typed_branches.push(ast::CaseBranchNode { name: branch.name, type_dec: branch.type_dec, body: Box::new(typed_body) });
            proof {
                tys = tys.push(body_ty);
                lemma_branches_annotated_prefix(ctx, env, branches@, prev, typed_branches@, i as int);
            }
            i = i + 1;
        }
        if typed_branches.len() == 0 {
            return Err(Halt::Failed(SemanticError { kind: SemanticErrorKind::InvalidBlockConstruct, span: None }));
        }
        let mut rt = typed_branches[0].body.ty;
        let mut k: usize = 1;
        while k < typed_branches.len()
            invariant
                1 <= k <= typed_branches@.len(),
                tys.len() == typed_branches@.len(),
                join_all(ctx, tys, k as int) == Some(rt),
            decreases typed_branches@.len() - k,
        {
            let ty = typed_branches[k].body.ty;
            if !self.join_exists(current_class, &rt, &ty) {
                proof {
                    lemma_join_all_none_stays(ctx, tys, k + 1, tys.len() as int);
                }
                return Err(Halt::Stuck);
            }
            rt = self.lub(current_class, &rt, &ty);
            k = k + 1;
        }
        Ok(ExprNode::new(ast::ExprKind::Case { cond: Box::new(cond), branches: typed_branches }, rt))
    }

    /// This analyzer holds the hierarchy and the method table built from `classes`.
    pub closed spec fn for_program(&self, classes: Seq<parse_tree::Class>) -> bool {
        &&& self.inv()
        &&& self.inheritance_tree@ == hierarchy_of(classes)
        &&& self.method_table@ == methods_of(classes)
    }

    proof fn lemma_ctx(&self, classes: Seq<parse_tree::Class>, cls: usize)
        requires
            self.for_program(classes),
        ensures
            self.ctx(cls) == program_ctx(classes, cls),
    {
    }

    /// An attribute and its initializer, which must conform to its type.
    fn type_check_attribute(
        &self,
        current_class: usize,
        attribute: &parse_tree::Feature,
        obj_env: &mut SymbolTable<usize, ObjInfo>,
    ) -> (r: Result<ast::FeatureNode, Halt>)
        requires
            self.inv(),
            attribute is Attribute,
        ensures
            final(obj_env)@ == old(obj_env)@,
            match r {
                Ok(n) => feature_outcome(self.ctx(current_class), old(obj_env)@, *attribute) is Checked
                    && feature_annotated(self.ctx(current_class), old(obj_env)@, *attribute, n),
                Err(h) => halted_feature(feature_outcome(self.ctx(current_class), old(obj_env)@, *attribute), h),
            },
    {
        let (name, type_dec, init) = match attribute {
            parse_tree::Feature::Attribute { name, type_dec, init } => (*name, *type_dec, init),
            _ => {
                proof {
                    assert(false);
                }
                return Err(Halt::Failed(SemanticError { kind: SemanticErrorKind::InvalidBlockConstruct, span: None }));
            },
        };
        let typed_init = match init {
            Some(expr) => Some(Box::new(self.type_check_attribute_init(current_class, name, type_dec, expr, obj_env)?)),
            None => None,
        };
        Ok(ast::FeatureNode::attribute(name, type_dec, typed_init))
    }

    /// The initializer of an attribute, which must conform to its type.
    fn type_check_attribute_init(
        &self,
        current_class: usize,
        name: usize,
        type_dec: ReturnType,
        init: &Box<Expr>,
        obj_env: &mut SymbolTable<usize, ObjInfo>,
    ) -> (r: Result<ExprNode, Halt>)
        requires
            self.inv(),
        ensures
            final(obj_env)@ == old(obj_env)@,
            match r {
                Ok(n) => attribute_outcome(self.ctx(current_class), old(obj_env)@, name, type_dec, Some(*init)) is Checked
                    && annotated(self.ctx(current_class), old(obj_env)@, **init, n),
                Err(h) => halted_feature(attribute_outcome(self.ctx(current_class), old(obj_env)@, name, type_dec, Some(*init)), h),
            },
    {
        let expr = self.type_check_expr(current_class, init, obj_env)?;
        if !self.is_subtype(current_class, &expr.ty, &type_dec) {
            return Err(Halt::Failed(SemanticError { kind: SemanticErrorKind::AttributeMismatch { attribute: name, found: expr.ty }, span: None }));
        }
        Ok(expr)
    }

    /// A method: its body, checked with its formals bound, must conform to
    /// the return type that the class sees for it.
    fn type_check_method(
        &self,
        current_class: usize,
        method: &parse_tree::Feature,
        obj_env: &mut SymbolTable<usize, ObjInfo>,
    ) -> (r: Result<ast::FeatureNode, Halt>)
        requires
            self.inv(),
            method is Method,
        ensures
            final(obj_env)@ == old(obj_env)@,
            match r {
                Ok(n) => feature_outcome(self.ctx(current_class), old(obj_env)@, *method) is Checked
                    && feature_annotated(self.ctx(current_class), old(obj_env)@, *method, n),
                Err(h) => halted_feature(feature_outcome(self.ctx(current_class), old(obj_env)@, *method), h),
            },
    {
        let ghost ctx = self.ctx(current_class);
        let ghost env = obj_env@;
        let (method_name, body) = match method {
            parse_tree::Feature::Method { name, body, .. } => (*name, body),
            _ => {
                proof {
                    assert(false);
                }
                return Err(Halt::Failed(SemanticError { kind: SemanticErrorKind::InvalidBlockConstruct, span: None }));
            },
        };
        let method_info = match self.method_table.lookup(&self.inheritance_tree, current_class, method_name) {
            Some(info) => info,
            None => {
                return Err(Halt::Failed(SemanticError { kind: SemanticErrorKind::UndefinedMethod { class: current_class, method: method_name }, span: None }));
            },
        };
        let declared_rt = method_info.rt();
        let infos = method_info.formals();
        let mut formals: Vec<ast::FormalNode> = Vec::new();
        obj_env.enter_scope();
        let mut i: usize = 0;
        proof {
            assert(infos@.take(0) =~= Seq::<FormalInfo>::empty());
            assert(obj_env@ =~= env.push(formals_scope(infos@.take(0))));
        }
        while i < infos.len()
            invariant
                i <= infos@.len(),
                formals@.len() == i,
                forall|k: int| 0 <= k < i ==> (#[trigger] formals@[k]).name == infos@[k].name && formals@[k].type_dec == infos@[k].ty,
                obj_env@ == env.push(formals_scope(infos@.take(i as int))),
            decreases infos@.len() - i,
        {
            let f = &infos[i];
            formals.push(ast::FormalNode { name: f.name(), type_dec: f.ty() });
            obj_env.add_id(f.name(), ObjInfo::new(ReturnType::Type(f.ty()), ObjKind::Formal));
            proof {
                assert(infos@.take(i + 1).drop_last() =~= infos@.take(i as int));
                assert(infos@.take(i + 1).last() == infos@[i as int]);
                assert(obj_env@ =~= env.push(formals_scope(infos@.take(i + 1))));
            }
            i = i + 1;
        }
        proof {
            assert(infos@.take(i as int) =~= infos@);
        }
        let result = self.type_check_expr(current_class, body, obj_env);
        obj_env.exit_scope();
        proof {
            assert(obj_env@ =~= env);
        }
        let typed_body = result?;
        if !self.is_subtype(current_class, &typed_body.ty, &declared_rt) {
            return Err(Halt::Failed(SemanticError {
                kind: SemanticErrorKind::TypeMismatch { expected: declared_rt, found: typed_body.ty },
                span: Some(body.span.duplicate()),
            }));
        }
        Ok(ast::FeatureNode::Method { name: method_name, params: formals, return_type: declared_rt, body: Box::new(typed_body) })
    }

    /// The classes above `class_name`, nearest first.
    fn ancestors_of(&self, class_name: usize) -> (v: Vec<usize>)
        requires
            self.inv(),
        ensures
            v@ == chain_above(self.inheritance_tree@, class_name),
    {
        let ghost tm = self.inheritance_tree@;
        proof {
            self.inheritance_tree.lemma_dom_finite();
            lemma_chain_ends(tm, class_name);
            assert(ancestor_at(tm, class_name, 0) == Some(class_name));
            assert(ancestor_at(tm, class_name, 1) == parent_of(tm, class_name));
        }
        let ghost end = tm.dom().len() + 1;
        let mut ancestors: Vec<usize> = Vec::new();
        let mut current = self.inheritance_tree.parent(class_name);
        while current.is_some()
            invariant
                self.inv(),
                tm == self.inheritance_tree@,
                current == ancestor_at(tm, class_name, (ancestors@.len() + 1) as nat),
                ancestor_at(tm, class_name, ancestors@.len() as nat) is Some,
                forall|i: int| 0 <= i < ancestors@.len() ==> Some(#[trigger] ancestors@[i]) == ancestor_at(tm, class_name, (i + 1) as nat),
                ancestor_at(tm, class_name, end) is None,
                ancestors@.len() < end,
            decreases end - ancestors@.len(),
        {
            let ancestor = current.unwrap();
            ancestors.push(ancestor);
            current = self.inheritance_tree.parent(ancestor);
            proof {
                assert(ancestor_at(tm, class_name, (ancestors@.len() + 1) as nat) == parent_of(tm, ancestor));
                if end <= ancestors@.len() {
                    lemma_ancestor_none_stays(tm, class_name, end, ancestors@.len() as nat);
                }
            }
        }
        proof {
            let n = ancestors@.len() as nat;
            assert(ancestor_at(tm, class_name, n) is Some && ancestor_at(tm, class_name, n + 1) is None);
            let t = choose|t: nat| #[trigger] ancestor_at(tm, class_name, t) is Some && ancestor_at(tm, class_name, t + 1) is None;
            if t < n {
                lemma_ancestor_none_stays(tm, class_name, t + 1, n);
            } else if n < t {
                lemma_ancestor_none_stays(tm, class_name, n + 1, t);
            }
            assert(ancestors@ =~= chain_above(tm, class_name));
        }
        ancestors
    }

    /// Binds the attributes among `features` in the innermost scope.
    fn bind_attributes(features: &Vec<parse_tree::Feature>, obj_env: &mut SymbolTable<usize, ObjInfo>)
        requires
            old(obj_env)@.len() == 1,
        ensures
            final(obj_env)@ == seq![bind_attributes(old(obj_env)@[0], features@, features@.len() as int)],
    {
        let ghost m0 = obj_env@[0];
        let mut i: usize = 0;
        proof {
            assert(obj_env@ =~= seq![bind_attributes(m0, features@, 0)]);
        }
        while i < features.len()
            invariant
                i <= features@.len(),
                obj_env@ == seq![bind_attributes(m0, features@, i as int)],
            decreases features@.len() - i,
        {
            match &features[i] {
                parse_tree::Feature::Attribute { name, type_dec, .. } => {
                    obj_env.add_id(*name, ObjInfo::new(*type_dec, ObjKind::Attribute));
                },
                _ => {},
            }
            proof {
                assert(obj_env@ =~= seq![bind_attributes(m0, features@, i + 1)]);
            }
            i = i + 1;
        }
    }

    /// Opens the scope of a class: the attributes of its ancestors,
    /// farthest first, then its own.
    fn enter_class_scope(
        &self,
        program: &parse_tree::Program,
        class_name: usize,
        class_features: &Vec<parse_tree::Feature>,
        obj_env: &mut SymbolTable<usize, ObjInfo>,
    )
        requires
            self.inv(),
            old(obj_env)@.len() == 0,
        ensures
            final(obj_env)@ == seq![class_scope(self.inheritance_tree@, program.classes@, class_name, class_features@)],
    {
        let ghost classes = program.classes@;
        obj_env.enter_scope();
        let ancestors = self.ancestors_of(class_name);
        let ghost anc = ancestors@;
        let mut j: usize = 0;
        proof {
            assert(obj_env@ =~= seq![bind_chain(classes, anc, 0)]);
        }
        while j < ancestors.len()
            invariant
                j <= anc.len(),
                ancestors@ == anc,
                classes == program.classes@,
                obj_env@ == seq![bind_chain(classes, anc, j as int)],
            decreases anc.len() - j,
        {
            let ancestor = ancestors[ancestors.len() - 1 - j];
            match find_class_features(program, ancestor) {
                Some(features) => {
                    Self::bind_attributes(features, obj_env);
                },
                None => {},
            }
            proof {
                assert(obj_env@ =~= seq![bind_chain(classes, anc, j + 1)]);
            }
            j = j + 1;
        }
        Self::bind_attributes(class_features, obj_env);
    }

    /// Checks the features of a class, with the attributes of its
    /// ancestors and its own in scope.
    fn type_check_class(
        &self,
        class: &parse_tree::Class,
        program: &parse_tree::Program,
        obj_env: &mut SymbolTable<usize, ObjInfo>,
    ) -> (r: Option<Result<ast::ClassNode, Vec<SemanticError>>>)
        requires
            self.for_program(program.classes@),
            class is Valid,
            old(obj_env)@.len() == 0,
        ensures
            final(obj_env)@.len() == 0,
            match r {
                None => class_stuck(program.classes@, *class),
                Some(Ok(n)) => !class_stuck(program.classes@, *class) && class_errors(program.classes@, *class).len() == 0
                    && class_annotated(program.classes@, *class, n),
                Some(Err(errs)) => !class_stuck(program.classes@, *class) && errs@ == class_errors(program.classes@, *class)
                    && errs@.len() > 0,
            },
    {
        let ghost classes = program.classes@;
        let mut errors: Vec<SemanticError> = Vec::new();
        let mut ast_features: Vec<ast::FeatureNode> = Vec::new();
        let (class_name, parent, class_features) = match class {
            parse_tree::Class::Valid { name, parent, features } => (*name, *parent, features),
            _ => {
                proof {
                    assert(false);
                }
                return None;
            },
        };
        let ghost ctx = self.ctx(class_name);
        proof {
            self.lemma_ctx(classes, class_name);
        }
        self.enter_class_scope(program, class_name, class_features, obj_env);
        let ghost env = obj_env@;
        proof {
            assert(class_stuck(classes, *class) == features_stuck(ctx, env, class_features@, class_features@.len() as int));
        }
        let mut i: usize = 0;
        let mut stuck = false;
        while i < class_features.len() && !stuck
            invariant
                self.inv(),
                ctx == self.ctx(class_name),
                i <= class_features@.len(),
                obj_env@ == env,
                stuck ==> features_stuck(ctx, env, class_features@, class_features@.len() as int),
                !stuck ==> !features_stuck(ctx, env, class_features@, i as int),
                !stuck ==> errors@ == features_errors(ctx, env, class_features@, i as int),
                !stuck && errors@.len() == 0 ==> features_annotated(ctx, env, class_features@, ast_features@, i as int),
            decreases class_features@.len() - i,
        {
            let feature = &class_features[i];
            match feature {
                parse_tree::Feature::Attribute { .. } => {
                    match self.type_check_attribute(class_name, feature, obj_env) {
                        Ok(attribute) => {
                            let ghost prev = ast_features@;
                            ast_features.push(attribute);
                            proof {
                                assert(ast_features@.drop_last() =~= prev);
                            }
                        },
                        Err(Halt::Failed(e)) => errors.push(e),
                        Err(Halt::Stuck) => {
                            stuck = true;
                        },
                    }
                },
                parse_tree::Feature::Method { .. } => {
                    match self.type_check_method(class_name, feature, obj_env) {
                        Ok(method) => {
                            let ghost prev = ast_features@;
                            ast_features.push(method);
                            proof {
                                assert(ast_features@.drop_last() =~= prev);
                            }
                        },
                        Err(Halt::Failed(e)) => errors.push(e),
                        Err(Halt::Stuck) => {
                            stuck = true;
                        },
                    }
                },
                parse_tree::Feature::Invalid => {},
            }
            proof {
                if stuck {
                    assert(feature_outcome(ctx, env, class_features@[i as int]) is Stuck);
                } else {
                    lemma_features_stuck_step(ctx, env, class_features@, i as int);
                }
            }
            i = i + 1;
        }
        if stuck {
            obj_env.exit_scope();
            return None;
        }
        obj_env.exit_scope();
        if errors.len() > 0 {
            return Some(Err(errors));
        }
        Some(Ok(ast::ClassNode::new(class_name, parent, ast_features)))
    }

    /// Checks every valid class; the errors of all classes, in order, or
    /// the checked program.
    #[verifier::loop_isolation(false)]
    fn type_check(&self, program: &parse_tree::Program) -> (r: Option<Result<ast::Root, Vec<SemanticError>>>)
        requires
            self.for_program(program.classes@),
        ensures
            match r {
                None => exists|i: int| 0 <= i < program.classes@.len() && class_stuck(program.classes@, #[trigger] program.classes@[i]),
                Some(r) => {
                    &&& forall|i: int| 0 <= i < program.classes@.len() ==> !class_stuck(program.classes@, #[trigger] program.classes@[i])
                    &&& match r {
                        Ok(root) => type_errors(program.classes@, program.classes@.len() as int).len() == 0
                            && classes_annotated(program.classes@, root.classes@, program.classes@.len() as int),
                        Err(errs) => errs@ == type_errors(program.classes@, program.classes@.len() as int) && errs@.len() > 0,
                    }
                },
            },
    {
        let ghost classes = program.classes@;
        let mut errors: Vec<SemanticError> = Vec::new();
        let mut classes_out: Vec<ast::ClassNode> = Vec::new();
        let mut i: usize = 0;
        while i < program.classes.len()
            invariant
                i <= classes.len(),
                classes == program.classes@,
                forall|k: int| 0 <= k < i ==> !class_stuck(classes, #[trigger] classes[k]),
                errors@ == type_errors(classes, i as int),
                errors@.len() == 0 ==> classes_annotated(classes, classes_out@, i as int),
            decreases classes.len() - i,
        {
            let class = &program.classes[i];
            match class {
                parse_tree::Class::Invalid => {
                    proof {
                        assert(type_errors(classes, i + 1) =~= type_errors(classes, i as int));
                    }
                },
                parse_tree::Class::Valid { .. } => {
                    let mut obj_env: SymbolTable<usize, ObjInfo> = SymbolTable::new();
                    match self.type_check_class(class, program, &mut obj_env) {
                        None => {
                            return None;
                        },
                        Some(Ok(c)) => {
                            let ghost prev = classes_out@;
                            classes_out.push(c);
                            proof {
                                assert(classes_out@.drop_last() =~= prev);
                                assert(type_errors(classes, i + 1) =~= type_errors(classes, i as int));
                            }
                        },
                        Some(Err(mut e)) => {
                            errors.append(&mut e);
                        },
                    }
                },
            }
            i = i + 1;
        }
        if errors.len() > 0 {
            return Some(Err(errors));
        }
        Some(Ok(ast::Root::new(classes_out)))
    }

    /// Each method of a class that names a parent must have the same
    /// signature as the method of that name that the parent sees, if any.
    #[verifier::loop_isolation(false)]
    fn check_overrides(&self, program: &parse_tree::Program) -> (r: Result<(), Vec<SemanticError>>)
        requires
            self.for_program(program.classes@),
        ensures
            match r {
                Ok(()) => override_errors(program.classes@, program.classes@.len() as int).len() == 0,
                Err(errs) => errs@ == override_errors(program.classes@, program.classes@.len() as int) && errs@.len() > 0,
            },
    {
        let ghost classes = program.classes@;
        let mut errors: Vec<SemanticError> = Vec::new();
        let mut ci: usize = 0;
        while ci < program.classes.len()
            invariant
                ci <= classes.len(),
                classes == program.classes@,
                errors@ == override_errors(classes, ci as int),
            decreases classes.len() - ci,
        {
            match &program.classes[ci] {
                parse_tree::Class::Valid { name: class_id, parent: Some(p), features } => {
                    let ghost base_errs = errors@;
                    let mut fi: usize = 0;
                    while fi < features.len()
                        invariant
                            fi <= features@.len(),
                            errors@ == base_errs + feature_override_errors(classes, *class_id, *p, features@, fi as int),
                        decreases features@.len() - fi,
                    {
                        match &features[fi] {
                            parse_tree::Feature::Method { name: method_name, params, type_dec, .. } => {
                                let mut formal_info: Vec<FormalInfo> = Vec::new();
                                let mut pi: usize = 0;
                                while pi < params.len()
                                    invariant
                                        pi <= params@.len(),
                                        formal_info@ == formals_of(params@.take(pi as int)),
                                    decreases params@.len() - pi,
                                {
                                    formal_info.push(FormalInfo::new(params[pi].name, params[pi].type_dec));
                                    proof {
                                        assert(formals_of(params@.take(pi + 1)) =~= formals_of(params@.take(pi as int)).push(
                                            FormalInfo { name: params@[pi as int].name, ty: params@[pi as int].type_dec },
                                        ));
                                    }
                                    pi = pi + 1;
                                }
                                proof {
                                    assert(params@.take(pi as int) =~= params@);
                                }
                                let base_method_info = MethodInfo::new(formal_info, *type_dec);
                                match self.method_table.lookup(&self.inheritance_tree, *p, *method_name) {
                                    Some(parent_method_info) => {
                                        if !parent_method_info.has_same_signature(&base_method_info) {
                                            errors.push(SemanticError {
                                                kind: SemanticErrorKind::WrongOverrideSignature { class: *class_id, method: *method_name },
                                                span: None,
                                            });
                                        }
                                    },
                                    None => {},
                                }
                            },
                            _ => {},
                        }
                        proof {
                            let a = base_errs + feature_override_errors(classes, *class_id, *p, features@, fi + 1);
                            assert(errors@ =~= a);
                        }
                        fi = fi + 1;
                    }
                },
                _ => {},
            }
            proof {
                assert(errors@ =~= override_errors(classes, ci + 1));
            }
            ci = ci + 1;
        }
        if errors.len() > 0 {
            return Err(errors);
        }
        Ok(())
    }

    /// Checks a program: its class hierarchy, then its method table, then
    /// its method overrides and the types of its classes. Returns the
    /// program with every expression typed, or all the errors found at
    /// the first stage that has any (override and type errors together);
    /// `None` when the hierarchy and the method table are sound but some
    /// expression cannot be checked: one that did not parse, or two types
    /// without a common ancestor.
    pub fn analyze_checked(program: &parse_tree::Program) -> (r: Option<Result<ast::Root, Vec<SemanticError>>>)
        ensures
            r is None <==> !analysis_defined(program.classes@),
            match r {
                Some(Ok(root)) => analysis_errors(program.classes@).len() == 0
                    && classes_annotated(program.classes@, root.classes@, program.classes@.len() as int),
                Some(Err(errs)) => errs@ == analysis_errors(program.classes@) && errs@.len() > 0,
                None => true,
            },
    {
        let inheritance_tree = match InheritanceTree::build(program) {
            Ok(tree) => tree,
            Err(e) => {
                return Some(Err(e));
            },
        };
        let method_table = match MethodTable::build(program) {
            Ok(table) => table,
            Err(e) => {
                return Some(Err(e));
            },
        };
        let mut errors: Vec<SemanticError> = Vec::new();
        let analyzer = Self { inheritance_tree, method_table };
        match analyzer.check_overrides(program) {
            Ok(()) => {},
            Err(mut e) => errors.append(&mut e),
        }
        match analyzer.type_check(program) {
            None => None,
            Some(Ok(root)) => {
                if errors.len() == 0 {
                    Some(Ok(root))
                } else {
                    Some(Err(errors))
                }
            },
            Some(Err(mut e)) => {
                errors.append(&mut e);
                Some(Err(errors))
            },
        }
    }

    /// Checks a program, as `analyze_checked` does, when every expression
    /// can be checked.
    pub fn analyze(program: &parse_tree::Program) -> (r: Result<ast::Root, Vec<SemanticError>>)
        requires
            analysis_defined(program.classes@),
        ensures
            match r {
                Ok(root) => analysis_errors(program.classes@).len() == 0
                    && classes_annotated(program.classes@, root.classes@, program.classes@.len() as int),
                Err(errs) => errs@ == analysis_errors(program.classes@) && errs@.len() > 0,
            },
    {
        match Self::analyze_checked(program) {
            Some(r) => r,
            None => {
                proof {
                    assert(false);
                }
                Err(Vec::new())
            },
        }
    }

    /// `{ e1; ...; en; }`: the type of the last expression.
    fn type_check_expr_block(
        &self,
        class_id: usize,
        e: &Expr,
        obj_env: &mut SymbolTable<usize, ObjInfo>,
    ) -> (r: Result<ExprNode, Halt>)
        requires
            self.inv(),
            e.kind is Block,
        ensures
            final(obj_env)@ == old(obj_env)@,
            check_result(self.ctx(class_id), old(obj_env)@, *e, r),
        decreases e, 1int,
    {
        let exprs = match &e.kind {
            ExprKind::Block(exprs) => exprs,
            _ => {
                proof {
                    assert(false);
                }
                return Err(Halt::Failed(SemanticError { kind: SemanticErrorKind::InvalidBlockConstruct, span: None }));
            },
        };
        let typed_expr = self.type_check_list(class_id, e, exprs, obj_env)?;
        if typed_expr.len() == 0 {
            return Err(Halt::Failed(SemanticError { kind: SemanticErrorKind::InvalidBlockConstruct, span: None }));
        }
        let rt = typed_expr[typed_expr.len() - 1].ty;
        Ok(ExprNode::new(ast::ExprKind::Block(typed_expr), rt))
    }

}

/// Extending the annotated prefix of a list by one node.
pub proof fn lemma_list_annotated_push(
    ctx: Ctx,
    env: Seq<Map<usize, ObjInfo>>,
    s: Seq<Expr>,
    ns: Seq<ExprNode>,
    n: ExprNode,
    i: int,
)
    requires
        0 <= i < s.len(),
        ns.len() == i,
        list_annotated(ctx, env, s, ns, i),
        annotated(ctx, env, s[i], n),
    ensures
        list_annotated(ctx, env, s, ns.push(n), i + 1),
{
    lemma_list_annotated_prefix(ctx, env, s, ns, ns.push(n), i);
}

/// Whether a prefix is annotated depends only on that prefix of nodes.
pub proof fn lemma_list_annotated_prefix(
    ctx: Ctx,
    env: Seq<Map<usize, ObjInfo>>,
    s: Seq<Expr>,
    ns1: Seq<ExprNode>,
    ns2: Seq<ExprNode>,
    k: int,
)
    requires
        0 <= k <= ns1.len(),
        k <= ns2.len(),
        forall|j: int| 0 <= j < k ==> ns1[j] == ns2[j],
    ensures
        list_annotated(ctx, env, s, ns1, k) == list_annotated(ctx, env, s, ns2, k),
    decreases k,
{
    if k > 0 {
        lemma_list_annotated_prefix(ctx, env, s, ns1, ns2, k - 1);
    }
}

/// Whether `v` holds `x`.
fn vec_contains(v: &Vec<usize>, x: usize) -> (r: bool)
    ensures
        r == v@.contains(x),
{
    let mut i: usize = 0;
    while i < v.len()
        invariant
            i <= v@.len(),
            forall|k: int| 0 <= k < i ==> v@[k] != x,
        decreases v@.len() - i,
    {
        if v[i] == x {
            return true;
        }
        i = i + 1;
    }
    false
}

/// Whether a prefix of branches is annotated depends only on that prefix.
pub proof fn lemma_branches_annotated_prefix(
    ctx: Ctx,
    env: Seq<Map<usize, ObjInfo>>,
    bs: Seq<parse_tree::CaseBranch>,
    ns1: Seq<ast::CaseBranchNode>,
    ns2: Seq<ast::CaseBranchNode>,
    k: int,
)
    requires
        0 <= k <= ns1.len(),
        k <= ns2.len(),
        forall|j: int| 0 <= j < k ==> ns1[j] == ns2[j],
    ensures
        branches_annotated(ctx, env, bs, ns1, k) == branches_annotated(ctx, env, bs, ns2, k),
    decreases k,
{
    if k > 0 {
        lemma_branches_annotated_prefix(ctx, env, bs, ns1, ns2, k - 1);
    }
}

/// The features of the last valid class of `program` named `id`.
fn find_class_features(program: &parse_tree::Program, id: usize) -> (r: Option<&Vec<parse_tree::Feature>>)
    ensures
        match r {
            Some(fs) => class_features(program.classes@, id) == Some(fs@),
            None => class_features(program.classes@, id) is None,
        },
{
    let mut i = program.classes.len();
    proof {
        assert(program.classes@.take(i as int) =~= program.classes@);
    }
    while i > 0
        invariant
            i <= program.classes@.len(),
            class_features(program.classes@, id) == class_features(program.classes@.take(i as int), id),
        decreases i,
    {
        proof {
            assert(program.classes@.take(i as int).drop_last() =~= program.classes@.take(i - 1));
            assert(program.classes@.take(i as int).last() == program.classes@[i - 1]);
        }
        match &program.classes[i - 1] {
            parse_tree::Class::Valid { name, features, .. } => {
                if *name == id {
                    return Some(features);
                }
            },
            parse_tree::Class::Invalid => {},
        }
        i = i - 1;
    }
    None
}

proof fn lemma_features_stuck_step(ctx: Ctx, env: Seq<Map<usize, ObjInfo>>, fs: Seq<parse_tree::Feature>, i: int)
    requires
        0 <= i < fs.len(),
        !features_stuck(ctx, env, fs, i),
        !(feature_outcome(ctx, env, fs[i]) is Stuck),
    ensures
        !features_stuck(ctx, env, fs, i + 1),
{
    if features_stuck(ctx, env, fs, i + 1) {
        let k = choose|k: int| 0 <= k < i + 1 && #[trigger] feature_outcome(ctx, env, fs[k]) is Stuck;
        if k < i {
            assert(features_stuck(ctx, env, fs, i));
        }
    }
}

} // verus!

pub mod typing;
