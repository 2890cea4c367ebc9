//! Type checking: expression types, conditions, loops and returns.
use vstd::prelude::*;
use crate::ast::{Block, ClassDef, ClassInfo, Expr, ExprKind, MethodDef, Program, Stmt, VarDef};
use crate::diag::{report, DiagKind, Diagnostic};
use crate::ast::same_method;
use crate::locals::local_decl;
use crate::scope::{declare_all, stack_get, Scope, ScopeStack, SymKind, Symbol};
use crate::types::{accepts, is_arith, is_equality, is_relational, require_type, BinaryOp, Loc, SemanticType, UnaryOp};

verus! {

broadcast use {vstd::std_specs::vec::axiom_vec_decreases_to_view, vstd::seq::axiom_seq_index_decreases};

/// The type of a unary expression whose operand has type `t`.
pub open spec fn unary_result(op: UnaryOp, t: SemanticType) -> SemanticType {
    match op {
        UnaryOp::Neg => if accepts(t, SemanticType::Int) { SemanticType::Int } else { SemanticType::Error },
        UnaryOp::Not => SemanticType::Bool,
    }
}

/// The operand type is one that the unary operator takes.
pub open spec fn unary_ok(op: UnaryOp, t: SemanticType) -> bool {
    match op {
        UnaryOp::Neg => accepts(t, SemanticType::Int),
        UnaryOp::Not => accepts(t, SemanticType::Bool),
    }
}

/// The type of a binary expression with operand types `l` and `r`. With an
/// `Error` operand: arithmetic gives the left type, modulo `Int`, the others
/// `Bool`. Otherwise arithmetic gives `Int` and the others `Bool`, whether or
/// not the operands fit.
pub open spec fn binary_result(op: BinaryOp, l: SemanticType, r: SemanticType) -> SemanticType {
    if l == SemanticType::Error || r == SemanticType::Error {
        if op == BinaryOp::Mod {
            SemanticType::Int
        } else if is_arith(op) {
            l
        } else {
            SemanticType::Bool
        }
    } else if is_arith(op) {
        SemanticType::Int
    } else {
        SemanticType::Bool
    }
}

/// The operand types fit the binary operator; an `Error` operand fits
/// anything, its error having been reported already.
pub open spec fn binary_ok(op: BinaryOp, l: SemanticType, r: SemanticType) -> bool {
    if l == SemanticType::Error || r == SemanticType::Error {
        true
    } else if is_arith(op) || is_relational(op) {
        l == SemanticType::Int && r == SemanticType::Int
    } else if is_equality(op) {
        l == r
    } else {
        l == SemanticType::Bool && r == SemanticType::Bool
    }
}

/// The type that a name has in the scopes `env`, if it names a variable or field.
pub open spec fn var_type(env: Seq<Seq<(u64, Symbol)>>, name: u64) -> Option<SemanticType> {
    match stack_get(env, name) {
        Some(sym) => match sym.kind {
            SymKind::Var(t) => Some(t),
            SymKind::Field(t) => Some(t),
            _ => None,
        },
        None => None,
    }
}

/// The type of `e` in the scopes `env`.
pub open spec fn expr_type(e: Expr, env: Seq<Seq<(u64, Symbol)>>) -> SemanticType
    decreases e,
{
    match e.kind {
        ExprKind::IntLit(_) => SemanticType::Int,
        ExprKind::BoolLit(_) => SemanticType::Bool,
        ExprKind::StrLit => SemanticType::Str,
        ExprKind::ReadInt => SemanticType::Int,
        ExprKind::ReadLine => SemanticType::Str,
        ExprKind::Ident(n) => match var_type(env, n) {
            Some(t) => t,
            None => SemanticType::Error,
        },
        ExprKind::Unary(op, o) => unary_result(op, expr_type(*o, env)),
        ExprKind::Binary(op, l, r) => binary_result(op, expr_type(*l, env), expr_type(*r, env)),
    }
}

/// The diagnostics of checking `e` in the scopes `env`, operands first.
pub open spec fn expr_diags(e: Expr, env: Seq<Seq<(u64, Symbol)>>) -> Seq<Diagnostic>
    decreases e,
{
    match e.kind {
        ExprKind::Ident(n) => match var_type(env, n) {
            Some(_) => seq![],
            None => seq![Diagnostic { loc: e.loc, kind: DiagKind::UndeclaredVariable { name: n } }],
        },
        ExprKind::Unary(op, o) => {
            let t = expr_type(*o, env);
            expr_diags(*o, env) + if unary_ok(op, t) {
                Seq::<Diagnostic>::empty()
            } else {
                seq![Diagnostic { loc: e.loc, kind: DiagKind::IncompatibleUnary { unary_op: op, operand: t } }]
            }
        },
        ExprKind::Binary(op, l, r) => {
            let lt = expr_type(*l, env);
            let rt = expr_type(*r, env);
            expr_diags(*l, env) + expr_diags(*r, env) + if binary_ok(op, lt, rt) {
                Seq::<Diagnostic>::empty()
            } else {
                seq![Diagnostic { loc: e.loc, kind: DiagKind::IncompatibleBinary { left: lt, binary_op: op, right: rt } }]
            }
        },
        _ => seq![],
    }
}

/// `a` is `e` with every node annotated with its type in `env`.
pub open spec fn annotated(a: Expr, e: Expr, env: Seq<Seq<(u64, Symbol)>>) -> bool
    decreases e,
{
    &&& a.loc == e.loc
    &&& a.ty == expr_type(e, env)
    &&& match (a.kind, e.kind) {
        (ExprKind::IntLit(x), ExprKind::IntLit(y)) => x == y,
        (ExprKind::BoolLit(x), ExprKind::BoolLit(y)) => x == y,
        (ExprKind::StrLit, ExprKind::StrLit) => true,
        (ExprKind::ReadInt, ExprKind::ReadInt) => true,
        (ExprKind::ReadLine, ExprKind::ReadLine) => true,
        (ExprKind::Ident(x), ExprKind::Ident(y)) => x == y,
        (ExprKind::Unary(p, ao), ExprKind::Unary(q, eo)) => p == q && annotated(*ao, *eo, env),
        (ExprKind::Binary(p, al, ar), ExprKind::Binary(q, el, er)) => p == q && annotated(*al, *el, env)
            && annotated(*ar, *er, env),
        _ => false,
    }
}

/// An operand that already has type `Error` raises no new diagnostic, and
/// the result type still follows the operator: arithmetic gives the left
/// operand's type, modulo `Int`, comparisons, equality and logic `Bool`.
pub proof fn lemma_error_operand(op: BinaryOp, l: SemanticType, r: SemanticType)
    requires
        l == SemanticType::Error || r == SemanticType::Error,
    ensures
        binary_ok(op, l, r),
        op == BinaryOp::Mod ==> binary_result(op, l, r) == SemanticType::Int,
        is_arith(op) && op != BinaryOp::Mod ==> binary_result(op, l, r) == l,
        !is_arith(op) ==> binary_result(op, l, r) == SemanticType::Bool,
{
}

/// An operand of type `Error` fits every unary operator.
pub proof fn lemma_error_operand_unary(op: UnaryOp)
    ensures
        unary_ok(op, SemanticType::Error),
        unary_result(op, SemanticType::Error) == match op {
            UnaryOp::Neg => SemanticType::Int,
            UnaryOp::Not => SemanticType::Bool,
        },
{
}

/// The diagnostics of checking the condition `e` in `env`: those of the
/// expression, then one if its type is neither `Bool` nor `Error`.
pub open spec fn cond_diags(e: Expr, env: Seq<Seq<(u64, Symbol)>>) -> Seq<Diagnostic> {
    expr_diags(e, env) + if accepts(expr_type(e, env), SemanticType::Bool) {
        Seq::<Diagnostic>::empty()
    } else {
        seq![Diagnostic { loc: e.loc, kind: DiagKind::TestNotBool }]
    }
}

/// A loop that encloses the statement being checked.
#[derive(Clone, Copy, Debug, PartialEq, Eq, Structural)]
pub enum Loop {
    While(Loc),
    For(Loc),
    Foreach(Loc),
}

/// The type checker's state: the diagnostics so far, the open scopes, the
/// enclosing loops and the method being checked (class and method index,
/// with its return type).
pub struct TypeChecker {
    pub errors: Vec<Diagnostic>,
    pub scopes: ScopeStack,
    pub loops: Vec<Loop>,
    pub current_method: Option<(usize, usize, SemanticType)>,
}

impl TypeChecker {
    /// A checker with no diagnostics, no open scope and no enclosing loop.
    pub fn new() -> (r: TypeChecker)
        ensures
            r.errors@.len() == 0,
            r.scopes.frames().len() == 0,
            r.scopes.wf(),
            r.loops@.len() == 0,
            r.current_method.is_none(),
    {
        TypeChecker { errors: Vec::new(), scopes: ScopeStack::new(), loops: Vec::new(), current_method: None }
    }

    /// The type of a unary expression at `loc` whose operand has type `opr`,
    /// reporting an operand that does not fit.
    pub fn visit_unary(&mut self, op: UnaryOp, opr: SemanticType, loc: Loc) -> (r: SemanticType)
        ensures
            r == unary_result(op, opr),
            final(self).errors@ == old(self).errors@ + if unary_ok(op, opr) {
                Seq::<Diagnostic>::empty()
            } else {
                seq![Diagnostic { loc, kind: DiagKind::IncompatibleUnary { unary_op: op, operand: opr } }]
            },
            final(self).scopes == old(self).scopes,
            final(self).loops == old(self).loops,
            final(self).current_method == old(self).current_method,
    {
        match op {
            UnaryOp::Neg => {
                if require_type(&opr, &SemanticType::Int) {
                    assert(self.errors@ =~= old(self).errors@ + Seq::<Diagnostic>::empty());
                    SemanticType::Int
                } else {
                    report(&mut self.errors, loc, DiagKind::IncompatibleUnary { unary_op: op, operand: opr });
                    SemanticType::Error
                }
            },
            UnaryOp::Not => {
                if !require_type(&opr, &SemanticType::Bool) {
                    report(&mut self.errors, loc, DiagKind::IncompatibleUnary { unary_op: op, operand: opr });
                } else {
                    assert(self.errors@ =~= old(self).errors@ + Seq::<Diagnostic>::empty());
                }
                SemanticType::Bool
            },
        }
    }

    /// The type of a binary expression at `loc` with operand types `left` and
    /// `right`, reporting operands that do not fit unless one is `Error`.
    pub fn visit_binary(&mut self, op: BinaryOp, left: SemanticType, right: SemanticType, loc: Loc) -> (r: SemanticType)
        ensures
            r == binary_result(op, left, right),
            final(self).errors@ == old(self).errors@ + if binary_ok(op, left, right) {
                Seq::<Diagnostic>::empty()
            } else {
                seq![Diagnostic { loc, kind: DiagKind::IncompatibleBinary { left, binary_op: op, right } }]
            },
            final(self).scopes == old(self).scopes,
            final(self).loops == old(self).loops,
            final(self).current_method == old(self).current_method,
    {
        if left == SemanticType::Error || right == SemanticType::Error {
            assert(self.errors@ =~= old(self).errors@ + Seq::<Diagnostic>::empty());
            return match op {
                BinaryOp::Add | BinaryOp::Sub | BinaryOp::Mul | BinaryOp::Div => left,
                BinaryOp::Mod => SemanticType::Int,
                _ => SemanticType::Bool,
            };
        }
        let (ty, ok) = match op {
            BinaryOp::Add | BinaryOp::Sub | BinaryOp::Mul | BinaryOp::Div | BinaryOp::Mod => (
                SemanticType::Int,
                left == SemanticType::Int && right == SemanticType::Int,
            ),
            BinaryOp::Lt | BinaryOp::Le | BinaryOp::Gt | BinaryOp::Ge => (
                SemanticType::Bool,
                left == SemanticType::Int && right == SemanticType::Int,
            ),
            BinaryOp::Eq | BinaryOp::Ne => (SemanticType::Bool, left == right),
            BinaryOp::And | BinaryOp::Or => (
                SemanticType::Bool,
                left == SemanticType::Bool && right == SemanticType::Bool,
            ),
        };
        if !ok {
            report(&mut self.errors, loc, DiagKind::IncompatibleBinary { left, binary_op: op, right });
        } else {
            assert(self.errors@ =~= old(self).errors@ + Seq::<Diagnostic>::empty());
        }
        ty
    }
}

impl TypeChecker {
    /// `e` annotated with its types in the open scopes.
    fn check_owned(&mut self, e: Expr) -> (r: Expr)
        requires
            old(self).scopes.wf(),
        ensures
            annotated(r, e, old(self).scopes.frames()),
            final(self).errors@ == old(self).errors@ + expr_diags(e, old(self).scopes.frames()),
            final(self).scopes == old(self).scopes,
            final(self).loops == old(self).loops,
            final(self).current_method == old(self).current_method,
        decreases e,
    {
        let ghost env = self.scopes.frames();
        let loc = e.loc;
        match e.kind {
            ExprKind::IntLit(x) => Expr { loc, kind: ExprKind::IntLit(x), ty: SemanticType::Int },
            ExprKind::BoolLit(x) => Expr { loc, kind: ExprKind::BoolLit(x), ty: SemanticType::Bool },
            ExprKind::StrLit => Expr { loc, kind: ExprKind::StrLit, ty: SemanticType::Str },
            ExprKind::ReadInt => Expr { loc, kind: ExprKind::ReadInt, ty: SemanticType::Int },
            ExprKind::ReadLine => Expr { loc, kind: ExprKind::ReadLine, ty: SemanticType::Str },
            ExprKind::Ident(n) => {
                let ty = match self.scopes.lookup(n) {
                    Some(sym) => match sym.kind {
                        SymKind::Var(t) => Some(t),
                        SymKind::Field(t) => Some(t),
                        _ => None,
                    },
                    None => None,
                };
                let ty = match ty {
                    Some(t) => {
                        assert(self.errors@ =~= old(self).errors@ + expr_diags(e, env));
                        t
                    },
                    None => {
                        report(&mut self.errors, loc, DiagKind::UndeclaredVariable { name: n });
                        SemanticType::Error
                    },
                };
                Expr { loc, kind: ExprKind::Ident(n), ty }
            },
            ExprKind::Unary(op, o) => {
                let o2 = self.check_owned(*o);
                let ty = self.visit_unary(op, o2.ty, loc);
                assert(self.errors@ =~= old(self).errors@ + expr_diags(e, env));
                Expr { loc, kind: ExprKind::Unary(op, Box::new(o2)), ty }
            },
            ExprKind::Binary(op, l, r) => {
                let l2 = self.check_owned(*l);
                let r2 = self.check_owned(*r);
                let ty = self.visit_binary(op, l2.ty, r2.ty, loc);
                assert(self.errors@ =~= old(self).errors@ + expr_diags(e, env));
                Expr { loc, kind: ExprKind::Binary(op, Box::new(l2), Box::new(r2)), ty }
            },
        }
    }

    /// Annotates `expr` and every subexpression with its type in the open
    /// scopes, reporting each ill-typed node once.
    pub fn visit_expr(&mut self, expr: &mut Expr)
        requires
            old(self).scopes.wf(),
        ensures
            annotated(*final(expr), *old(expr), old(self).scopes.frames()),
            final(self).errors@ == old(self).errors@ + expr_diags(*old(expr), old(self).scopes.frames()),
            final(self).scopes == old(self).scopes,
            final(self).loops == old(self).loops,
            final(self).current_method == old(self).current_method,
    {
        let mut taken = Expr { loc: expr.loc, kind: ExprKind::StrLit, ty: SemanticType::Error };
        std::mem::swap(expr, &mut taken);
        *expr = self.check_owned(taken);
    }

    /// Checks a condition: annotates `expr` and reports it unless its type is
    /// `Bool` or `Error`.
    pub fn check_bool(&mut self, expr: &mut Expr)
        requires
            old(self).scopes.wf(),
        ensures
            annotated(*final(expr), *old(expr), old(self).scopes.frames()),
            final(self).errors@ == old(self).errors@ + cond_diags(*old(expr), old(self).scopes.frames()),
            final(self).scopes == old(self).scopes,
            final(self).loops == old(self).loops,
            final(self).current_method == old(self).current_method,
    {
        let ghost d1 = self.errors@;
        self.visit_expr(expr);
        let ghost d2 = self.errors@;
        if !require_type(&expr.ty, &SemanticType::Bool) {
            report(&mut self.errors, expr.loc, DiagKind::TestNotBool);
        } else {
            assert(self.errors@ =~= d2 + Seq::<Diagnostic>::empty());
        }
        assert(self.errors@ =~= old(self).errors@ + cond_diags(*old(expr), old(self).scopes.frames()));
    }
}

/// The return type expected by a `return` in the method `current`.
pub open spec fn expected_return(current: Option<(usize, usize, SemanticType)>) -> SemanticType {
    match current {
        Some(m) => m.2,
        None => SemanticType::Void,
    }
}

pub type Env = Seq<Seq<(u64, Symbol)>>;

/// The bindings that a block opens: its scope, the first binding of each name.
pub open spec fn block_frame(b: Block) -> Seq<(u64, Symbol)> {
    declare_all(Seq::empty(), b.scope.entries@)
}

pub open spec fn return_diags(loc: Loc, actual: SemanticType, ret: SemanticType) -> Seq<Diagnostic> {
    if accepts(actual, ret) {
        seq![]
    } else {
        seq![Diagnostic { loc, kind: DiagKind::BadReturnType { expected: ret, actual } }]
    }
}

/// Checking statement `s` in the scopes `env`, inside a loop or not, in a
/// method returning `ret`: the diagnostics raised, and the scopes after it,
/// which are those before it. A block is checked in the scope that
/// resolution built for it; a local declaration raises nothing here.
pub open spec fn stmt_eff(s: Stmt, env: Env, in_loop: bool, ret: SemanticType) -> (Seq<Diagnostic>, Env)
    decreases s, 0nat,
{
    match s {
        Stmt::Expr(e) => (expr_diags(e, env), env),
        Stmt::LocalVar(_) => (seq![], env),
        Stmt::Block(b) => {
            let r = block_eff(b.stmts@, b.stmts@.len() as int, env.push(block_frame(b)), in_loop, ret);
            (r.0, env)
        },
        Stmt::While(c, body) => (cond_diags(c, env) + stmt_eff(*body, env, true, ret).0, env),
        Stmt::For(init, c, update, body) => (
            stmt_eff(*init, env, in_loop, ret).0 + cond_diags(c, env) + stmt_eff(*update, env, in_loop, ret).0
                + stmt_eff(*body, env, true, ret).0,
            env,
        ),
        Stmt::Foreach(v, e, body) => (expr_diags(e, env) + stmt_eff(*body, env.push(seq![local_decl(v)]), true, ret).0, env),
        Stmt::If(c, t, e) => {
            let d_else = match e {
                Some(b) => stmt_eff(*b, env, in_loop, ret).0,
                None => seq![],
            };
            (cond_diags(c, env) + stmt_eff(*t, env, in_loop, ret).0 + d_else, env)
        },
        Stmt::Break(loc) => (
            if in_loop { seq![] } else { seq![Diagnostic { loc, kind: DiagKind::BreakOutOfLoop }] },
            env,
        ),
        Stmt::Return(loc, v) => match v {
            Some(e) => (expr_diags(e, env) + return_diags(loc, expr_type(e, env), ret), env),
            None => (return_diags(loc, SemanticType::Void, ret), env),
        },
    }
}

/// Checking the first `n` statements of `ss` in order, in the scopes `env`.
pub open spec fn block_eff(ss: Seq<Stmt>, n: int, env: Env, in_loop: bool, ret: SemanticType) -> (Seq<Diagnostic>, Env)
    decreases ss, n,
{
    if n <= 0 || n > ss.len() {
        (seq![], env)
    } else {
        (block_eff(ss, n - 1, env, in_loop, ret).0 + stmt_eff(ss[n - 1], env, in_loop, ret).0, env)
    }
}

/// `a` is `s` with every expression annotated with its type in the scopes
/// where it stands, and nothing else changed.
pub open spec fn stmt_ann(a: Stmt, s: Stmt, env: Env, in_loop: bool, ret: SemanticType) -> bool
    decreases s, 0nat,
{
    match s {
        Stmt::Expr(e) => a is Expr && annotated(a->Expr_0, e, env),
        Stmt::LocalVar(v) => a == Stmt::LocalVar(v),
        Stmt::Block(b) => {
            let n = b.stmts@.len() as int;
            &&& a is Block
            &&& a->Block_0.scope == b.scope
            &&& a->Block_0.stmts@.len() == n
            &&& block_ann(a->Block_0.stmts@, b.stmts@, n, env.push(block_frame(b)), in_loop, ret)
        },
        Stmt::While(c, body) => a is While && annotated(a->While_0, c, env) && stmt_ann(*a->While_1, *body, env, true, ret),
        Stmt::For(init, c, update, body) => a is For && stmt_ann(*a->For_0, *init, env, in_loop, ret) && annotated(
            a->For_1,
            c,
            env,
        ) && stmt_ann(*a->For_2, *update, env, in_loop, ret) && stmt_ann(*a->For_3, *body, env, true, ret),
        Stmt::Foreach(v, e, body) => a is Foreach && a->Foreach_0 == v && annotated(a->Foreach_1, e, env) && stmt_ann(
            *a->Foreach_2,
            *body,
            env.push(seq![local_decl(v)]),
            true,
            ret,
        ),
        Stmt::If(c, t, e) => a is If && annotated(a->If_0, c, env) && stmt_ann(*a->If_1, *t, env, in_loop, ret)
            && match (a->If_2, e) {
            (None, None) => true,
            (Some(x), Some(y)) => stmt_ann(*x, *y, env, in_loop, ret),
            _ => false,
        },
        Stmt::Break(loc) => a == Stmt::Break(loc),
        Stmt::Return(loc, v) => a is Return && a->Return_0 == loc && match (a->Return_1, v) {
            (None, None) => true,
            (Some(x), Some(y)) => annotated(x, y, env),
            _ => false,
        },
    }
}

/// The first `n` statements of `as_` annotate those of `ss` in the scopes `env`.
pub open spec fn block_ann(as_: Seq<Stmt>, ss: Seq<Stmt>, n: int, env: Env, in_loop: bool, ret: SemanticType) -> bool
    decreases ss, n,
{
    if n <= 0 || n > ss.len() {
        true
    } else {
        block_ann(as_, ss, n - 1, env, in_loop, ret) && stmt_ann(
            as_[n - 1],
            ss[n - 1],
            env,
            in_loop,
            ret,
        )
    }
}

proof fn lemma_block_ann_frame(a1: Seq<Stmt>, a2: Seq<Stmt>, ss: Seq<Stmt>, n: int, env: Env, in_loop: bool, ret: SemanticType)
    requires
        block_ann(a1, ss, n, env, in_loop, ret),
        forall|k: int| 0 <= k < n ==> a1[k] == a2[k],
    ensures
        block_ann(a2, ss, n, env, in_loop, ret),
    decreases n,
{
    if n > 0 && n <= ss.len() {
        lemma_block_ann_frame(a1, a2, ss, n - 1, env, in_loop, ret);
    }
}

/// The checker's loops, method and scopes outside the innermost one are as they were.
pub open spec fn same_context(a: TypeChecker, b: TypeChecker) -> bool {
    &&& b.scopes.wf()
    &&& b.scopes.frames().len() == a.scopes.frames().len()
    &&& b.scopes.frames().drop_last() == a.scopes.frames().drop_last()
    &&& b.loops@ == a.loops@
    &&& b.current_method == a.current_method
}

impl TypeChecker {
    /// Checks one statement: its diagnostics and the scopes after it are
    /// those of `stmt_eff`, and the result annotates it.
    #[verifier::rlimit(80)]
    fn check_stmt(&mut self, s: Stmt) -> (r: Stmt)
        requires
            old(self).scopes.wf(),
            old(self).scopes.frames().len() > 0,
        ensures
            same_context(*old(self), *final(self)),
            final(self).errors@ == old(self).errors@ + stmt_eff(
                s,
                old(self).scopes.frames(),
                old(self).loops@.len() > 0,
                expected_return(old(self).current_method),
            ).0,
            final(self).scopes.frames() == stmt_eff(
                s,
                old(self).scopes.frames(),
                old(self).loops@.len() > 0,
                expected_return(old(self).current_method),
            ).1,
            stmt_ann(r, s, old(self).scopes.frames(), old(self).loops@.len() > 0, expected_return(old(self).current_method)),
            final(self).scopes.frames() == old(self).scopes.frames(),
        decreases s,
    {
        let ghost env = self.scopes.frames();
        let ghost il = self.loops@.len() > 0;
        let ghost ret = expected_return(self.current_method);
        match s {
            Stmt::Expr(e) => {
                let mut e = e;
                self.visit_expr(&mut e);
                Stmt::Expr(e)
            },
            Stmt::LocalVar(v) => {
                assert(self.errors@ =~= old(self).errors@ + stmt_eff(s, env, il, ret).0);
                Stmt::LocalVar(v)
            },
            Stmt::Break(loc) => {
                if self.loops.len() == 0 {
                    report(&mut self.errors, loc, DiagKind::BreakOutOfLoop);
                } else {
                    assert(self.errors@ =~= old(self).errors@ + Seq::<Diagnostic>::empty());
                }
                Stmt::Break(loc)
            },
            Stmt::Return(loc, v) => {
                let expected = match self.current_method {
                    Some(m) => m.2,
                    None => SemanticType::Void,
                };
                let (v2, actual) = match v {
                    Some(e) => {
                        let mut e = e;
                        self.visit_expr(&mut e);
                        let t = e.ty;
                        (Some(e), t)
                    },
                    None => (None, SemanticType::Void),
                };
                let ghost d1 = self.errors@;
                if !require_type(&actual, &expected) {
                    report(&mut self.errors, loc, DiagKind::BadReturnType { expected, actual });
                } else {
                    assert(self.errors@ =~= d1 + Seq::<Diagnostic>::empty());
                }
                assert(self.errors@ =~= old(self).errors@ + stmt_eff(s, env, il, ret).0);
                Stmt::Return(loc, v2)
            },
            Stmt::While(cond, body) => {
                let mut cond = cond;
                self.check_bool(&mut cond);
                self.loops.push(Loop::While(cond.loc));
                let body2 = self.check_stmt(*body);
                self.loops.pop();
                assert(self.loops@ =~= old(self).loops@);
                assert(self.errors@ =~= old(self).errors@ + stmt_eff(s, env, il, ret).0);
                Stmt::While(cond, Box::new(body2))
            },
            Stmt::For(init, cond, update, body) => {
                let init2 = self.check_stmt(*init);
                let mut cond = cond;
                self.check_bool(&mut cond);
                let update2 = self.check_stmt(*update);
                self.loops.push(Loop::For(cond.loc));
                let body2 = self.check_stmt(*body);
                self.loops.pop();
                assert(self.loops@ =~= old(self).loops@);
                assert(self.errors@ =~= old(self).errors@ + stmt_eff(s, env, il, ret).0);
                Stmt::For(Box::new(init2), cond, Box::new(update2), Box::new(body2))
            },
            Stmt::Foreach(v, e, body) => {
                let mut e = e;
                self.visit_expr(&mut e);
                let mut entries: Vec<(u64, Symbol)> = Vec::new();
                entries.push((v.name, Symbol { kind: SymKind::Var(v.ty), loc: v.loc }));
                let frame = Scope { entries };
                assert(frame.entries@ =~= seq![local_decl(v)]);
                self.scopes.open(&frame);
                self.loops.push(Loop::Foreach(v.loc));
                let body2 = self.check_stmt(*body);
                self.loops.pop();
                assert(self.loops@ =~= old(self).loops@);
                assert(self.scopes.scopes@.len() == self.scopes.frames().len());
                let _ = self.scopes.close();
                assert(self.scopes.frames() =~= env);
                assert(self.errors@ =~= old(self).errors@ + stmt_eff(s, env, il, ret).0);
                Stmt::Foreach(v, e, Box::new(body2))
            },
            Stmt::If(cond, then_branch, else_branch) => {
                let mut cond = cond;
                self.check_bool(&mut cond);
                let t2 = self.check_stmt(*then_branch);
                let e2 = match else_branch {
                    Some(b) => {
                        let x = self.check_stmt(*b);
                        Some(Box::new(x))
                    },
                    None => None,
                };
                assert(self.errors@ =~= old(self).errors@ + stmt_eff(s, env, il, ret).0);
                Stmt::If(cond, Box::new(t2), e2)
            },
            Stmt::Block(b) => {
                let ghost d0 = self.errors@;
                let ghost stmts0 = b.stmts;
                let ghost inner = env.push(block_frame(b));
                let mut b = b;
                let frame = b.scope.normalized();
                self.scopes.open(&frame);
                assert(self.scopes.frames() =~= inner);
                assert(self.scopes.scopes@.len() == self.scopes.frames().len());
                let mut i: usize = 0;
                let n = b.stmts.len();
                assert(self.errors@ =~= d0 + block_eff(stmts0@, 0, inner, il, ret).0);
                while i < n
                    invariant
                        n == b.stmts@.len(),
                        n == stmts0@.len(),
                        i <= n,
                        s == Stmt::Block(Block { stmts: stmts0, scope: s->Block_0.scope }),
                        b.scope == s->Block_0.scope,
                        forall|j: int| i <= j < n ==> b.stmts@[j] == stmts0@[j],
                        block_ann(b.stmts@, stmts0@, i as int, inner, il, ret),
                        self.scopes.wf(),
                        self.scopes.frames() == inner,
                        inner.len() == env.len() + 1,
                        self.scopes.scopes@.len() == env.len() + 1,
                        self.errors@ == d0 + block_eff(stmts0@, i as int, inner, il, ret).0,
                        self.loops@ == old(self).loops@,
                        il == (self.loops@.len() > 0),
                        self.current_method == old(self).current_method,
                        ret == expected_return(self.current_method),
                    decreases n - i,
                {
                    let ghost before = b.stmts@;
                    let mut x = Stmt::Break(Loc { line: 0, col: 0 });
                    std::mem::swap(&mut b.stmts[i], &mut x);
                    proof {
                        assert(x == stmts0@[i as int]);
                        assert(decreases_to!(s => s->Block_0));
                        assert(decreases_to!(s->Block_0 => s->Block_0.stmts));
                        assert(s->Block_0.stmts == stmts0);
                        assert(decreases_to!(stmts0 => stmts0[i as int])) by {
                            broadcast use vstd::std_specs::vec::axiom_vec_index_decreases;
                        }
                    }
                    let y = self.check_stmt(x);
                    b.stmts.set(i, y);
                    proof {
                        lemma_block_ann_frame(before, b.stmts@, stmts0@, i as int, inner, il, ret);
                    }
                    i = i + 1;
                    assert(self.errors@ =~= d0 + block_eff(stmts0@, i as int, inner, il, ret).0);
                }
                let _ = self.scopes.close();
                assert(self.scopes.frames() =~= env);
                Stmt::Block(b)
            },
        }
    }
}

/// The bindings of each parameter scope in `info`.
pub open spec fn param_views(info: ClassInfo) -> Seq<Seq<(u64, Symbol)>> {
    info.method_scopes@.map_values(|s: Scope| s.entries@)
}

/// The diagnostics of checking the body of `m`, whose parameters are bound
/// by `params`, in the scopes `env` and outside any loop.
pub open spec fn method_diags(m: MethodDef, params: Seq<(u64, Symbol)>, env: Env) -> Seq<Diagnostic> {
    stmt_eff(Stmt::Block(m.body), env.push(params), false, m.ret).0
}

/// `a` is the method `m` with its body annotated.
pub open spec fn method_ann(a: MethodDef, m: MethodDef, params: Seq<(u64, Symbol)>, env: Env) -> bool {
    same_method(m, a) && stmt_ann(Stmt::Block(a.body), Stmt::Block(m.body), env.push(params), false, m.ret)
}

/// The diagnostics of checking the first `k` methods of `cd`, whose members
/// are bound by `members` and parameters by `params`, in the scopes `env`.
pub open spec fn class_diags(cd: ClassDef, members: Seq<(u64, Symbol)>, params: Seq<Seq<(u64, Symbol)>>, env: Env, k: int) -> Seq<Diagnostic>
    decreases k,
{
    if k <= 0 {
        seq![]
    } else {
        class_diags(cd, members, params, env, k - 1) + method_diags(cd.methods@[k - 1], params[k - 1], env.push(members))
    }
}

/// `a` is the class `cd` with every method body annotated.
pub open spec fn class_ann(a: ClassDef, cd: ClassDef, members: Seq<(u64, Symbol)>, params: Seq<Seq<(u64, Symbol)>>, env: Env) -> bool {
    &&& a.loc == cd.loc
    &&& a.name == cd.name
    &&& a.parent == cd.parent
    &&& a.sealed == cd.sealed
    &&& a.fields@ == cd.fields@
    &&& a.methods@.len() == cd.methods@.len()
    &&& forall|k: int| 0 <= k < cd.methods@.len() ==> method_ann(
        #[trigger] a.methods@[k],
        cd.methods@[k],
        params[k],
        env.push(members),
    )
}

/// The diagnostics of type checking the first `n` classes of `cs`, with the
/// member and parameter scopes stored in `infos`, in the scopes `env`.
pub open spec fn program_diags(cs: Seq<ClassDef>, infos: Seq<ClassInfo>, env: Env, n: int) -> Seq<Diagnostic>
    decreases n,
{
    if n <= 0 {
        seq![]
    } else {
        program_diags(cs, infos, env, n - 1) + class_diags(
            cs[n - 1],
            infos[n - 1].scope.entries@,
            param_views(infos[n - 1]),
            env,
            cs[n - 1].methods@.len() as int,
        )
    }
}

/// `infos` holds one set of well-formed scopes per class of `cs`, with one
/// parameter scope per method.
pub open spec fn checkable(cs: Seq<ClassDef>, infos: Seq<ClassInfo>) -> bool {
    &&& infos.len() == cs.len()
    &&& forall|c: int| 0 <= c < cs.len() ==> info_wf(#[trigger] infos[c]) && infos[c].method_scopes@.len()
        == cs[c].methods@.len()
}

/// The scopes that resolution stored in `info` are well formed.
pub open spec fn info_wf(info: ClassInfo) -> bool {
    &&& info.scope.wf()
    &&& forall|k: int| 0 <= k < info.method_scopes@.len() ==> (#[trigger] info.method_scopes@[k]).wf()
}

impl TypeChecker {
    /// Checks a block in a scope of its own, which it then keeps.
    pub fn visit_block(&mut self, block: &mut Block)
        requires
            old(self).scopes.wf(),
            old(self).scopes.frames().len() > 0,
        ensures
            final(self).scopes.wf(),
            final(self).scopes.frames() == old(self).scopes.frames(),
            final(self).loops@ == old(self).loops@,
            final(self).current_method == old(self).current_method,
            final(self).errors@ == old(self).errors@ + stmt_eff(
                Stmt::Block(*old(block)),
                old(self).scopes.frames(),
                old(self).loops@.len() > 0,
                expected_return(old(self).current_method),
            ).0,
            stmt_ann(
                Stmt::Block(*final(block)),
                Stmt::Block(*old(block)),
                old(self).scopes.frames(),
                old(self).loops@.len() > 0,
                expected_return(old(self).current_method),
            ),
    {
        let mut taken = Block { stmts: Vec::new(), scope: Scope::new() };
        std::mem::swap(block, &mut taken);
        let checked = self.check_stmt(Stmt::Block(taken));
        if let Stmt::Block(b) = checked {
            *block = b;
        }
    }

    /// Checks the body of method `k` of class `c` in the scope of its
    /// parameters, outside any loop, with `return` checked against its return
    /// type.
    pub fn visit_method_def(&mut self, c: usize, k: usize, method_def: &mut MethodDef, params: &Scope)
        requires
            old(self).scopes.wf(),
            old(self).loops@.len() == 0,
            params.wf(),
        ensures
            final(self).scopes.wf(),
            final(self).scopes.frames() == old(self).scopes.frames(),
            final(self).loops@ == old(self).loops@,
            final(self).current_method == Some((c, k, old(method_def).ret)),
            final(self).errors@ == old(self).errors@ + method_diags(*old(method_def), params.entries@, old(self).scopes.frames()),
            method_ann(*final(method_def), *old(method_def), params.entries@, old(self).scopes.frames()),
    {
        self.current_method = Some((c, k, method_def.ret));
        self.scopes.open(params);
        let ghost inner = self.scopes.frames();
        self.visit_block(&mut method_def.body);
        assert(self.scopes.frames() == inner);
        assert(self.scopes.scopes@.len() == inner.len());
        let _ = self.scopes.close();
        assert(self.scopes.frames() =~= old(self).scopes.frames());
    }

    /// Checks every method of class `c` in the scope of its members.
    pub fn visit_class_def(&mut self, c: usize, class_def: &mut ClassDef, info: &ClassInfo)
        requires
            old(self).scopes.wf(),
            old(self).loops@.len() == 0,
            info_wf(*info),
            info.method_scopes@.len() == old(class_def).methods@.len(),
        ensures
            final(self).scopes.wf(),
            final(self).scopes.frames() == old(self).scopes.frames(),
            final(self).loops@ == old(self).loops@,
            final(self).errors@ == old(self).errors@ + class_diags(
                *old(class_def),
                info.scope.entries@,
                param_views(*info),
                old(self).scopes.frames(),
                old(class_def).methods@.len() as int,
            ),
            class_ann(*final(class_def), *old(class_def), info.scope.entries@, param_views(*info), old(self).scopes.frames()),
    {
        let ghost env = self.scopes.frames();
        let ghost cd0 = *class_def;
        self.scopes.open(&info.scope);
        let n = class_def.methods.len();
        let mut k: usize = 0;
        assert(self.errors@ =~= old(self).errors@ + class_diags(cd0, info.scope.entries@, param_views(*info), env, 0));
        while k < n
            invariant
                n == class_def.methods@.len(),
                n == cd0.methods@.len(),
                n == info.method_scopes@.len(),
                cd0 == *old(class_def),
                k <= n,
                info_wf(*info),
                self.scopes.wf(),
                self.scopes.frames() == env.push(info.scope.entries@),
                self.loops@.len() == 0,
                self.errors@ == old(self).errors@ + class_diags(cd0, info.scope.entries@, param_views(*info), env, k as int),
                class_def.loc == cd0.loc,
                class_def.name == cd0.name,
                class_def.parent == cd0.parent,
                class_def.sealed == cd0.sealed,
                class_def.fields@ == cd0.fields@,
                forall|j: int| k <= j < n ==> class_def.methods@[j] == cd0.methods@[j],
                forall|j: int| 0 <= j < k ==> method_ann(
                    #[trigger] class_def.methods@[j],
                    cd0.methods@[j],
                    param_views(*info)[j],
                    env.push(info.scope.entries@),
                ),
            decreases n - k,
        {
            assert(info.method_scopes@[k as int].wf());
            assert(param_views(*info)[k as int] == info.method_scopes@[k as int].entries@);
            self.visit_method_def(c, k, &mut class_def.methods[k], &info.method_scopes[k]);
            k = k + 1;
            assert(self.errors@ =~= old(self).errors@ + class_diags(cd0, info.scope.entries@, param_views(*info), env, k as int));
        }
        let _ = self.scopes.close();
        assert(self.scopes.frames() =~= old(self).scopes.frames());
    }

    /// Checks every class of a resolved program in the global scope.
    pub fn visit_program(&mut self, program: &mut Program)
        requires
            old(self).scopes.wf(),
            old(self).loops@.len() == 0,
            old(program).scope.wf(),
            checkable(old(program).classes@, old(program).info@),
        ensures
            final(self).scopes.wf(),
            final(self).scopes.frames() == old(self).scopes.frames(),
            final(self).loops@ == old(self).loops@,
            final(self).errors@ == old(self).errors@ + program_diags(
                old(program).classes@,
                old(program).info@,
                old(self).scopes.frames().push(old(program).scope.entries@),
                old(program).classes@.len() as int,
            ),
            final(program).classes@.len() == old(program).classes@.len(),
            forall|c: int| 0 <= c < old(program).classes@.len() ==> class_ann(
                #[trigger] final(program).classes@[c],
                old(program).classes@[c],
                old(program).info@[c].scope.entries@,
                param_views(old(program).info@[c]),
                old(self).scopes.frames().push(old(program).scope.entries@),
            ),
            final(program).info@ == old(program).info@,
            final(program).scope.entries@ == old(program).scope.entries@,
            final(program).main == old(program).main,
    {
        let ghost cs = program.classes@;
        let ghost infos = program.info@;
        let ghost genv = self.scopes.frames().push(program.scope.entries@);
        self.scopes.open(&program.scope);
        let n = program.classes.len();
        let mut c: usize = 0;
        assert(self.errors@ =~= old(self).errors@ + program_diags(cs, infos, genv, 0));
        while c < n
            invariant
                n == program.classes@.len(),
                n == cs.len(),
                cs == old(program).classes@,
                infos == old(program).info@,
                c <= n,
                program.info@ == infos,
                program.scope.entries@ == old(program).scope.entries@,
                program.main == old(program).main,
                checkable(cs, infos),
                self.scopes.wf(),
                self.scopes.frames() == genv,
                self.loops@.len() == 0,
                self.errors@ == old(self).errors@ + program_diags(cs, infos, genv, c as int),
                forall|j: int| c <= j < n ==> program.classes@[j] == cs[j],
                forall|j: int| 0 <= j < c ==> class_ann(
                    #[trigger] program.classes@[j],
                    cs[j],
                    infos[j].scope.entries@,
                    param_views(infos[j]),
                    genv,
                ),
            decreases n - c,
        {
            assert(info_wf(infos[c as int]));
            self.visit_class_def(c, &mut program.classes[c], &program.info[c]);
            c = c + 1;
            assert(self.errors@ =~= old(self).errors@ + program_diags(cs, infos, genv, c as int));
        }
        let _ = self.scopes.close();
        assert(self.scopes.frames() =~= old(self).scopes.frames());
    }
}

} // verus!
