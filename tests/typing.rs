use sema::ast::{Block, ClassDef, Expr, ExprKind, MethodDef, Program, Stmt, VarDef};
use sema::diag::{DiagKind, Diagnostic};
use sema::pipeline::compile;
use sema::scope::{Scope, ScopeStack, SymKind, Symbol};
use sema::type_checker::TypeChecker;
use sema::types::{require_type, BinaryOp, Loc, SemanticType, UnaryOp};

const MAIN: u64 = 100;
const START: u64 = 101;

fn loc(line: u32) -> Loc {
    Loc { line, col: 1 }
}

fn lit(kind: ExprKind, line: u32) -> Expr {
    Expr { loc: loc(line), kind, ty: SemanticType::Void }
}

fn int_lit(x: i32) -> Expr {
    lit(ExprKind::IntLit(x), 1)
}

fn boolean(b: bool) -> Expr {
    lit(ExprKind::BoolLit(b), 1)
}

fn unary(op: UnaryOp, e: Expr, line: u32) -> Expr {
    lit(ExprKind::Unary(op, Box::new(e)), line)
}

fn binary(op: BinaryOp, l: Expr, r: Expr, line: u32) -> Expr {
    lit(ExprKind::Binary(op, Box::new(l), Box::new(r)), line)
}

fn checker() -> TypeChecker {
    let mut t = TypeChecker::new();
    t.scopes.open(&Scope::new());
    t
}

fn check(e: Expr) -> (Expr, Vec<Diagnostic>) {
    let mut t = checker();
    let mut e = e;
    t.visit_expr(&mut e);
    (e, t.errors)
}

fn program(body: Vec<Stmt>, ret: SemanticType) -> Program {
    let start = MethodDef {
        loc: loc(1),
        name: START,
        params: Vec::new(),
        ret: SemanticType::Void,
        body: Block { stmts: Vec::new(), scope: Scope::new() },
    };
    let other = MethodDef {
        loc: loc(2),
        name: 7,
        params: vec![VarDef { loc: loc(2), name: 8, ty: SemanticType::Int }],
        ret,
        body: Block { stmts: body, scope: Scope::new() },
    };
    let c = ClassDef { loc: loc(1), name: MAIN, parent: None, sealed: false, fields: Vec::new(), methods: vec![start, other] };
    Program::new(vec![c])
}

#[test]
fn negate_bool_is_error() {
    let (e, diags) = check(unary(UnaryOp::Neg, boolean(true), 3));
    assert_eq!(e.ty, SemanticType::Error);
    assert_eq!(
        diags,
        vec![Diagnostic { loc: loc(3), kind: DiagKind::IncompatibleUnary { unary_op: UnaryOp::Neg, operand: SemanticType::Bool } }]
    );
}

#[test]
fn not_int_is_still_bool() {
    let (e, diags) = check(unary(UnaryOp::Not, int_lit(1), 3));
    assert_eq!(e.ty, SemanticType::Bool);
    assert_eq!(
        diags,
        vec![Diagnostic { loc: loc(3), kind: DiagKind::IncompatibleUnary { unary_op: UnaryOp::Not, operand: SemanticType::Int } }]
    );
}

#[test]
fn negate_int_is_int() {
    let (e, diags) = check(unary(UnaryOp::Neg, int_lit(4), 3));
    assert_eq!(e.ty, SemanticType::Int);
    assert!(diags.is_empty());
}

#[test]
fn int_plus_bool_is_int() {
    let (e, diags) = check(binary(BinaryOp::Add, int_lit(1), boolean(true), 4));
    assert_eq!(e.ty, SemanticType::Int);
    assert_eq!(
        diags,
        vec![Diagnostic {
            loc: loc(4),
            kind: DiagKind::IncompatibleBinary { left: SemanticType::Int, binary_op: BinaryOp::Add, right: SemanticType::Bool },
        }]
    );
}

#[test]
fn bool_plus_int_is_int() {
    let (e, diags) = check(binary(BinaryOp::Add, boolean(true), int_lit(1), 4));
    assert_eq!(e.ty, SemanticType::Int);
    assert_eq!(diags.len(), 1);
}

#[test]
fn and_of_bools() {
    let (e, diags) = check(binary(BinaryOp::And, boolean(true), boolean(false), 4));
    assert_eq!(e.ty, SemanticType::Bool);
    assert!(diags.is_empty());
}

#[test]
fn int_equals_bool_is_reported() {
    let (e, diags) = check(binary(BinaryOp::Eq, int_lit(1), boolean(true), 4));
    assert_eq!(e.ty, SemanticType::Bool);
    assert_eq!(
        diags,
        vec![Diagnostic {
            loc: loc(4),
            kind: DiagKind::IncompatibleBinary { left: SemanticType::Int, binary_op: BinaryOp::Eq, right: SemanticType::Bool },
        }]
    );
}

#[test]
fn relational_of_ints_is_bool() {
    let (e, diags) = check(binary(BinaryOp::Le, int_lit(1), int_lit(2), 4));
    assert_eq!(e.ty, SemanticType::Bool);
    assert!(diags.is_empty());
    let (e, diags) = check(binary(BinaryOp::Mul, int_lit(1), int_lit(2), 4));
    assert_eq!(e.ty, SemanticType::Int);
    assert!(diags.is_empty());
}

#[test]
fn error_operand_raises_nothing_new() {
    let bad = || unary(UnaryOp::Neg, boolean(true), 2);
    let (e, diags) = check(binary(BinaryOp::Add, bad(), int_lit(1), 4));
    assert_eq!(e.ty, SemanticType::Error);
    assert_eq!(diags.len(), 1);
    let (e, diags) = check(binary(BinaryOp::Sub, boolean(false), bad(), 4));
    assert_eq!(e.ty, SemanticType::Bool);
    assert_eq!(diags.len(), 1);
    let (e, diags) = check(binary(BinaryOp::Mod, bad(), int_lit(1), 4));
    assert_eq!(e.ty, SemanticType::Int);
    assert_eq!(diags.len(), 1);
    let (e, diags) = check(binary(BinaryOp::Lt, bad(), int_lit(1), 4));
    assert_eq!(e.ty, SemanticType::Bool);
    assert_eq!(diags.len(), 1);
    let (e, diags) = check(binary(BinaryOp::Or, int_lit(3), bad(), 4));
    assert_eq!(e.ty, SemanticType::Bool);
    assert_eq!(diags.len(), 1);
}

#[test]
fn subexpressions_are_annotated() {
    let (e, _) = check(binary(BinaryOp::Lt, lit(ExprKind::ReadInt, 1), int_lit(2), 4));
    match e.kind {
        ExprKind::Binary(_, l, r) => {
            assert_eq!(l.ty, SemanticType::Int);
            assert_eq!(r.ty, SemanticType::Int);
        }
        _ => panic!("shape changed"),
    }
    let (e, _) = check(lit(ExprKind::ReadLine, 1));
    assert_eq!(e.ty, SemanticType::Str);
}

#[test]
fn undeclared_name_is_error() {
    let (e, diags) = check(lit(ExprKind::Ident(5), 6));
    assert_eq!(e.ty, SemanticType::Error);
    assert_eq!(diags, vec![Diagnostic { loc: loc(6), kind: DiagKind::UndeclaredVariable { name: 5 } }]);
}

#[test]
fn condition_must_be_bool() {
    let mut t = checker();
    let mut e = int_lit(1);
    t.check_bool(&mut e);
    assert_eq!(t.errors, vec![Diagnostic { loc: loc(1), kind: DiagKind::TestNotBool }]);
    let mut t = checker();
    let mut e = boolean(true);
    t.check_bool(&mut e);
    assert!(t.errors.is_empty());
    let mut t = checker();
    let mut e = unary(UnaryOp::Neg, boolean(true), 2);
    t.check_bool(&mut e);
    assert_eq!(t.errors.len(), 1);
}

#[test]
fn require_type_accepts_error() {
    assert!(require_type(&SemanticType::Error, &SemanticType::Bool));
    assert!(require_type(&SemanticType::Int, &SemanticType::Int));
    assert!(!require_type(&SemanticType::Int, &SemanticType::Bool));
}

#[test]
fn inner_scope_shadows_outer() {
    let mut stack = ScopeStack::new();
    let mut diags = Vec::new();
    stack.open(&Scope::new());
    stack.declare(1, Symbol { kind: SymKind::Var(SemanticType::Int), loc: loc(1) }, &mut diags);
    stack.open(&Scope::new());
    stack.declare(1, Symbol { kind: SymKind::Var(SemanticType::Bool), loc: loc(2) }, &mut diags);
    assert!(diags.is_empty());
    assert_eq!(stack.lookup(1).map(|s| s.kind), Some(SymKind::Var(SemanticType::Bool)));
    let inner = stack.close();
    assert_eq!(inner.entries.len(), 1);
    assert_eq!(stack.lookup(1).map(|s| s.kind), Some(SymKind::Var(SemanticType::Int)));
    stack.declare(1, Symbol { kind: SymKind::Var(SemanticType::Str), loc: loc(3) }, &mut diags);
    assert_eq!(diags, vec![Diagnostic { loc: loc(3), kind: DiagKind::ConflictDeclaration { earlier: loc(1), name: 1 } }]);
    assert_eq!(stack.lookup(9), None);
}

#[test]
fn compile_accepts_well_typed_program() {
    let local = VarDef { loc: loc(3), name: 9, ty: SemanticType::Bool };
    let cond = binary(BinaryOp::Lt, lit(ExprKind::Ident(8), 4), int_lit(3), 4);
    let body = vec![
        Stmt::LocalVar(local),
        Stmt::While(cond, Box::new(Stmt::Block(Block { stmts: vec![Stmt::Break(loc(5))], scope: Scope::new() }))),
        Stmt::Expr(lit(ExprKind::Ident(9), 6)),
        Stmt::Return(loc(7), Some(lit(ExprKind::Ident(8), 7))),
    ];
    let p = compile(program(body, SemanticType::Int), MAIN, START).unwrap_or_else(|d| panic!("{:?}", d));
    match &p.classes[0].methods[1].body.stmts[3] {
        Stmt::Return(_, Some(e)) => assert_eq!(e.ty, SemanticType::Int),
        _ => panic!("shape changed"),
    }
    assert_eq!(p.classes[0].methods[1].body.scope.entries.len(), 1);
}

#[test]
fn compile_reports_statement_errors() {
    let body = vec![
        Stmt::Break(loc(3)),
        Stmt::While(int_lit(1), Box::new(Stmt::Break(loc(5)))),
        Stmt::Return(loc(6), Some(boolean(true))),
        Stmt::If(boolean(true), Box::new(Stmt::Return(loc(7), None)), None),
    ];
    let errors = compile(program(body, SemanticType::Int), MAIN, START).err().unwrap();
    assert_eq!(
        errors,
        vec![
            Diagnostic { loc: loc(3), kind: DiagKind::BreakOutOfLoop },
            Diagnostic { loc: loc(1), kind: DiagKind::TestNotBool },
            Diagnostic { loc: loc(6), kind: DiagKind::BadReturnType { expected: SemanticType::Int, actual: SemanticType::Bool } },
            Diagnostic { loc: loc(7), kind: DiagKind::BadReturnType { expected: SemanticType::Int, actual: SemanticType::Void } },
        ]
    );
}

#[test]
fn compile_stops_after_resolution_errors() {
    let body = vec![Stmt::Break(loc(3))];
    let errors = compile(program(body, SemanticType::Int), 55, START).err().unwrap();
    assert_eq!(errors, vec![Diagnostic { loc: Loc { line: 0, col: 0 }, kind: DiagKind::NoMainClass }]);
}

#[test]
fn loop_body_declaration_stays_in_the_body() {
    let local = VarDef { loc: loc(3), name: 9, ty: SemanticType::Int };
    let body = vec![
        Stmt::While(boolean(true), Box::new(Stmt::LocalVar(local))),
        Stmt::Expr(lit(ExprKind::Ident(9), 4)),
        Stmt::While(boolean(true), Box::new(Stmt::Break(loc(5)))),
    ];
    let errors = compile(program(body, SemanticType::Int), MAIN, START).err().unwrap();
    assert_eq!(errors, vec![Diagnostic { loc: loc(4), kind: DiagKind::UndeclaredVariable { name: 9 } }]);
}

#[test]
fn duplicate_locals_are_reported_by_resolution() {
    let a = VarDef { loc: loc(3), name: 9, ty: SemanticType::Int };
    let b = VarDef { loc: loc(4), name: 9, ty: SemanticType::Bool };
    let body = vec![Stmt::LocalVar(a), Stmt::LocalVar(b), Stmt::Return(loc(5), Some(lit(ExprKind::Ident(9), 5)))];
    let mut p = program(body, SemanticType::Int);
    let mut diags = Vec::new();
    sema::resolver::resolve(&mut p, MAIN, START, &mut diags);
    assert_eq!(diags, vec![Diagnostic { loc: loc(4), kind: DiagKind::ConflictDeclaration { earlier: loc(3), name: 9 } }]);
    assert_eq!(p.classes[0].methods[1].body.scope.entries.len(), 1);
}

#[test]
fn type_checking_keeps_block_scopes() {
    let local = VarDef { loc: loc(3), name: 9, ty: SemanticType::Int };
    let body = vec![Stmt::LocalVar(local), Stmt::Return(loc(4), Some(lit(ExprKind::Ident(9), 4)))];
    let mut p = program(body, SemanticType::Int);
    let mut diags = Vec::new();
    sema::resolver::resolve(&mut p, MAIN, START, &mut diags);
    assert!(diags.is_empty());
    let before = p.classes[0].methods[1].body.scope.entries.clone();
    let mut t = TypeChecker::new();
    t.visit_program(&mut p);
    assert!(t.errors.is_empty());
    assert_eq!(p.classes[0].methods[1].body.scope.entries, before);
    assert_eq!(p.classes[0].methods[0].body.scope.entries.len(), 0);
}

#[test]
fn for_and_foreach_loops() {
    let body = vec![
        Stmt::For(
            Box::new(Stmt::Expr(int_lit(0))),
            int_lit(1),
            Box::new(Stmt::Expr(int_lit(2))),
            Box::new(Stmt::Break(loc(3))),
        ),
        Stmt::Foreach(
            VarDef { loc: loc(4), name: 12, ty: SemanticType::Bool },
            lit(ExprKind::ReadLine, 4),
            Box::new(Stmt::Block(Block {
                stmts: vec![Stmt::Break(loc(5)), Stmt::Expr(unary(UnaryOp::Not, lit(ExprKind::Ident(12), 5), 5))],
                scope: Scope::new(),
            })),
        ),
        Stmt::Expr(lit(ExprKind::Ident(12), 6)),
        Stmt::Return(loc(7), Some(int_lit(0))),
    ];
    let errors = compile(program(body, SemanticType::Int), MAIN, START).err().unwrap();
    assert_eq!(
        errors,
        vec![
            Diagnostic { loc: loc(1), kind: DiagKind::TestNotBool },
            Diagnostic { loc: loc(6), kind: DiagKind::UndeclaredVariable { name: 12 } },
        ]
    );
}
