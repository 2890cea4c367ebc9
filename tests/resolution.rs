use sema::ast::{Block, ClassDef, MethodDef, Program, VarDef};
use sema::diag::{DiagKind, Diagnostic};
use sema::resolver::resolve;
use sema::scope::{Scope, SymKind};
use sema::types::{Loc, SemanticType};

const A: u64 = 1;
const B: u64 = 2;
const C: u64 = 3;
const MAIN: u64 = 100;
const START: u64 = 101;

fn loc(line: u32) -> Loc {
    Loc { line, col: 1 }
}

fn method(name: u64, params: Vec<VarDef>, ret: SemanticType, line: u32) -> MethodDef {
    MethodDef { loc: loc(line), name, params, ret, body: Block { stmts: Vec::new(), scope: Scope::new() } }
}

fn class(name: u64, parent: Option<u64>, sealed: bool, line: u32) -> ClassDef {
    ClassDef { loc: loc(line), name, parent, sealed, fields: Vec::new(), methods: Vec::new() }
}

fn main_class(line: u32) -> ClassDef {
    let mut c = class(MAIN, None, false, line);
    c.methods.push(method(START, Vec::new(), SemanticType::Void, line));
    c
}

fn run(classes: Vec<ClassDef>) -> (Program, Vec<Diagnostic>) {
    let mut p = Program::new(classes);
    let mut diags = Vec::new();
    resolve(&mut p, MAIN, START, &mut diags);
    (p, diags)
}

#[test]
fn duplicate_class_reports_one_conflict() {
    let (p, diags) = run(vec![class(A, None, false, 1), class(A, None, true, 2), main_class(3)]);
    assert_eq!(
        diags,
        vec![Diagnostic { loc: loc(2), kind: DiagKind::ConflictDeclaration { earlier: loc(1), name: A } }]
    );
    assert_eq!(p.scope.get(A).map(|s| s.kind), Some(SymKind::Class(0)));
    assert_eq!(p.find_class(A), Some(0));
    assert_eq!(p.find_class(B), None);
}

#[test]
fn chain_orders_are_depths() {
    let (p, diags) = run(vec![
        class(C, Some(B), false, 1),
        class(B, Some(A), false, 2),
        class(A, None, false, 3),
        main_class(4),
    ]);
    assert!(diags.is_empty());
    assert_eq!(p.info[2].order, 1);
    assert_eq!(p.info[1].order, 2);
    assert_eq!(p.info[0].order, 3);
    assert_eq!(p.info[0].parent_ref, Some(1));
    assert_eq!(p.info[1].parent_ref, Some(2));
    assert_eq!(p.info[2].parent_ref, None);
}

#[test]
fn resolving_twice_is_a_fixed_point() {
    let (mut p, diags) = run(vec![class(A, None, false, 1), class(B, Some(A), false, 2), main_class(3)]);
    assert!(diags.is_empty());
    let orders: Vec<usize> = p.info.iter().map(|i| i.order).collect();
    let scopes: Vec<Vec<(u64, sema::scope::Symbol)>> = p.info.iter().map(|i| i.scope.entries.clone()).collect();
    let mut again = Vec::new();
    resolve(&mut p, MAIN, START, &mut again);
    assert!(again.is_empty());
    assert_eq!(p.info.iter().map(|i| i.order).collect::<Vec<usize>>(), orders);
    assert_eq!(p.info.iter().map(|i| i.scope.entries.clone()).collect::<Vec<_>>(), scopes);
}

#[test]
fn mutual_parents_are_cyclic() {
    let (p, diags) = run(vec![class(A, Some(B), false, 1), class(B, Some(A), false, 2), main_class(3)]);
    assert_eq!(
        diags,
        vec![
            Diagnostic { loc: loc(1), kind: DiagKind::CyclicInheritance },
            Diagnostic { loc: loc(2), kind: DiagKind::CyclicInheritance },
        ]
    );
    assert_eq!(p.info[0].parent_ref, None);
    assert_eq!(p.info[0].order, 0);
}

#[test]
fn self_parent_is_cyclic() {
    let (_, diags) = run(vec![class(A, Some(A), false, 1), main_class(2)]);
    assert_eq!(diags, vec![Diagnostic { loc: loc(1), kind: DiagKind::CyclicInheritance }]);
}

#[test]
fn class_extending_sealed_class() {
    let (p, diags) = run(vec![class(A, None, true, 1), class(B, Some(A), false, 2), main_class(3)]);
    assert_eq!(diags, vec![Diagnostic { loc: loc(2), kind: DiagKind::SealedInheritance }]);
    assert_eq!(p.info[1].parent_ref, None);
    assert_eq!(p.info[1].order, 2);
}

#[test]
fn sealed_grandparent_does_not_matter() {
    let (_, diags) = run(vec![
        class(A, None, true, 1),
        class(B, Some(A), false, 2),
        class(C, Some(B), false, 3),
        main_class(4),
    ]);
    assert_eq!(diags, vec![Diagnostic { loc: loc(2), kind: DiagKind::SealedInheritance }]);
}

#[test]
fn unknown_parent_is_reported() {
    let (_, diags) = run(vec![class(A, Some(C), false, 1), main_class(2)]);
    assert_eq!(diags, vec![Diagnostic { loc: loc(1), kind: DiagKind::ClassNotFound { name: C } }]);
}

#[test]
fn missing_entry_class() {
    let (p, diags) = run(vec![class(A, None, false, 1)]);
    assert_eq!(diags, vec![Diagnostic { loc: Loc { line: 0, col: 0 }, kind: DiagKind::NoMainClass }]);
    assert_eq!(p.main, None);
}

#[test]
fn entry_class_without_start_method() {
    let mut m = class(MAIN, None, false, 1);
    let p0 = VarDef { loc: loc(1), name: 7, ty: SemanticType::Int };
    m.methods.push(method(START, vec![p0], SemanticType::Void, 1));
    let (p, diags) = run(vec![m]);
    assert_eq!(diags, vec![Diagnostic { loc: Loc { line: 0, col: 0 }, kind: DiagKind::NoMainClass }]);
    assert_eq!(p.main, Some(0));
}

#[test]
fn entry_class_is_recorded() {
    let (p, diags) = run(vec![class(A, None, false, 1), main_class(2)]);
    assert!(diags.is_empty());
    assert_eq!(p.main, Some(1));
}

#[test]
fn duplicate_members_and_parameters() {
    let mut a = class(A, None, false, 1);
    a.fields.push(VarDef { loc: loc(2), name: 10, ty: SemanticType::Int });
    a.fields.push(VarDef { loc: loc(3), name: 10, ty: SemanticType::Bool });
    let x = VarDef { loc: loc(5), name: 20, ty: SemanticType::Int };
    let y = VarDef { loc: loc(6), name: 20, ty: SemanticType::Int };
    a.methods.push(method(11, vec![x, y], SemanticType::Void, 4));
    let (p, diags) = run(vec![a, main_class(9)]);
    assert_eq!(
        diags,
        vec![
            Diagnostic { loc: loc(3), kind: DiagKind::ConflictDeclaration { earlier: loc(2), name: 10 } },
            Diagnostic { loc: loc(6), kind: DiagKind::ConflictDeclaration { earlier: loc(5), name: 20 } },
        ]
    );
    assert_eq!(p.info[0].scope.entries.len(), 2);
    assert_eq!(p.info[0].scope.get(10).map(|s| s.kind), Some(SymKind::Field(SemanticType::Int)));
    assert_eq!(p.info[0].method_scopes[0].entries.len(), 1);
}

#[test]
fn override_with_other_signature() {
    let mut a = class(A, None, false, 1);
    a.methods.push(method(11, Vec::new(), SemanticType::Int, 2));
    let mut b = class(B, Some(A), false, 3);
    b.methods.push(method(11, Vec::new(), SemanticType::Bool, 4));
    let mut c = class(C, Some(B), false, 5);
    let p0 = VarDef { loc: loc(6), name: 30, ty: SemanticType::Int };
    c.methods.push(method(11, vec![p0], SemanticType::Bool, 6));
    let (_, diags) = run(vec![a, b, c, main_class(9)]);
    assert_eq!(
        diags,
        vec![
            Diagnostic { loc: loc(4), kind: DiagKind::IncompatibleOverride { name: 11 } },
            Diagnostic { loc: loc(6), kind: DiagKind::IncompatibleOverride { name: 11 } },
        ]
    );
}

#[test]
fn override_with_same_signature() {
    let mut a = class(A, None, false, 1);
    let pa = VarDef { loc: loc(2), name: 30, ty: SemanticType::Str };
    a.methods.push(method(11, vec![pa], SemanticType::Int, 2));
    let mut b = class(B, Some(A), false, 3);
    let pb = VarDef { loc: loc(4), name: 31, ty: SemanticType::Str };
    b.methods.push(method(11, vec![pb], SemanticType::Int, 4));
    let (_, diags) = run(vec![a, b, main_class(9)]);
    assert!(diags.is_empty());
}

#[test]
fn passes_report_in_order() {
    let (_, diags) = run(vec![class(A, Some(C), false, 1), class(A, None, false, 2)]);
    assert_eq!(
        diags,
        vec![
            Diagnostic { loc: loc(2), kind: DiagKind::ConflictDeclaration { earlier: loc(1), name: A } },
            Diagnostic { loc: loc(1), kind: DiagKind::ClassNotFound { name: C } },
            Diagnostic { loc: Loc { line: 0, col: 0 }, kind: DiagKind::NoMainClass },
        ]
    );
}
