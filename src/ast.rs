//! The syntax tree that analysis reads and annotates.
use vstd::prelude::*;
use crate::scope::Scope;
use crate::types::{BinaryOp, Loc, SemanticType, UnaryOp};

verus! {

/// The forms an expression can take.
pub enum ExprKind {
    IntLit(i32),
    BoolLit(bool),
    StrLit,
    ReadInt,
    ReadLine,
    Ident(u64),
    Unary(UnaryOp, Box<Expr>),
    Binary(BinaryOp, Box<Expr>, Box<Expr>),
}

/// An expression with the type that checking assigned to it.
pub struct Expr {
    pub loc: Loc,
    pub kind: ExprKind,
    pub ty: SemanticType,
}

/// The forms a statement can take.
pub enum Stmt {
    Expr(Expr),
    LocalVar(VarDef),
    Block(Block),
    While(Expr, Box<Stmt>),
    /// Initialiser, condition, update and body.
    For(Box<Stmt>, Expr, Box<Stmt>, Box<Stmt>),
    /// Loop variable, collection and body.
    Foreach(VarDef, Expr, Box<Stmt>),
    If(Expr, Box<Stmt>, Option<Box<Stmt>>),
    Break(Loc),
    Return(Loc, Option<Expr>),
}

/// A sequence of statements with the scope of the variables it declares.
pub struct Block {
    pub stmts: Vec<Stmt>,
    pub scope: Scope,
}

/// A field, parameter or local variable declaration.
#[derive(Clone, Copy, Debug, PartialEq, Eq, Structural)]
pub struct VarDef {
    pub loc: Loc,
    pub name: u64,
    pub ty: SemanticType,
}

/// A method declaration.
pub struct MethodDef {
    pub loc: Loc,
    pub name: u64,
    pub params: Vec<VarDef>,
    pub ret: SemanticType,
    pub body: Block,
}

/// A class declaration as the parser produced it.
pub struct ClassDef {
    pub loc: Loc,
    pub name: u64,
    /// The parent class name as written.
    pub parent: Option<u64>,
    pub sealed: bool,
    pub fields: Vec<VarDef>,
    pub methods: Vec<MethodDef>,
}

/// What resolution finds out about one class.
pub struct ClassInfo {
    /// The index of the validated parent class.
    pub parent_ref: Option<usize>,
    /// Inheritance depth: 1 for a root class, 0 where the ancestor chain is cyclic.
    pub order: usize,
    /// The fields and methods of the class.
    pub scope: Scope,
    /// The parameters of each method, in method order.
    pub method_scopes: Vec<Scope>,
}

/// A whole program: the class arena and what resolution adds to it.
pub struct Program {
    pub classes: Vec<ClassDef>,
    /// One entry per class once resolved, in class order.
    pub info: Vec<ClassInfo>,
    /// The global scope: each class name bound to its first declaration.
    pub scope: Scope,
    /// The index of the entry class.
    pub main: Option<usize>,
}

impl Program {
    /// A program of the given classes, not yet resolved.
    pub fn new(classes: Vec<ClassDef>) -> (r: Program)
        ensures
            r.classes@ == classes@,
            r.info@.len() == 0,
            r.scope.entries@.len() == 0,
            r.main.is_none(),
    {
        Program { classes, info: Vec::new(), scope: Scope::new(), main: None }
    }
}

/// `b` declares what `a` declares: location, name, parameters and return type.
pub open spec fn same_method(a: MethodDef, b: MethodDef) -> bool {
    &&& b.loc == a.loc
    &&& b.name == a.name
    &&& b.params@ == a.params@
    &&& b.ret == a.ret
}

} // verus!
