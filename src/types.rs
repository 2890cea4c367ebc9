//! Locations, semantic types and operators.
use vstd::prelude::*;

verus! {

/// A position in the source text.
#[derive(Clone, Copy, Debug, PartialEq, Eq, Structural)]
pub struct Loc {
    pub line: u32,
    pub col: u32,
}

/// The location of diagnostics that belong to no particular node.
pub open spec fn no_loc() -> Loc {
    Loc { line: 0, col: 0 }
}

/// The element type of an array type.
#[derive(Clone, Copy, Debug, PartialEq, Eq, Structural)]
pub enum ElemType {
    Int,
    Bool,
    Str,
    Class(u64),
}

/// The semantic type of an expression or declaration.
///
/// `Array(e, d)` is the `d`-dimensional array of `e` (`d >= 1`); class types
/// carry the interned class name. `Error` marks an expression whose error has
/// already been reported.
#[derive(Clone, Copy, Debug, PartialEq, Eq, Structural)]
pub enum SemanticType {
    Int,
    Bool,
    Str,
    Void,
    Error,
    Class(u64),
    Array(ElemType, u32),
}

/// Unary operators.
#[derive(Clone, Copy, Debug, PartialEq, Eq, Structural)]
pub enum UnaryOp {
    Neg,
    Not,
}

/// Binary operators.
#[derive(Clone, Copy, Debug, PartialEq, Eq, Structural)]
pub enum BinaryOp {
    Add,
    Sub,
    Mul,
    Div,
    Mod,
    Lt,
    Le,
    Gt,
    Ge,
    Eq,
    Ne,
    And,
    Or,
}

pub open spec fn is_arith(op: BinaryOp) -> bool {
    matches!(op, BinaryOp::Add | BinaryOp::Sub | BinaryOp::Mul | BinaryOp::Div | BinaryOp::Mod)
}

pub open spec fn is_relational(op: BinaryOp) -> bool {
    matches!(op, BinaryOp::Lt | BinaryOp::Le | BinaryOp::Gt | BinaryOp::Ge)
}

pub open spec fn is_equality(op: BinaryOp) -> bool {
    matches!(op, BinaryOp::Eq | BinaryOp::Ne)
}

/// A value of type `t` is accepted where `target` is required: it is `target`
/// itself, or `Error`, which is compatible with everything.
pub open spec fn accepts(t: SemanticType, target: SemanticType) -> bool {
    t == SemanticType::Error || t == target
}

/// Whether `type_` is accepted where `target` is required.
pub fn require_type(type_: &SemanticType, target: &SemanticType) -> (r: bool)
    ensures
        r == accepts(*type_, *target),
{
    *type_ == SemanticType::Error || *type_ == *target
}

} // verus!
