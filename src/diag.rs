//! Diagnostics and the sink they accumulate in.
use vstd::prelude::*;
use crate::types::{BinaryOp, Loc, SemanticType, UnaryOp};

verus! {

/// What went wrong, with the payload that explains it.
#[derive(Clone, Copy, Debug, PartialEq, Eq, Structural)]
pub enum DiagKind {
    /// A name declared a second time in one scope (or a second class of one
    /// name); `earlier` is where the binding that is kept was declared.
    ConflictDeclaration { earlier: Loc, name: u64 },
    /// A parent class name that names no class.
    ClassNotFound { name: u64 },
    /// A class whose ancestor chain never reaches a root class.
    CyclicInheritance,
    /// A class whose direct parent is sealed.
    SealedInheritance,
    /// A method whose signature differs from the one it overrides.
    IncompatibleOverride { name: u64 },
    /// No entry class, or one without a well-formed start method.
    NoMainClass,
    /// A loop or branch condition that is not boolean.
    TestNotBool,
    /// An operand of the wrong type for a unary operator.
    IncompatibleUnary { unary_op: UnaryOp, operand: SemanticType },
    /// Operands of the wrong types for a binary operator.
    IncompatibleBinary { left: SemanticType, binary_op: BinaryOp, right: SemanticType },
    /// A name that no open scope declares.
    UndeclaredVariable { name: u64 },
    /// A `break` outside of any loop.
    BreakOutOfLoop,
    /// A returned value whose type differs from the method's return type.
    BadReturnType { expected: SemanticType, actual: SemanticType },
}

/// A diagnostic: where, and what.
#[derive(Clone, Copy, Debug, PartialEq, Eq, Structural)]
pub struct Diagnostic {
    pub loc: Loc,
    pub kind: DiagKind,
}

/// Appends one diagnostic to the sink.
pub fn report(diags: &mut Vec<Diagnostic>, loc: Loc, kind: DiagKind)
    ensures
        final(diags)@ == old(diags)@.push(Diagnostic { loc, kind }),
{
    diags.push(Diagnostic { loc, kind });
}

} // verus!
