//! Resolution followed by type checking.
use vstd::prelude::*;
use crate::ast::{ClassDef, Program};
use crate::diag::Diagnostic;
use crate::hierarchy::global_of;
use crate::resolver::{resolution_diags, resolve, resolved};
use crate::scope::Symbol;
use crate::type_checker::{checkable, class_ann, info_wf, param_views, program_diags, TypeChecker};

verus! {

/// The scopes in which the classes of `cs` are type checked: the global scope alone.
pub open spec fn top_env(cs: Seq<ClassDef>) -> Seq<Seq<(u64, Symbol)>> {
    Seq::<Seq<(u64, Symbol)>>::empty().push(global_of(cs))
}

/// The diagnostics of type checking `q`, a resolution of `cs`.
pub open spec fn check_diags(cs: Seq<ClassDef>, q: Program) -> Seq<Diagnostic> {
    program_diags(q.classes@, q.info@, top_env(cs), q.classes@.len() as int)
}

/// Runs resolution and then, if it found nothing wrong, type checking, on a
/// parsed program whose entry class is named `main_class` with start method
/// `main_method`. Either phase that reports anything stops the pipeline with
/// all it reported; otherwise the program comes back resolved and with every
/// expression annotated.
pub fn compile(program: Program, main_class: u64, main_method: u64) -> (r: Result<Program, Vec<Diagnostic>>)
    ensures
        resolution_diags(program.classes@, main_class, main_method).len() > 0 ==> r is Err
            && r->Err_0@ == resolution_diags(program.classes@, main_class, main_method),
        resolution_diags(program.classes@, main_class, main_method).len() == 0 ==> exists|q: Program| {
            &&& resolved(program.classes@, q, main_class)
            &&& match r {
                Err(d) => d@.len() > 0 && d@ == check_diags(program.classes@, q),
                Ok(p) => {
                    &&& check_diags(program.classes@, q).len() == 0
                    &&& p.classes@.len() == q.classes@.len()
                    &&& forall|c: int| 0 <= c < q.classes@.len() ==> class_ann(
                        #[trigger] p.classes@[c],
                        q.classes@[c],
                        q.info@[c].scope.entries@,
                        param_views(q.info@[c]),
                        top_env(program.classes@),
                    )
                    &&& p.info@ == q.info@
                    &&& p.scope.entries@ == q.scope.entries@
                    &&& p.main == q.main
                },
            }
        },
{
    let ghost cs = program.classes@;
    let mut program = program;
    let mut diags: Vec<Diagnostic> = Vec::new();
    resolve(&mut program, main_class, main_method, &mut diags);
    assert(diags@ =~= resolution_diags(cs, main_class, main_method));
    if diags.len() > 0 {
        return Err(diags);
    }
    let ghost q = program;
    assert(checkable(program.classes@, program.info@)) by {
        assert forall|c: int| 0 <= c < program.classes@.len() implies info_wf(#[trigger] program.info@[c])
            && program.info@[c].method_scopes@.len() == program.classes@[c].methods@.len() by {
            assert(crate::locals::class_scoped(program.classes@[c], cs[c]));
        }
    }
    let mut checker = TypeChecker::new();
    assert(checker.scopes.frames().push(program.scope.entries@) =~= top_env(cs));
    checker.visit_program(&mut program);
    assert(checker.errors@ =~= check_diags(cs, q));
    if checker.errors.len() > 0 {
        return Err(checker.errors);
    }
    Ok(program)
}

} // verus!
