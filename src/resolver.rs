//! The resolution pass as a whole, with entry-class validation.
use vstd::prelude::*;
use crate::ast::{same_method, ClassDef, ClassInfo, Program};
use crate::diag::{report, DiagKind, Diagnostic};
use crate::hierarchy::{linked_parent, order_value, parent_indices, lemma_inherit_diags_hold, inherit_diag, as_int, class_decls, class_index, find_class, global_of, inherit_diags, link_parents, register, registration_diags};
use crate::members::{member_decls, method_decls, param_scope, build_infos, check_overrides, infos_ok, member_scope, override_diags, scope_diags};
use crate::locals::{class_scoped, body_scope_diags, classes_scoped, scope_bodies};
use crate::scope::{keys_unique, declare_all, has_key, scope_get, Scope, SymKind, Symbol};
use crate::types::{no_loc, Loc, SemanticType};

verus! {

/// The class named `main_class` exists and declares a method named
/// `main_method` that takes no parameter and returns `Void`.
pub open spec fn entry_ok(cs: Seq<ClassDef>, main_class: u64, main_method: u64) -> bool {
    match class_index(cs, main_class) {
        None => false,
        Some(c) => match scope_get(member_scope(cs, c), main_method) {
            Some(sym) => match sym.kind {
                SymKind::Method(c2, k) => c2 as int == c && k < cs[c].methods@.len()
                    && cs[c].methods@[k as int].params@.len() == 0
                    && cs[c].methods@[k as int].ret == SemanticType::Void,
                _ => false,
            },
            None => false,
        },
    }
}

pub open spec fn entry_diags(cs: Seq<ClassDef>, main_class: u64, main_method: u64) -> Seq<Diagnostic> {
    if entry_ok(cs, main_class, main_method) {
        seq![]
    } else {
        seq![Diagnostic { loc: no_loc(), kind: DiagKind::NoMainClass }]
    }
}

/// Every diagnostic of resolving `cs`, in the order the passes raise them.
pub open spec fn resolution_diags(cs: Seq<ClassDef>, main_class: u64, main_method: u64) -> Seq<Diagnostic> {
    registration_diags(cs) + inherit_diags(cs, cs.len() as int) + scope_diags(cs, cs.len() as int)
        + override_diags(cs, cs.len() as int) + body_scope_diags(cs, cs.len() as int) + entry_diags(
        cs,
        main_class,
        main_method,
    )
}

/// `p` is the program of classes `cs` after resolution.
pub open spec fn resolved(cs: Seq<ClassDef>, p: Program, main_class: u64) -> bool {
    &&& classes_scoped(p.classes@, cs)
    &&& p.scope.wf()
    &&& p.scope.entries@ == global_of(cs)
    &&& infos_ok(cs, p.info@)
    &&& as_int(p.main) == class_index(cs, main_class)
}

fn check_main(classes: &Vec<ClassDef>, global: &Scope, infos: &Vec<ClassInfo>, main_class: u64, main_method: u64) -> (r: (Option<usize>, bool))
    requires
        global.wf(),
        global.entries@ == global_of(classes@),
        infos_ok(classes@, infos@),
    ensures
        as_int(r.0) == class_index(classes@, main_class),
        r.1 == entry_ok(classes@, main_class, main_method),
{
    let main = find_class(global, classes.len(), main_class);
    let ok = match main {
        None => false,
        Some(c) => {
            assert(infos@[c as int].scope.entries@ == member_scope(classes@, c as int));
            match infos[c].scope.get(main_method) {
                Some(sym) => match sym.kind {
                    SymKind::Method(c2, k) => c2 == c && k < classes[c].methods.len()
                        && classes[c].methods[k].params.len() == 0
                        && classes[c].methods[k].ret == SemanticType::Void,
                    _ => false,
                },
                None => false,
            }
        },
    };
    (main, ok)
}

/// Resolves `program`: registers its classes, validates their parents and
/// computes their orders, builds the member and parameter scopes, validates
/// overrides, builds the scope of every block of every method body, and
/// finds the entry class `main_class` with its start method `main_method`.
/// Each pass runs over every class before the next begins.
pub fn resolve(program: &mut Program, main_class: u64, main_method: u64, diags: &mut Vec<Diagnostic>)
    ensures
        resolved(old(program).classes@, *final(program), main_class),
        final(diags)@ == old(diags)@ + resolution_diags(old(program).classes@, main_class, main_method),
{
    let ghost d0 = diags@;
    let global = register(&program.classes, diags);
    let (orders, links) = link_parents(&program.classes, &global, diags);
    let infos = build_infos(&program.classes, &orders, &links, diags);
    check_overrides(&program.classes, &infos, diags);
    let (main, ok) = check_main(&program.classes, &global, &infos, main_class, main_method);
    scope_bodies(&mut program.classes, diags);
    if !ok {
        report(diags, Loc { line: 0, col: 0 }, DiagKind::NoMainClass);
    }
    program.scope = global;
    program.info = infos;
    program.main = main;
    assert(diags@ =~= d0 + resolution_diags(old(program).classes@, main_class, main_method));
}

proof fn lemma_declared_key(s: Seq<(u64, Symbol)>, decls: Seq<(u64, Symbol)>, name: u64)
    requires
        has_key(declare_all(s, decls), name),
    ensures
        has_key(s, name) || exists|k: int| 0 <= k < decls.len() && (#[trigger] decls[k]).0 == name,
    decreases decls.len(),
{
    if decls.len() > 0 {
        let before = declare_all(s, decls.drop_last());
        if has_key(before, name) {
            lemma_declared_key(s, decls.drop_last(), name);
            if !has_key(s, name) {
                let k = choose|k: int| 0 <= k < decls.drop_last().len() && (#[trigger] decls.drop_last()[k]).0 == name;
                assert(decls[k].0 == name);
            }
        } else {
            let w = choose|w: int| 0 <= w < declare_all(s, decls).len() && declare_all(s, decls)[w].0 == name;
            assert(declare_all(s, decls) == before.push(decls.last()));
            assert(w == before.len());
            assert(decls[decls.len() - 1].0 == name);
        }
    }
}

proof fn lemma_declare_all_unique(s: Seq<(u64, Symbol)>, decls: Seq<(u64, Symbol)>)
    requires
        keys_unique(s),
    ensures
        keys_unique(declare_all(s, decls)),
    decreases decls.len(),
{
    if decls.len() > 0 {
        lemma_declare_all_unique(s, decls.drop_last());
    }
}

proof fn lemma_first_declaration_kept(decls: Seq<(u64, Symbol)>, f: int)
    requires
        0 <= f < decls.len(),
        forall|k: int| 0 <= k < f ==> (#[trigger] decls[k]).0 != decls[f].0,
    ensures
        exists|w: int| 0 <= w < declare_all(Seq::empty(), decls).len() && declare_all(Seq::empty(), decls)[w] == decls[f],
    decreases decls.len(),
{
    let before = declare_all(Seq::empty(), decls.drop_last());
    if f < decls.len() - 1 {
        lemma_first_declaration_kept(decls.drop_last(), f);
        let w = choose|w: int| 0 <= w < before.len() && before[w] == decls[f];
        assert(declare_all(Seq::empty(), decls)[w] == decls[f]);
    } else {
        if has_key(before, decls[f].0) {
            lemma_declared_key(Seq::empty(), decls.drop_last(), decls[f].0);
            let k = choose|k: int| 0 <= k < decls.drop_last().len() && (#[trigger] decls.drop_last()[k]).0 == decls[f].0;
            assert(decls[k].0 == decls[f].0);
        }
        assert(declare_all(Seq::empty(), decls)[before.len() as int] == decls[f]);
    }
}

/// First declaration wins: the name of class `i` resolves to `i` whenever no
/// earlier class has that name, whatever the later classes are named.
pub proof fn lemma_first_declaration_wins(cs: Seq<ClassDef>, i: int)
    requires
        0 <= i < cs.len(),
        cs.len() <= usize::MAX,
        forall|k: int| 0 <= k < i ==> (#[trigger] cs[k]).name != cs[i].name,
    ensures
        class_index(cs, cs[i].name) == Some(i),
{
    let ds = class_decls(cs);
    let g = global_of(cs);
    assert forall|k: int| 0 <= k < i implies (#[trigger] ds[k]).0 != ds[i].0 by {
        assert(cs[k].name != cs[i].name);
    }
    lemma_first_declaration_kept(ds, i);
    lemma_declare_all_unique(Seq::empty(), ds);
    let w = choose|w: int| 0 <= w < g.len() && g[w] == ds[i];
    assert(has_key(g, cs[i].name));
    let c = choose|c: int| 0 <= c < g.len() && g[c].0 == cs[i].name;
    assert(c == w);
    assert(ds[i].1.kind == SymKind::Class(i as usize));
}

/// A program with no class of the entry name raises the missing-entry-class
/// diagnostic, as the last diagnostic of resolution.
pub proof fn lemma_missing_entry(cs: Seq<ClassDef>, main_class: u64, main_method: u64)
    requires
        forall|i: int| 0 <= i < cs.len() ==> (#[trigger] cs[i]).name != main_class,
    ensures
        !entry_ok(cs, main_class, main_method),
        class_index(cs, main_class) is None,
        resolution_diags(cs, main_class, main_method).last() == (Diagnostic { loc: no_loc(), kind: DiagKind::NoMainClass }),
{
    if has_key(global_of(cs), main_class) {
        lemma_declared_key(Seq::empty(), class_decls(cs), main_class);
        let k = choose|k: int| 0 <= k < class_decls(cs).len() && (#[trigger] class_decls(cs)[k]).0 == main_class;
        assert(cs[k].name == main_class);
    }
}

/// `a` and `b` declare the same classes, with the same members and method
/// signatures; method bodies may differ.
pub open spec fn same_decls(a: Seq<ClassDef>, b: Seq<ClassDef>) -> bool {
    &&& a.len() == b.len()
    &&& forall|c: int| 0 <= c < a.len() ==> {
        &&& (#[trigger] a[c]).loc == b[c].loc
        &&& a[c].name == b[c].name
        &&& a[c].parent == b[c].parent
        &&& a[c].sealed == b[c].sealed
        &&& a[c].fields@ == b[c].fields@
        &&& a[c].methods@.len() == b[c].methods@.len()
        &&& forall|k: int| 0 <= k < a[c].methods@.len() ==> same_method(b[c].methods@[k], #[trigger] a[c].methods@[k])
    }
}

/// Resolution reads only declarations: class lists that declare the same
/// classes get the same global scope, orders, parents and member and
/// parameter scopes.
pub proof fn lemma_same_decls_resolve(a: Seq<ClassDef>, b: Seq<ClassDef>)
    requires
        same_decls(a, b),
    ensures
        global_of(a) == global_of(b),
        forall|n: u64| class_index(a, n) == #[trigger] class_index(b, n),
        forall|c: int| 0 <= c < a.len() ==> #[trigger] order_value(a, c) == order_value(b, c),
        forall|c: int| 0 <= c < a.len() ==> #[trigger] linked_parent(a, c) == linked_parent(b, c),
        forall|c: int| 0 <= c < a.len() ==> #[trigger] member_scope(a, c) == member_scope(b, c),
        forall|c: int, k: int| 0 <= c < a.len() && 0 <= k < a[c].methods@.len() ==> #[trigger] param_scope(a[c].methods@[k])
            == param_scope(b[c].methods@[k]),
{
    assert(class_decls(a) =~= class_decls(b));
    assert(parent_indices(a) =~= parent_indices(b));
    assert forall|c: int| 0 <= c < a.len() implies #[trigger] member_scope(a, c) == member_scope(b, c) by {
        assert(method_decls(a[c].methods@, c) =~= method_decls(b[c].methods@, c));
        assert(member_decls(a, c) =~= member_decls(b, c));
    }
    assert forall|c: int, k: int| 0 <= c < a.len() && 0 <= k < a[c].methods@.len() implies #[trigger] param_scope(a[c].methods@[k])
        == param_scope(b[c].methods@[k]) by {
        assert(same_method(b[c].methods@[k], a[c].methods@[k]));
    }
}

/// Resolving again what resolution produced gives the same global scope,
/// orders, parents, member and parameter scopes and entry class.
pub proof fn lemma_resolution_fixed_point(p0: Program, p1: Program, p2: Program, main_class: u64)
    requires
        resolved(p0.classes@, p1, main_class),
        resolved(p1.classes@, p2, main_class),
    ensures
        p2.scope.entries@ == p1.scope.entries@,
        p2.main == p1.main,
        p2.info@.len() == p1.info@.len(),
        forall|c: int| 0 <= c < p1.info@.len() ==> {
            &&& (#[trigger] p2.info@[c]).order == p1.info@[c].order
            &&& p2.info@[c].parent_ref == p1.info@[c].parent_ref
            &&& p2.info@[c].scope.entries@ == p1.info@[c].scope.entries@
            &&& p2.info@[c].method_scopes@.len() == p1.info@[c].method_scopes@.len()
            &&& forall|k: int| 0 <= k < p1.info@[c].method_scopes@.len() ==> (#[trigger] p2.info@[c].method_scopes@[k]).entries@
                == p1.info@[c].method_scopes@[k].entries@
        },
{
    let a = p1.classes@;
    let b = p0.classes@;
    assert(same_decls(a, b)) by {
        assert forall|c: int| 0 <= c < a.len() implies {
            &&& (#[trigger] a[c]).loc == b[c].loc
            &&& a[c].name == b[c].name
            &&& a[c].parent == b[c].parent
            &&& a[c].sealed == b[c].sealed
            &&& a[c].fields@ == b[c].fields@
            &&& a[c].methods@.len() == b[c].methods@.len()
            &&& forall|k: int| 0 <= k < a[c].methods@.len() ==> same_method(b[c].methods@[k], #[trigger] a[c].methods@[k])
        } by {
            assert(class_scoped(a[c], b[c]));
        }
    }
    lemma_same_decls_resolve(a, b);
    assert forall|c: int| 0 <= c < p1.info@.len() implies {
        &&& (#[trigger] p2.info@[c]).order == p1.info@[c].order
        &&& p2.info@[c].parent_ref == p1.info@[c].parent_ref
        &&& p2.info@[c].scope.entries@ == p1.info@[c].scope.entries@
        &&& p2.info@[c].method_scopes@.len() == p1.info@[c].method_scopes@.len()
        &&& forall|k: int| 0 <= k < p1.info@[c].method_scopes@.len() ==> (#[trigger] p2.info@[c].method_scopes@[k]).entries@
            == p1.info@[c].method_scopes@[k].entries@
    } by {
        assert(order_value(a, c) == order_value(b, c));
        assert(linked_parent(a, c) == linked_parent(b, c));
        assert(member_scope(a, c) == member_scope(b, c));
        assert(as_int(p2.info@[c].parent_ref) == as_int(p1.info@[c].parent_ref));
        assert forall|k: int| 0 <= k < p1.info@[c].method_scopes@.len() implies (#[trigger] p2.info@[c].method_scopes@[k]).entries@
            == p1.info@[c].method_scopes@[k].entries@ by {
            assert(param_scope(a[c].methods@[k]) == param_scope(b[c].methods@[k]));
        }
    }
    assert(class_index(a, main_class) == class_index(b, main_class));
    assert(as_int(p2.main) == as_int(p1.main));
}

/// Whatever inheritance resolution reports for a class (an unknown parent, a
/// cycle, a sealed parent) is among the diagnostics of the whole resolution.
pub proof fn lemma_inheritance_reported(cs: Seq<ClassDef>, i: int, main_class: u64, main_method: u64)
    requires
        0 <= i < cs.len(),
    ensures
        forall|k: int| 0 <= k < inherit_diag(cs, i).len() ==> resolution_diags(cs, main_class, main_method).contains(
            #[trigger] inherit_diag(cs, i)[k],
        ),
{
    lemma_inherit_diags_hold(cs, i, cs.len() as int);
    let r = registration_diags(cs);
    let h = inherit_diags(cs, cs.len() as int);
    assert forall|k: int| 0 <= k < inherit_diag(cs, i).len() implies resolution_diags(cs, main_class, main_method).contains(
        #[trigger] inherit_diag(cs, i)[k],
    ) by {
        let w = choose|w: int| 0 <= w < h.len() && h[w] == inherit_diag(cs, i)[k];
        assert(resolution_diags(cs, main_class, main_method)[r.len() + w] == h[w]);
    }
}

} // verus!
