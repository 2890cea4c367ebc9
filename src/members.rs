//! Member and parameter scopes of each class, and override validation.
use vstd::prelude::*;
use crate::ast::{ClassDef, ClassInfo, MethodDef, VarDef};
use crate::diag::{report, DiagKind, Diagnostic};
use crate::hierarchy::{as_int, linked_parent, order_value};
use crate::scope::{declare_all, declare_diags, scope_get, Scope, SymKind, Symbol};

verus! {

pub open spec fn field_decls(fs: Seq<VarDef>) -> Seq<(u64, Symbol)> {
    fs.map_values(|f: VarDef| (f.name, Symbol { kind: SymKind::Field(f.ty), loc: f.loc }))
}

pub open spec fn param_decls(ps: Seq<VarDef>) -> Seq<(u64, Symbol)> {
    ps.map_values(|v: VarDef| (v.name, Symbol { kind: SymKind::Var(v.ty), loc: v.loc }))
}

pub open spec fn method_decls(ms: Seq<MethodDef>, c: int) -> Seq<(u64, Symbol)> {
    Seq::new(ms.len(), |k: int| (ms[k].name, Symbol { kind: SymKind::Method(c as usize, k as usize), loc: ms[k].loc }))
}

/// The members of class `c` in declaration order: its fields, then its methods.
pub open spec fn member_decls(cs: Seq<ClassDef>, c: int) -> Seq<(u64, Symbol)> {
    field_decls(cs[c].fields@) + method_decls(cs[c].methods@, c)
}

/// The member scope of class `c`.
pub open spec fn member_scope(cs: Seq<ClassDef>, c: int) -> Seq<(u64, Symbol)> {
    declare_all(Seq::empty(), member_decls(cs, c))
}

/// The parameter scope of method `m`.
pub open spec fn param_scope(m: MethodDef) -> Seq<(u64, Symbol)> {
    declare_all(Seq::empty(), param_decls(m.params@))
}

/// The duplicate-parameter diagnostics of the first `k` methods of `ms`.
pub open spec fn params_diags(ms: Seq<MethodDef>, k: int) -> Seq<Diagnostic>
    decreases k,
{
    if k <= 0 {
        seq![]
    } else {
        params_diags(ms, k - 1) + declare_diags(Seq::empty(), param_decls(ms[k - 1].params@))
    }
}

/// The scope diagnostics of the first `n` classes: for each, its duplicate
/// members, then the duplicate parameters of each of its methods.
pub open spec fn scope_diags(cs: Seq<ClassDef>, n: int) -> Seq<Diagnostic>
    decreases n,
{
    if n <= 0 {
        seq![]
    } else {
        scope_diags(cs, n - 1) + declare_diags(Seq::empty(), member_decls(cs, n - 1))
            + params_diags(cs[n - 1].methods@, cs[n - 1].methods@.len() as int)
    }
}

/// A scope holding `decls`, declared in order.
pub(crate) fn build_scope(decls: &Vec<(u64, Symbol)>, diags: &mut Vec<Diagnostic>) -> (r: Scope)
    ensures
        r.wf(),
        r.entries@ == declare_all(Seq::empty(), decls@),
        final(diags)@ == old(diags)@ + declare_diags(Seq::empty(), decls@),
{
    let mut scope = Scope::new();
    let mut i: usize = 0;
    assert(decls@.subrange(0, 0) =~= Seq::<(u64, Symbol)>::empty());
    assert(diags@ =~= old(diags)@ + declare_diags(Seq::empty(), decls@.subrange(0, 0)));
    while i < decls.len()
        invariant
            i <= decls@.len(),
            scope.wf(),
            scope.entries@ == declare_all(Seq::empty(), decls@.subrange(0, i as int)),
            diags@ == old(diags)@ + declare_diags(Seq::empty(), decls@.subrange(0, i as int)),
        decreases decls@.len() - i,
    {
        let d = decls[i];
        assert(decls@.subrange(0, i + 1).drop_last() =~= decls@.subrange(0, i as int));
        scope.declare(d.0, d.1, diags);
        i = i + 1;
        assert(diags@ =~= old(diags)@ + declare_diags(Seq::empty(), decls@.subrange(0, i as int)));
    }
    assert(decls@.subrange(0, i as int) =~= decls@);
    scope
}

fn params_of(ps: &Vec<VarDef>) -> (r: Vec<(u64, Symbol)>)
    ensures
        r@ == param_decls(ps@),
{
    let mut r: Vec<(u64, Symbol)> = Vec::new();
    let mut i: usize = 0;
    while i < ps.len()
        invariant
            i <= ps@.len(),
            r@ == param_decls(ps@.subrange(0, i as int)),
        decreases ps@.len() - i,
    {
        let v = ps[i];
        r.push((v.name, Symbol { kind: SymKind::Var(v.ty), loc: v.loc }));
        i = i + 1;
        assert(r@ =~= param_decls(ps@.subrange(0, i as int)));
    }
    assert(ps@.subrange(0, i as int) =~= ps@);
    r
}

fn members_of(classes: &Vec<ClassDef>, c: usize) -> (r: Vec<(u64, Symbol)>)
    requires
        c < classes@.len(),
    ensures
        r@ == member_decls(classes@, c as int),
{
    let cd = &classes[c];
    let mut r: Vec<(u64, Symbol)> = Vec::new();
    let mut i: usize = 0;
    while i < cd.fields.len()
        invariant
            i <= cd.fields@.len(),
            r@ == field_decls(cd.fields@.subrange(0, i as int)),
        decreases cd.fields@.len() - i,
    {
        let f = cd.fields[i];
        r.push((f.name, Symbol { kind: SymKind::Field(f.ty), loc: f.loc }));
        i = i + 1;
        assert(r@ =~= field_decls(cd.fields@.subrange(0, i as int)));
    }
    assert(cd.fields@.subrange(0, i as int) =~= cd.fields@);
    let ghost base = r@;
    let mut k: usize = 0;
    while k < cd.methods.len()
        invariant
            k <= cd.methods@.len(),
            base == field_decls(cd.fields@),
            r@ == base + method_decls(cd.methods@, c as int).subrange(0, k as int),
        decreases cd.methods@.len() - k,
    {
        r.push((cd.methods[k].name, Symbol { kind: SymKind::Method(c, k), loc: cd.methods[k].loc }));
        k = k + 1;
        assert(r@ =~= base + method_decls(cd.methods@, c as int).subrange(0, k as int));
    }
    assert(method_decls(cd.methods@, c as int).subrange(0, k as int) =~= method_decls(cd.methods@, c as int));
    r
}

/// Builds the member and parameter scopes of every class, with the orders and
/// parents found before.
pub(crate) fn build_infos(classes: &Vec<ClassDef>, orders: &Vec<usize>, links: &Vec<Option<usize>>, diags: &mut Vec<Diagnostic>) -> (r: Vec<ClassInfo>)
    requires
        orders@.len() == classes@.len(),
        links@.len() == classes@.len(),
    ensures
        r@.len() == classes@.len(),
        forall|c: int| 0 <= c < classes@.len() ==> {
            &&& (#[trigger] r@[c]).order == orders@[c]
            &&& r@[c].parent_ref == links@[c]
            &&& r@[c].scope.wf()
            &&& r@[c].scope.entries@ == member_scope(classes@, c)
            &&& r@[c].method_scopes@.len() == classes@[c].methods@.len()
            &&& forall|k: int| 0 <= k < r@[c].method_scopes@.len() ==> {
                &&& (#[trigger] r@[c].method_scopes@[k]).wf()
                &&& r@[c].method_scopes@[k].entries@ == param_scope(classes@[c].methods@[k])
            }
        },
        final(diags)@ == old(diags)@ + scope_diags(classes@, classes@.len() as int),
{
    let ghost cs = classes@;
    let mut infos: Vec<ClassInfo> = Vec::new();
    let mut c: usize = 0;
    assert(diags@ =~= old(diags)@ + scope_diags(cs, 0));
    while c < classes.len()
        invariant
            c <= cs.len(),
            cs == classes@,
            orders@.len() == cs.len(),
            links@.len() == cs.len(),
            infos@.len() == c,
            forall|j: int| 0 <= j < c ==> {
                &&& (#[trigger] infos@[j]).order == orders@[j]
                &&& infos@[j].parent_ref == links@[j]
                &&& infos@[j].scope.wf()
                &&& infos@[j].scope.entries@ == member_scope(cs, j)
                &&& infos@[j].method_scopes@.len() == cs[j].methods@.len()
                &&& forall|k: int| 0 <= k < infos@[j].method_scopes@.len() ==> {
                    &&& (#[trigger] infos@[j].method_scopes@[k]).wf()
                    &&& infos@[j].method_scopes@[k].entries@ == param_scope(cs[j].methods@[k])
                }
            },
            diags@ == old(diags)@ + scope_diags(cs, c as int),
        decreases cs.len() - c,
    {
        let ghost d0 = diags@;
        let members = members_of(classes, c);
        let scope = build_scope(&members, diags);
        let ghost d1 = diags@;
        let ms = &classes[c].methods;
        let mut method_scopes: Vec<Scope> = Vec::new();
        let mut k: usize = 0;
        assert(diags@ =~= d1 + params_diags(ms@, 0));
        while k < ms.len()
            invariant
                k <= ms@.len(),
                ms@ == cs[c as int].methods@,
                method_scopes@.len() == k,
                forall|q: int| 0 <= q < k ==> {
                    &&& (#[trigger] method_scopes@[q]).wf()
                    &&& method_scopes@[q].entries@ == param_scope(ms@[q])
                },
                diags@ == d1 + params_diags(ms@, k as int),
            decreases ms@.len() - k,
        {
            let ps = params_of(&ms[k].params);
            let sc = build_scope(&ps, diags);
            method_scopes.push(sc);
            k = k + 1;
            assert(diags@ =~= d1 + params_diags(ms@, k as int));
        }
        infos.push(ClassInfo { parent_ref: links[c], order: orders[c], scope, method_scopes });
        c = c + 1;
        assert(diags@ =~= old(diags)@ + scope_diags(cs, c as int));
    }
    infos
}

/// The nearest binding of `name` in the member scopes of the validated
/// ancestors of class `c`, looking at most `fuel` classes up.
pub open spec fn inherited(cs: Seq<ClassDef>, c: int, name: u64, fuel: nat) -> Option<Symbol>
    decreases fuel,
{
    if fuel == 0 {
        None
    } else {
        match linked_parent(cs, c) {
            None => None,
            Some(p) => match scope_get(member_scope(cs, p), name) {
                Some(sym) => Some(sym),
                None => inherited(cs, p, name, (fuel - 1) as nat),
            },
        }
    }
}

/// Same parameter types in the same order, and the same return type.
pub open spec fn same_sig(a: MethodDef, b: MethodDef) -> bool {
    &&& a.params@.len() == b.params@.len()
    &&& forall|k: int| 0 <= k < a.params@.len() ==> (#[trigger] a.params@[k]).ty == b.params@[k].ty
    &&& a.ret == b.ret
}

/// Method `k` of class `c` either overrides nothing or overrides an inherited
/// method with exactly its signature.
pub open spec fn override_ok(cs: Seq<ClassDef>, c: int, k: int) -> bool {
    let m = cs[c].methods@[k];
    match inherited(cs, c, m.name, cs.len()) {
        None => true,
        Some(sym) => match sym.kind {
            SymKind::Method(c2, k2) => c2 < cs.len() && k2 < cs[c2 as int].methods@.len()
                && same_sig(m, cs[c2 as int].methods@[k2 as int]),
            _ => false,
        },
    }
}

/// The override diagnostics of the first `k` methods of class `c`.
pub open spec fn method_override_diags(cs: Seq<ClassDef>, c: int, k: int) -> Seq<Diagnostic>
    decreases k,
{
    if k <= 0 {
        seq![]
    } else {
        let m = cs[c].methods@[k - 1];
        method_override_diags(cs, c, k - 1) + if override_ok(cs, c, k - 1) {
            Seq::<Diagnostic>::empty()
        } else {
            seq![Diagnostic { loc: m.loc, kind: DiagKind::IncompatibleOverride { name: m.name } }]
        }
    }
}

/// The override diagnostics of the first `n` classes.
pub open spec fn override_diags(cs: Seq<ClassDef>, n: int) -> Seq<Diagnostic>
    decreases n,
{
    if n <= 0 {
        seq![]
    } else {
        override_diags(cs, n - 1) + method_override_diags(cs, n - 1, cs[n - 1].methods@.len() as int)
    }
}

/// `infos` holds what resolution finds for the classes `cs`.
pub open spec fn infos_ok(cs: Seq<ClassDef>, infos: Seq<ClassInfo>) -> bool {
    &&& infos.len() == cs.len()
    &&& forall|c: int| 0 <= c < cs.len() ==> {
        &&& (#[trigger] infos[c]).order as nat == order_value(cs, c)
        &&& as_int(infos[c].parent_ref) == linked_parent(cs, c)
        &&& infos[c].scope.wf()
        &&& infos[c].scope.entries@ == member_scope(cs, c)
        &&& infos[c].method_scopes@.len() == cs[c].methods@.len()
        &&& forall|k: int| 0 <= k < infos[c].method_scopes@.len() ==> {
            &&& (#[trigger] infos[c].method_scopes@[k]).wf()
            &&& infos[c].method_scopes@[k].entries@ == param_scope(cs[c].methods@[k])
        }
    }
}

fn find_inherited(classes: &Vec<ClassDef>, infos: &Vec<ClassInfo>, c: usize, name: u64) -> (r: Option<Symbol>)
    requires
        c < classes@.len(),
        infos_ok(classes@, infos@),
    ensures
        r == inherited(classes@, c as int, name, classes@.len() as nat),
{
    let ghost cs = classes@;
    let n = classes.len();
    let mut cur: usize = c;
    let mut steps: usize = 0;
    while steps < n
        invariant
            n == cs.len(),
            cs == classes@,
            infos_ok(cs, infos@),
            cur < n,
            steps <= n,
            inherited(cs, c as int, name, n as nat) == inherited(cs, cur as int, name, (n - steps) as nat),
        decreases n - steps,
    {
        assert(as_int(infos@[cur as int].parent_ref) == linked_parent(cs, cur as int));
        match infos[cur].parent_ref {
            None => return None,
            Some(p) => {
                assert(infos@[p as int].scope.entries@ == member_scope(cs, p as int));
                match infos[p].scope.get(name) {
                    Some(sym) => return Some(sym),
                    None => {
                        cur = p;
                        steps = steps + 1;
                    },
                }
            },
        }
    }
    None
}

fn signatures_match(a: &MethodDef, b: &MethodDef) -> (r: bool)
    ensures
        r == same_sig(*a, *b),
{
    if a.params.len() != b.params.len() {
        return false;
    }
    let mut i: usize = 0;
    while i < a.params.len()
        invariant
            i <= a.params@.len(),
            a.params@.len() == b.params@.len(),
            forall|k: int| 0 <= k < i ==> (#[trigger] a.params@[k]).ty == b.params@[k].ty,
        decreases a.params@.len() - i,
    {
        if a.params[i].ty != b.params[i].ty {
            return false;
        }
        i = i + 1;
    }
    a.ret == b.ret
}

/// Reports every method whose signature differs from the inherited method it
/// overrides.
pub(crate) fn check_overrides(classes: &Vec<ClassDef>, infos: &Vec<ClassInfo>, diags: &mut Vec<Diagnostic>)
    requires
        infos_ok(classes@, infos@),
    ensures
        final(diags)@ == old(diags)@ + override_diags(classes@, classes@.len() as int),
{
    let ghost cs = classes@;
    let mut c: usize = 0;
    assert(diags@ =~= old(diags)@ + override_diags(cs, 0));
    while c < classes.len()
        invariant
            c <= cs.len(),
            cs == classes@,
            infos_ok(cs, infos@),
            diags@ == old(diags)@ + override_diags(cs, c as int),
        decreases cs.len() - c,
    {
        let ghost d0 = diags@;
        let ms = &classes[c].methods;
        let mut k: usize = 0;
        assert(diags@ =~= d0 + method_override_diags(cs, c as int, 0));
        while k < ms.len()
            invariant
                k <= ms@.len(),
                c < cs.len(),
                cs == classes@,
                ms@ == cs[c as int].methods@,
                infos_ok(cs, infos@),
                diags@ == d0 + method_override_diags(cs, c as int, k as int),
            decreases ms@.len() - k,
        {
            let m = &ms[k];
            let ok = match find_inherited(classes, infos, c, m.name) {
                None => true,
                Some(sym) => match sym.kind {
                    SymKind::Method(c2, k2) => {
                        if c2 < classes.len() && k2 < classes[c2].methods.len() {
                            signatures_match(m, &classes[c2].methods[k2])
                        } else {
                            false
                        }
                    },
                    _ => false,
                },
            };
            if !ok {
                report(diags, m.loc, DiagKind::IncompatibleOverride { name: m.name });
            }
            k = k + 1;
            assert(diags@ =~= d0 + method_override_diags(cs, c as int, k as int));
        }
        c = c + 1;
        assert(diags@ =~= old(diags)@ + override_diags(cs, c as int));
    }
}

} // verus!
