//! Name bindings: single scopes and the stack of open scopes.
use vstd::prelude::*;
use crate::diag::{report, DiagKind, Diagnostic};
use crate::types::{Loc, SemanticType};

verus! {

/// What a name is bound to.
#[derive(Clone, Copy, Debug, PartialEq, Eq, Structural)]
pub enum SymKind {
    /// A class, by its index in the program's class list.
    Class(usize),
    /// A field of the declared type.
    Field(SemanticType),
    /// A method: the index of its class and its index among that class's methods.
    Method(usize, usize),
    /// A parameter or local variable of the declared type.
    Var(SemanticType),
}

/// A binding, with the place where it was declared.
#[derive(Clone, Copy, Debug, PartialEq, Eq, Structural)]
pub struct Symbol {
    pub kind: SymKind,
    pub loc: Loc,
}

/// One level of name bindings, in declaration order.
pub struct Scope {
    pub entries: Vec<(u64, Symbol)>,
}

/// No name is bound twice in `s`.
pub open spec fn keys_unique(s: Seq<(u64, Symbol)>) -> bool {
    forall|i: int, j: int| 0 <= i < j < s.len() ==> s[i].0 != s[j].0
}

pub open spec fn has_key(s: Seq<(u64, Symbol)>, name: u64) -> bool {
    exists|k: int| 0 <= k < s.len() && s[k].0 == name
}

/// The binding of `name` in one scope, if any.
pub open spec fn scope_get(s: Seq<(u64, Symbol)>, name: u64) -> Option<Symbol> {
    if has_key(s, name) {
        Some(s[choose|k: int| 0 <= k < s.len() && s[k].0 == name].1)
    } else {
        None
    }
}

/// The binding of `name` in the innermost scope of `ss` that binds it.
pub open spec fn stack_get(ss: Seq<Seq<(u64, Symbol)>>, name: u64) -> Option<Symbol>
    decreases ss.len(),
{
    if ss.len() == 0 {
        None
    } else {
        match scope_get(ss.last(), name) {
            Some(s) => Some(s),
            None => stack_get(ss.drop_last(), name),
        }
    }
}

/// The scope `s` after declaring `d`: a name already bound keeps its binding.
pub open spec fn declare_one(s: Seq<(u64, Symbol)>, d: (u64, Symbol)) -> Seq<(u64, Symbol)> {
    if has_key(s, d.0) { s } else { s.push(d) }
}

/// The diagnostics of declaring `d` in `s`: one conflict where the name is
/// already bound, pointing at `d` and naming the earlier binding.
pub open spec fn declare_one_diags(s: Seq<(u64, Symbol)>, d: (u64, Symbol)) -> Seq<Diagnostic> {
    match scope_get(s, d.0) {
        Some(e) => seq![Diagnostic { loc: d.1.loc, kind: DiagKind::ConflictDeclaration { earlier: e.loc, name: d.0 } }],
        None => seq![],
    }
}

/// The scope obtained by declaring `decls` in order into `s`, the first
/// binding of a name being kept.
pub open spec fn declare_all(s: Seq<(u64, Symbol)>, decls: Seq<(u64, Symbol)>) -> Seq<(u64, Symbol)>
    decreases decls.len(),
{
    if decls.len() == 0 {
        s
    } else {
        declare_one(declare_all(s, decls.drop_last()), decls.last())
    }
}

/// The conflict diagnostics raised by declaring `decls` in order into `s`.
pub open spec fn declare_diags(s: Seq<(u64, Symbol)>, decls: Seq<(u64, Symbol)>) -> Seq<Diagnostic>
    decreases decls.len(),
{
    if decls.len() == 0 {
        seq![]
    } else {
        declare_diags(s, decls.drop_last()) + declare_one_diags(declare_all(s, decls.drop_last()), decls.last())
    }
}

impl Scope {
    pub open spec fn wf(&self) -> bool {
        keys_unique(self.entries@)
    }

    /// An empty scope.
    pub fn new() -> (r: Scope)
        ensures
            r.entries@ == Seq::<(u64, Symbol)>::empty(),
            r.wf(),
    {
        Scope { entries: Vec::new() }
    }

    /// The binding of `name` in this scope alone.
    pub fn get(&self, name: u64) -> (r: Option<Symbol>)
        requires
            self.wf(),
        ensures
            r == scope_get(self.entries@, name),
    {
        let mut i: usize = 0;
        while i < self.entries.len()
            invariant
                i <= self.entries@.len(),
                self.wf(),
                forall|k: int| 0 <= k < i ==> self.entries@[k].0 != name,
            decreases self.entries@.len() - i,
        {
            if self.entries[i].0 == name {
                proof {
                    assert(has_key(self.entries@, name));
                    let c = choose|k: int| 0 <= k < self.entries@.len() && self.entries@[k].0 == name;
                    assert(c == i as int);
                }
                return Some(self.entries[i].1);
            }
            i = i + 1;
        }
        None
    }

    /// Binds `name` to `sym` in this scope. A name already bound here keeps its
    /// binding and a conflict diagnostic is reported at `sym.loc`.
    pub fn declare(&mut self, name: u64, sym: Symbol, diags: &mut Vec<Diagnostic>)
        requires
            old(self).wf(),
        ensures
            final(self).wf(),
            final(self).entries@ == declare_one(old(self).entries@, (name, sym)),
            final(diags)@ == old(diags)@ + declare_one_diags(old(self).entries@, (name, sym)),
    {
        match self.get(name) {
            Some(e) => {
                report(diags, sym.loc, DiagKind::ConflictDeclaration { earlier: e.loc, name });
                assert(diags@ =~= old(diags)@ + declare_one_diags(old(self).entries@, (name, sym)));
            },
            None => {
                self.entries.push((name, sym));
                assert(diags@ =~= old(diags)@ + declare_one_diags(old(self).entries@, (name, sym)));
            },
        }
    }

    /// A well-formed copy of this scope: the first binding of each name.
    pub fn normalized(&self) -> (r: Scope)
        ensures
            r.wf(),
            r.entries@ == declare_all(Seq::empty(), self.entries@),
    {
        let mut scratch: Vec<Diagnostic> = Vec::new();
        let mut out = Scope::new();
        let mut i: usize = 0;
        while i < self.entries.len()
            invariant
                i <= self.entries@.len(),
                out.wf(),
                out.entries@ == declare_all(Seq::empty(), self.entries@.subrange(0, i as int)),
            decreases self.entries@.len() - i,
        {
            let d = self.entries[i];
            assert(self.entries@.subrange(0, i + 1).drop_last() =~= self.entries@.subrange(0, i as int));
            out.declare(d.0, d.1, &mut scratch);
            i = i + 1;
        }
        assert(self.entries@.subrange(0, i as int) =~= self.entries@);
        out
    }

    /// A copy of this scope.
    pub fn copy(&self) -> (r: Scope)
        ensures
            r.entries@ == self.entries@,
    {
        let mut out: Vec<(u64, Symbol)> = Vec::new();
        let mut i: usize = 0;
        while i < self.entries.len()
            invariant
                i <= self.entries@.len(),
                out@ == self.entries@.subrange(0, i as int),
            decreases self.entries@.len() - i,
        {
            out.push(self.entries[i]);
            i = i + 1;
            assert(out@ =~= self.entries@.subrange(0, i as int));
        }
        assert(out@ =~= self.entries@);
        Scope { entries: out }
    }
}

/// The stack of open scopes, innermost last.
pub struct ScopeStack {
    pub scopes: Vec<Scope>,
}

impl ScopeStack {
    /// The bindings of each open scope, outermost first.
    pub open spec fn frames(&self) -> Seq<Seq<(u64, Symbol)>> {
        self.scopes@.map_values(|s: Scope| s.entries@)
    }

    pub open spec fn wf(&self) -> bool {
        forall|i: int| 0 <= i < self.scopes@.len() ==> #[trigger] self.scopes@[i].wf()
    }

    /// A stack with no open scope.
    pub fn new() -> (r: ScopeStack)
        ensures
            r.frames() == Seq::<Seq<(u64, Symbol)>>::empty(),
            r.wf(),
    {
        let r = ScopeStack { scopes: Vec::new() };
        assert(r.frames() =~= Seq::<Seq<(u64, Symbol)>>::empty());
        r
    }

    /// Opens `scope` as the innermost scope.
    pub fn open(&mut self, scope: &Scope)
        requires
            old(self).wf(),
            scope.wf(),
        ensures
            final(self).wf(),
            final(self).frames() == old(self).frames().push(scope.entries@),
    {
        let c = scope.copy();
        self.scopes.push(c);
        assert(self.frames() =~= old(self).frames().push(scope.entries@));
        assert forall|i: int| 0 <= i < self.scopes@.len() implies #[trigger] self.scopes@[i].wf() by {
            if i < old(self).scopes@.len() {
                assert(old(self).scopes@[i].wf());
            }
        }
    }

    /// Closes the innermost scope and hands it back.
    pub fn close(&mut self) -> (r: Scope)
        requires
            old(self).wf(),
            old(self).scopes@.len() > 0,
        ensures
            final(self).wf(),
            final(self).frames() == old(self).frames().drop_last(),
            r.wf(),
            r.entries@ == old(self).frames().last(),
    {
        let r = self.scopes.pop().unwrap();
        assert(self.frames() =~= old(self).frames().drop_last());
        assert forall|i: int| 0 <= i < self.scopes@.len() implies #[trigger] self.scopes@[i].wf() by {
            assert(old(self).scopes@[i].wf());
        }
        assert(old(self).scopes@[old(self).scopes@.len() - 1].wf());
        r
    }

    /// Binds `name` in the innermost scope, as `Scope::declare` does.
    pub fn declare(&mut self, name: u64, sym: Symbol, diags: &mut Vec<Diagnostic>)
        requires
            old(self).wf(),
            old(self).scopes@.len() > 0,
        ensures
            final(self).wf(),
            final(self).frames() == old(self).frames().drop_last().push(
                declare_one(old(self).frames().last(), (name, sym)),
            ),
            final(diags)@ == old(diags)@ + declare_one_diags(old(self).frames().last(), (name, sym)),
    {
        let n = self.scopes.len();
        let mut top = self.scopes.pop().unwrap();
        assert(old(self).scopes@[n - 1].wf());
        top.declare(name, sym, diags);
        self.scopes.push(top);
        assert(self.frames() =~= old(self).frames().drop_last().push(
            declare_one(old(self).frames().last(), (name, sym)),
        ));
        assert forall|i: int| 0 <= i < self.scopes@.len() implies #[trigger] self.scopes@[i].wf() by {
            if i < n - 1 {
                assert(old(self).scopes@[i].wf());
            }
        }
    }

    /// The binding of `name` in the innermost open scope that binds it.
    pub fn lookup(&self, name: u64) -> (r: Option<Symbol>)
        requires
            self.wf(),
        ensures
            r == stack_get(self.frames(), name),
    {
        let mut i: usize = self.scopes.len();
        assert(self.frames().subrange(0, i as int) =~= self.frames());
        while i > 0
            invariant
                i <= self.scopes@.len(),
                self.wf(),
                stack_get(self.frames(), name) == stack_get(self.frames().subrange(0, i as int), name),
            decreases i,
        {
            let ghost pre = self.frames().subrange(0, i as int);
            assert(self.scopes@[i - 1].wf());
            let found = self.scopes[i - 1].get(name);
            assert(pre.last() == self.scopes@[i - 1].entries@);
            assert(pre.drop_last() =~= self.frames().subrange(0, i - 1));
            if found.is_some() {
                return found;
            }
            i = i - 1;
        }
        assert(self.frames().subrange(0, 0) =~= Seq::<Seq<(u64, Symbol)>>::empty());
        None
    }
}

} // verus!
