//! Block scopes: each block binds the local variables that its own
//! statements declare, in order, the first binding of a name being kept.
use vstd::prelude::*;
use crate::ast::{Block, ClassDef, Stmt, VarDef};
use crate::ast::same_method;
use crate::diag::Diagnostic;
use crate::members::build_scope;
use crate::scope::{declare_all, declare_diags, Scope, SymKind, Symbol};
use crate::types::Loc;

verus! {

broadcast use {vstd::std_specs::vec::axiom_vec_decreases_to_view, vstd::seq::axiom_seq_index_decreases};

/// The binding that a local variable declaration makes.
pub open spec fn local_decl(v: VarDef) -> (u64, Symbol) {
    (v.name, Symbol { kind: SymKind::Var(v.ty), loc: v.loc })
}

/// The local variables declared by the statements `ss` themselves, in order.
pub open spec fn local_decls(ss: Seq<Stmt>) -> Seq<(u64, Symbol)>
    decreases ss.len(),
{
    if ss.len() == 0 {
        seq![]
    } else {
        match ss.last() {
            Stmt::LocalVar(v) => local_decls(ss.drop_last()).push(local_decl(v)),
            _ => local_decls(ss.drop_last()),
        }
    }
}

/// The scope of a block whose statements are `ss`.
pub open spec fn block_scope_of(ss: Seq<Stmt>) -> Seq<(u64, Symbol)> {
    declare_all(Seq::empty(), local_decls(ss))
}

/// The duplicate-local diagnostics of every block in `s`, outermost first.
pub open spec fn stmt_scope_diags(s: Stmt) -> Seq<Diagnostic>
    decreases s, 0nat,
{
    match s {
        Stmt::Block(b) => declare_diags(Seq::empty(), local_decls(b.stmts@)) + stmts_scope_diags(
            b.stmts@,
            b.stmts@.len() as int,
        ),
        Stmt::While(_, body) => stmt_scope_diags(*body),
        Stmt::For(init, _, update, body) => stmt_scope_diags(*init) + stmt_scope_diags(*update) + stmt_scope_diags(*body),
        Stmt::Foreach(_, _, body) => stmt_scope_diags(*body),
        Stmt::If(_, t, e) => stmt_scope_diags(*t) + match e {
            Some(x) => stmt_scope_diags(*x),
            None => Seq::<Diagnostic>::empty(),
        },
        _ => seq![],
    }
}

/// The duplicate-local diagnostics of the first `n` statements of `ss`.
pub open spec fn stmts_scope_diags(ss: Seq<Stmt>, n: int) -> Seq<Diagnostic>
    decreases ss, n,
{
    if n <= 0 || n > ss.len() {
        seq![]
    } else {
        stmts_scope_diags(ss, n - 1) + stmt_scope_diags(ss[n - 1])
    }
}

/// `a` is `s` with the scope of every block built from its statements.
pub open spec fn stmt_scoped(a: Stmt, s: Stmt) -> bool
    decreases s, 0nat,
{
    match s {
        Stmt::Block(b) => {
            &&& a is Block
            &&& a->Block_0.scope.entries@ == block_scope_of(b.stmts@)
            &&& a->Block_0.stmts@.len() == b.stmts@.len()
            &&& stmts_scoped(a->Block_0.stmts@, b.stmts@, b.stmts@.len() as int)
        },
        Stmt::While(c, body) => a is While && a->While_0 == c && stmt_scoped(*a->While_1, *body),
        Stmt::For(init, c, update, body) => a is For && a->For_1 == c && stmt_scoped(*a->For_0, *init)
            && stmt_scoped(*a->For_2, *update) && stmt_scoped(*a->For_3, *body),
        Stmt::Foreach(v, e, body) => a is Foreach && a->Foreach_0 == v && a->Foreach_1 == e && stmt_scoped(
            *a->Foreach_2,
            *body,
        ),
        Stmt::If(c, t, e) => a is If && a->If_0 == c && stmt_scoped(*a->If_1, *t) && match (a->If_2, e) {
            (None, None) => true,
            (Some(x), Some(y)) => stmt_scoped(*x, *y),
            _ => false,
        },
        _ => a == s,
    }
}

/// The first `n` statements of `as_` are those of `ss` with block scopes built.
pub open spec fn stmts_scoped(as_: Seq<Stmt>, ss: Seq<Stmt>, n: int) -> bool
    decreases ss, n,
{
    if n <= 0 || n > ss.len() {
        true
    } else {
        stmts_scoped(as_, ss, n - 1) && stmt_scoped(as_[n - 1], ss[n - 1])
    }
}

proof fn lemma_stmts_scoped_frame(a1: Seq<Stmt>, a2: Seq<Stmt>, ss: Seq<Stmt>, n: int)
    requires
        stmts_scoped(a1, ss, n),
        forall|k: int| 0 <= k < n ==> a1[k] == a2[k],
    ensures
        stmts_scoped(a2, ss, n),
    decreases n,
{
    if n > 0 && n <= ss.len() {
        lemma_stmts_scoped_frame(a1, a2, ss, n - 1);
    }
}

/// `a` is the class `cd` with the scope of every block of its method bodies built.
pub open spec fn class_scoped(a: ClassDef, cd: ClassDef) -> bool {
    &&& a.loc == cd.loc
    &&& a.name == cd.name
    &&& a.parent == cd.parent
    &&& a.sealed == cd.sealed
    &&& a.fields@ == cd.fields@
    &&& a.methods@.len() == cd.methods@.len()
    &&& forall|k: int| 0 <= k < cd.methods@.len() ==> {
        &&& same_method(cd.methods@[k], #[trigger] a.methods@[k])
        &&& stmt_scoped(Stmt::Block(a.methods@[k].body), Stmt::Block(cd.methods@[k].body))
    }
}

pub open spec fn classes_scoped(a: Seq<ClassDef>, cs: Seq<ClassDef>) -> bool {
    a.len() == cs.len() && forall|c: int| 0 <= c < cs.len() ==> class_scoped(#[trigger] a[c], cs[c])
}

/// The duplicate-local diagnostics of the first `k` method bodies of `cd`.
pub open spec fn class_scope_diags(cd: ClassDef, k: int) -> Seq<Diagnostic>
    decreases k,
{
    if k <= 0 {
        seq![]
    } else {
        class_scope_diags(cd, k - 1) + stmt_scope_diags(Stmt::Block(cd.methods@[k - 1].body))
    }
}

/// The duplicate-local diagnostics of the method bodies of the first `n` classes.
pub open spec fn body_scope_diags(cs: Seq<ClassDef>, n: int) -> Seq<Diagnostic>
    decreases n,
{
    if n <= 0 {
        seq![]
    } else {
        body_scope_diags(cs, n - 1) + class_scope_diags(cs[n - 1], cs[n - 1].methods@.len() as int)
    }
}

fn locals_of(stmts: &Vec<Stmt>) -> (r: Vec<(u64, Symbol)>)
    ensures
        r@ == local_decls(stmts@),
{
    let mut r: Vec<(u64, Symbol)> = Vec::new();
    let mut i: usize = 0;
    while i < stmts.len()
        invariant
            i <= stmts@.len(),
            r@ == local_decls(stmts@.subrange(0, i as int)),
        decreases stmts@.len() - i,
    {
        assert(stmts@.subrange(0, i + 1).drop_last() =~= stmts@.subrange(0, i as int));
        match &stmts[i] {
            Stmt::LocalVar(v) => r.push((v.name, Symbol { kind: SymKind::Var(v.ty), loc: v.loc })),
            _ => {},
        }
        i = i + 1;
    }
    assert(stmts@.subrange(0, i as int) =~= stmts@);
    r
}

/// Builds the scope of every block in `s`.
fn scope_stmt(s: Stmt, diags: &mut Vec<Diagnostic>) -> (r: Stmt)
    ensures
        final(diags)@ == old(diags)@ + stmt_scope_diags(s),
        stmt_scoped(r, s),
    decreases s,
{
    match s {
        Stmt::Block(b) => {
            let ghost stmts0 = b.stmts;
            let mut b = b;
            let decls = locals_of(&b.stmts);
            b.scope = build_scope(&decls, diags);
            let ghost d0 = diags@;
            let n = b.stmts.len();
            let mut i: usize = 0;
            assert(diags@ =~= d0 + stmts_scope_diags(stmts0@, 0));
            while i < n
                invariant
                    n == b.stmts@.len(),
                    n == stmts0@.len(),
                    i <= n,
                    s == Stmt::Block(Block { stmts: stmts0, scope: s->Block_0.scope }),
                    forall|j: int| i <= j < n ==> b.stmts@[j] == stmts0@[j],
                    stmts_scoped(b.stmts@, stmts0@, i as int),
                    b.scope.entries@ == block_scope_of(stmts0@),
                    diags@ == d0 + stmts_scope_diags(stmts0@, i as int),
                decreases n - i,
            {
                let ghost before = b.stmts@;
                let mut x = Stmt::Break(Loc { line: 0, col: 0 });
                std::mem::swap(&mut b.stmts[i], &mut x);
                proof {
                    assert(x == stmts0@[i as int]);
                    assert(decreases_to!(s => s->Block_0));
                    assert(decreases_to!(s->Block_0 => s->Block_0.stmts));
                    assert(s->Block_0.stmts == stmts0);
                    assert(decreases_to!(stmts0 => stmts0[i as int])) by {
                        broadcast use vstd::std_specs::vec::axiom_vec_index_decreases;
                    }
                }
                let y = scope_stmt(x, diags);
                b.stmts.set(i, y);
                proof {
                    lemma_stmts_scoped_frame(before, b.stmts@, stmts0@, i as int);
                }
                i = i + 1;
                assert(diags@ =~= d0 + stmts_scope_diags(stmts0@, i as int));
            }
            Stmt::Block(b)
        },
        Stmt::While(c, body) => {
            let body2 = scope_stmt(*body, diags);
            Stmt::While(c, Box::new(body2))
        },
        Stmt::For(init, c, update, body) => {
            let ghost d0 = diags@;
            let i2 = scope_stmt(*init, diags);
            let u2 = scope_stmt(*update, diags);
            let b2 = scope_stmt(*body, diags);
            assert(diags@ =~= d0 + stmt_scope_diags(s));
            Stmt::For(Box::new(i2), c, Box::new(u2), Box::new(b2))
        },
        Stmt::Foreach(v, e, body) => {
            let b2 = scope_stmt(*body, diags);
            Stmt::Foreach(v, e, Box::new(b2))
        },
        Stmt::If(c, t, e) => {
            let ghost d0 = diags@;
            let t2 = scope_stmt(*t, diags);
            let e2 = match e {
                Some(x) => Some(Box::new(scope_stmt(*x, diags))),
                None => None,
            };
            assert(diags@ =~= d0 + stmt_scope_diags(s));
            Stmt::If(c, Box::new(t2), e2)
        },
        Stmt::Expr(e) => {
            assert(diags@ =~= old(diags)@ + stmt_scope_diags(s));
            Stmt::Expr(e)
        },
        Stmt::LocalVar(v) => {
            assert(diags@ =~= old(diags)@ + stmt_scope_diags(s));
            Stmt::LocalVar(v)
        },
        Stmt::Break(l) => {
            assert(diags@ =~= old(diags)@ + stmt_scope_diags(s));
            Stmt::Break(l)
        },
        Stmt::Return(l, v) => {
            assert(diags@ =~= old(diags)@ + stmt_scope_diags(s));
            Stmt::Return(l, v)
        },
    }
}

/// Builds the scope of every block of every method body.
pub(crate) fn scope_bodies(classes: &mut Vec<ClassDef>, diags: &mut Vec<Diagnostic>)
    ensures
        classes_scoped(final(classes)@, old(classes)@),
        final(diags)@ == old(diags)@ + body_scope_diags(old(classes)@, old(classes)@.len() as int),
{
    let ghost cs = classes@;
    let n = classes.len();
    let mut c: usize = 0;
    assert(diags@ =~= old(diags)@ + body_scope_diags(cs, 0));
    while c < n
        invariant
            n == classes@.len(),
            n == cs.len(),
            cs == old(classes)@,
            c <= n,
            forall|j: int| c <= j < n ==> classes@[j] == cs[j],
            forall|j: int| 0 <= j < c ==> class_scoped(#[trigger] classes@[j], cs[j]),
            diags@ == old(diags)@ + body_scope_diags(cs, c as int),
        decreases n - c,
    {
        let ghost d0 = diags@;
        let ghost cd0 = cs[c as int];
        let m = classes[c].methods.len();
        let mut k: usize = 0;
        assert(diags@ =~= d0 + class_scope_diags(cd0, 0));
        while k < m
            invariant
                n == classes@.len(),
                c < n,
                m == cd0.methods@.len(),
                m == classes@[c as int].methods@.len(),
                k <= m,
                forall|j: int| 0 <= j < n && j != c ==> classes@[j] == old(classes)@[j] || j < c,
                forall|j: int| c < j < n ==> classes@[j] == cs[j],
                forall|j: int| 0 <= j < c ==> class_scoped(#[trigger] classes@[j], cs[j]),
                cs[c as int] == cd0,
                classes@[c as int].loc == cd0.loc,
                classes@[c as int].name == cd0.name,
                classes@[c as int].parent == cd0.parent,
                classes@[c as int].sealed == cd0.sealed,
                classes@[c as int].fields@ == cd0.fields@,
                forall|q: int| k <= q < m ==> classes@[c as int].methods@[q] == cd0.methods@[q],
                forall|q: int| 0 <= q < k ==> {
                    &&& same_method(cd0.methods@[q], #[trigger] classes@[c as int].methods@[q])
                    &&& stmt_scoped(Stmt::Block(classes@[c as int].methods@[q].body), Stmt::Block(cd0.methods@[q].body))
                },
                diags@ == d0 + class_scope_diags(cd0, k as int),
            decreases m - k,
        {
            let mut body = Block { stmts: Vec::new(), scope: Scope::new() };
            std::mem::swap(&mut classes[c].methods[k].body, &mut body);
            let r = scope_stmt(Stmt::Block(body), diags);
            if let Stmt::Block(b) = r {
                classes[c].methods[k].body = b;
            }
            k = k + 1;
            assert(diags@ =~= d0 + class_scope_diags(cd0, k as int));
        }
        c = c + 1;
        assert(diags@ =~= old(diags)@ + body_scope_diags(cs, c as int));
    }
}

} // verus!
