//! Class registration and the inheritance hierarchy: the global class table,
//! memoized inheritance depths with cycle detection, and parent validation.
use vstd::prelude::*;
use crate::ast::{ClassDef, Program};
use crate::diag::{report, DiagKind, Diagnostic};
use crate::scope::{declare_all, declare_diags, has_key, scope_get, Scope, SymKind, Symbol};

verus! {

/// Each class name bound to its class, in declaration order.
pub open spec fn class_decls(cs: Seq<ClassDef>) -> Seq<(u64, Symbol)> {
    Seq::new(cs.len(), |i: int| (cs[i].name, Symbol { kind: SymKind::Class(i as usize), loc: cs[i].loc }))
}

/// The global scope of `cs`: each name bound to its first declaration.
pub open spec fn global_of(cs: Seq<ClassDef>) -> Seq<(u64, Symbol)> {
    declare_all(Seq::empty(), class_decls(cs))
}

/// The conflict diagnostics of registering `cs`.
pub open spec fn registration_diags(cs: Seq<ClassDef>) -> Seq<Diagnostic> {
    declare_diags(Seq::empty(), class_decls(cs))
}

/// The index of the class that the name `name` resolves to in `cs`.
pub open spec fn class_index(cs: Seq<ClassDef>, name: u64) -> Option<int> {
    match scope_get(global_of(cs), name) {
        Some(sym) => match sym.kind {
            SymKind::Class(j) => if j < cs.len() { Some(j as int) } else { None },
            _ => None,
        },
        None => None,
    }
}

/// The index of the class that class `i` names as its parent.
pub open spec fn parent_index(cs: Seq<ClassDef>, i: int) -> Option<int> {
    match cs[i].parent {
        Some(n) => class_index(cs, n),
        None => None,
    }
}

pub open spec fn parent_indices(cs: Seq<ClassDef>) -> Seq<Option<int>> {
    Seq::new(cs.len(), |i: int| parent_index(cs, i))
}

/// The depth of class `i` under the parent map `pf`, if its ancestor chain
/// reaches a root class within `fuel` classes.
pub open spec fn depth_within(pf: Seq<Option<int>>, i: int, fuel: nat) -> Option<nat>
    decreases fuel,
{
    if fuel == 0 {
        None
    } else {
        match pf[i] {
            None => Some(1),
            Some(p) => match depth_within(pf, p, (fuel - 1) as nat) {
                Some(d) => Some(d + 1),
                None => None,
            },
        }
    }
}

/// The inheritance depth of class `i`: 1 for a root class, the parent's depth
/// plus one otherwise; `None` where the ancestor chain is cyclic (no chain
/// through distinct classes can be longer than the number of classes).
pub open spec fn order_of(cs: Seq<ClassDef>, i: int) -> Option<nat> {
    depth_within(parent_indices(cs), i, cs.len())
}

pub open spec fn parent_ok(pf: Seq<Option<int>>) -> bool {
    forall|i: int| 0 <= i < pf.len() ==> match #[trigger] pf[i] {
        Some(p) => 0 <= p < pf.len(),
        None => true,
    }
}

proof fn lemma_depth_bounds(pf: Seq<Option<int>>, i: int, f: nat)
    requires
        parent_ok(pf),
        0 <= i < pf.len(),
        depth_within(pf, i, f) is Some,
    ensures
        1 <= depth_within(pf, i, f)->0 <= f,
    decreases f,
{
    match pf[i] {
        None => {},
        Some(p) => {
            lemma_depth_bounds(pf, p, (f - 1) as nat);
        },
    }
}

/// More fuel than a depth needs does not change it.
proof fn lemma_depth_stable(pf: Seq<Option<int>>, i: int, f: nat, f2: nat)
    requires
        parent_ok(pf),
        0 <= i < pf.len(),
        depth_within(pf, i, f) is Some,
        f2 >= depth_within(pf, i, f)->0,
    ensures
        depth_within(pf, i, f2) == depth_within(pf, i, f),
    decreases f,
{
    lemma_depth_bounds(pf, i, f);
    match pf[i] {
        None => {},
        Some(p) => {
            lemma_depth_stable(pf, p, (f - 1) as nat, (f2 - 1) as nat);
        },
    }
}

/// Registers every class in the global scope, first declaration winning.
pub(crate) fn register(classes: &Vec<ClassDef>, diags: &mut Vec<Diagnostic>) -> (r: Scope)
    ensures
        r.wf(),
        r.entries@ == global_of(classes@),
        final(diags)@ == old(diags)@ + registration_diags(classes@),
{
    let ghost decls = class_decls(classes@);
    let mut scope = Scope::new();
    let mut i: usize = 0;
    assert(decls.subrange(0, 0) =~= Seq::<(u64, Symbol)>::empty());
    assert(diags@ =~= old(diags)@ + declare_diags(Seq::empty(), decls.subrange(0, 0)));
    while i < classes.len()
        invariant
            i <= classes@.len(),
            decls == class_decls(classes@),
            scope.wf(),
            scope.entries@ == declare_all(Seq::empty(), decls.subrange(0, i as int)),
            diags@ == old(diags)@ + declare_diags(Seq::empty(), decls.subrange(0, i as int)),
        decreases classes@.len() - i,
    {
        let c = &classes[i];
        let ghost pre = decls.subrange(0, i + 1);
        assert(pre.drop_last() =~= decls.subrange(0, i as int));
        scope.declare(c.name, Symbol { kind: SymKind::Class(i), loc: c.loc }, diags);
        i = i + 1;
        assert(diags@ =~= old(diags)@ + declare_diags(Seq::empty(), decls.subrange(0, i as int)));
    }
    assert(decls.subrange(0, i as int) =~= decls);
    scope
}

/// The class that `name` resolves to in the global scope.
pub(crate) fn find_class(global: &Scope, n: usize, name: u64) -> (r: Option<usize>)
    requires
        global.wf(),
    ensures
        r == (match scope_get(global.entries@, name) {
            Some(sym) => match sym.kind {
                SymKind::Class(j) => if j < n { Some(j) } else { None },
                _ => None,
            },
            None => None,
        }),
{
    match global.get(name) {
        Some(sym) => match sym.kind {
            SymKind::Class(j) => if j < n { Some(j) } else { None },
            _ => None,
        },
        None => None,
    }
}

impl Program {
    /// The index of the class named `name` in a resolved program: the first
    /// class declared under that name. Block scoping does not affect it.
    pub fn find_class(&self, name: u64) -> (r: Option<usize>)
        requires
            self.scope.wf(),
            self.scope.entries@ == global_of(self.classes@),
        ensures
            as_int(r) == class_index(self.classes@, name),
    {
        find_class(&self.scope, self.classes.len(), name)
    }
}

/// The parent index of every class.
fn parents_of(classes: &Vec<ClassDef>, global: &Scope) -> (r: Vec<Option<usize>>)
    requires
        global.wf(),
        global.entries@ == global_of(classes@),
    ensures
        r@.len() == classes@.len(),
        forall|i: int| 0 <= i < r@.len() ==> match #[trigger] r@[i] {
            Some(p) => parent_index(classes@, i) == Some(p as int),
            None => parent_index(classes@, i) is None,
        },
{
    let mut r: Vec<Option<usize>> = Vec::new();
    let mut i: usize = 0;
    while i < classes.len()
        invariant
            i <= classes@.len(),
            global.wf(),
            global.entries@ == global_of(classes@),
            r@.len() == i,
            forall|k: int| 0 <= k < i ==> match #[trigger] r@[k] {
                Some(p) => parent_index(classes@, k) == Some(p as int),
                None => parent_index(classes@, k) is None,
            },
        decreases classes@.len() - i,
    {
        let p = match classes[i].parent {
            Some(name) => find_class(global, classes.len(), name),
            None => None,
        };
        r.push(p);
        i = i + 1;
    }
    r
}

/// What is known of one class's inheritance depth.
#[derive(Clone, Copy, Debug, PartialEq, Eq, Structural)]
pub enum Mark {
    Unvisited,
    /// On the chain being walked.
    InProgress,
    Done(usize),
    Cyclic,
}

pub open spec fn as_int(p: Option<usize>) -> Option<int> {
    match p {
        Some(x) => Some(x as int),
        None => None,
    }
}

/// The parent map of `parents`, with indices as integers.
pub open spec fn parent_map(parents: Seq<Option<usize>>) -> Seq<Option<int>> {
    parents.map_values(|p: Option<usize>| as_int(p))
}

/// The memo table agrees with the depth of every class it has settled, and
/// no walk is under way.
pub open spec fn memo_ok(pf: Seq<Option<int>>, marks: Seq<Mark>) -> bool {
    &&& marks.len() == pf.len()
    &&& forall|j: int| 0 <= j < marks.len() ==> match #[trigger] marks[j] {
        Mark::Done(d) => depth_within(pf, j, pf.len()) == Some(d as nat),
        Mark::Cyclic => depth_within(pf, j, pf.len()) is None,
        Mark::Unvisited => true,
        Mark::InProgress => false,
    }
    &&& settled_closed(pf, marks)
}

/// The parent of a settled class is settled one level lower, and a settled
/// root has depth 1.
pub open spec fn settled_closed(pf: Seq<Option<int>>, marks: Seq<Mark>) -> bool {
    forall|j: int| 0 <= j < marks.len() && (#[trigger] marks[j]) is Done ==> match pf[j] {
        None => marks[j]->Done_0 == 1,
        Some(p) => marks[j]->Done_0 >= 1 && marks[p] == Mark::Done((marks[j]->Done_0 - 1) as usize),
    }
}

/// In a closed table, a settled class has every ancestor settled at its depth.
proof fn lemma_settled_chain(pf: Seq<Option<int>>, marks: Seq<Mark>, x: int, d: usize, t: nat, y: int)
    requires
        parent_ok(pf),
        marks.len() == pf.len(),
        settled_closed(pf, marks),
        0 <= x < pf.len(),
        marks[x] == Mark::Done(d),
        t < d,
        anc(pf, x, t) == Some(y),
    ensures
        marks[y] == Mark::Done((d - t) as usize),
    decreases t,
{
    if t > 0 {
        assert(marks[x] is Done);
        let p = pf[x]->0;
        lemma_settled_chain(pf, marks, p, (d - 1) as usize, (t - 1) as nat, y);
    }
}

pub open spec fn shift(d: Option<nat>, k: nat) -> Option<nat> {
    match d {
        Some(x) => Some(x + k),
        None => None,
    }
}

/// The `m`-th ancestor of `x` under the parent map `pf`.
pub open spec fn anc(pf: Seq<Option<int>>, x: int, m: nat) -> Option<int>
    decreases m,
{
    if m == 0 {
        Some(x)
    } else {
        match pf[x] {
            None => None,
            Some(p) => anc(pf, p, (m - 1) as nat),
        }
    }
}

proof fn lemma_anc_step(pf: Seq<Option<int>>, x: int, m: nat, y: int, p: int)
    requires
        anc(pf, x, m) == Some(y),
        pf[y] == Some(p),
    ensures
        anc(pf, x, m + 1) == Some(p),
    decreases m,
{
    if m == 0 {
        assert(anc(pf, p, 0) == Some(p));
    } else {
        assert(pf[x] is Some);
        lemma_anc_step(pf, pf[x]->0, (m - 1) as nat, y, p);
    }
}

/// Past the `m`-th ancestor, a depth counts `m` fewer classes.
proof fn lemma_depth_unroll(pf: Seq<Option<int>>, x: int, f: nat, m: nat, z: int)
    requires
        depth_within(pf, x, f) is Some,
        anc(pf, x, m) == Some(z),
        m < depth_within(pf, x, f)->0,
    ensures
        m <= f,
        depth_within(pf, z, (f - m) as nat) == Some((depth_within(pf, x, f)->0 - m) as nat),
    decreases m,
{
    if m > 0 {
        lemma_depth_unroll(pf, pf[x]->0, (f - 1) as nat, (m - 1) as nat, z);
    }
}

/// A chain of depth `d` has no `d`-th ancestor.
proof fn lemma_depth_ends(pf: Seq<Option<int>>, x: int, f: nat, m: nat)
    requires
        depth_within(pf, x, f) is Some,
        m >= depth_within(pf, x, f)->0,
    ensures
        anc(pf, x, m) is None,
    decreases m,
{
    match pf[x] {
        None => {},
        Some(p) => {
            lemma_depth_ends(pf, p, (f - 1) as nat, (m - 1) as nat);
        },
    }
}

/// A chain that visits one class twice reaches no root.
proof fn lemma_revisit_cyclic(pf: Seq<Option<int>>, i: int, j: nat, k: nat, y: int, f: nat)
    requires
        parent_ok(pf),
        0 <= i < pf.len(),
        0 <= y < pf.len(),
        j < k,
        anc(pf, i, j) == Some(y),
        anc(pf, i, k) == Some(y),
    ensures
        depth_within(pf, i, f) is None,
{
    if depth_within(pf, i, f) is Some {
        let d = depth_within(pf, i, f)->0;
        lemma_depth_bounds(pf, i, f);
        if k >= d {
            lemma_depth_ends(pf, i, f, k);
        } else {
            lemma_depth_unroll(pf, i, f, j, y);
            lemma_depth_unroll(pf, i, f, k, y);
            lemma_depth_stable(pf, y, (f - k) as nat, (f - j) as nat);
        }
    }
}

/// The depth of class `i`, memoized in `marks`. A class settled earlier is
/// answered from `marks` and left as it is. Otherwise the walk up from `i`
/// marks each class it passes as in progress, and stops at a root, at a
/// settled ancestor, or at a class it has marked (a cycle). When a depth is
/// found, every class walked past is settled at its own depth.
#[verifier::rlimit(60)]
fn calc_order(parents: &Vec<Option<usize>>, marks: &mut Vec<Mark>, i: usize) -> (r: Option<usize>)
    requires
        i < parents@.len(),
        parent_ok(parent_map(parents@)),
        memo_ok(parent_map(parents@), old(marks)@),
    ensures
        as_int_nat(r) == depth_within(parent_map(parents@), i as int, parents@.len() as nat),
        memo_ok(parent_map(parents@), final(marks)@),
        final(marks)@[i as int] == (match r {
            Some(d) => Mark::Done(d),
            None => Mark::Cyclic,
        }),
        forall|j: int| 0 <= j < parents@.len() && old(marks)@[j] != Mark::Unvisited ==> #[trigger] final(marks)@[j] == old(marks)@[j],
        old(marks)@[i as int] != Mark::Unvisited ==> final(marks)@ == old(marks)@,
        forall|j: int| 0 <= j < parents@.len() && #[trigger] final(marks)@[j] != old(marks)@[j] ==> exists|t: nat| anc(
            parent_map(parents@),
            i as int,
            t,
        ) == Some(j),
        forall|t: nat| #![trigger anc(parent_map(parents@), i as int, t)] r is Some && t < r->0 && anc(parent_map(parents@), i as int, t) is Some
            ==> final(marks)@[anc(parent_map(parents@), i as int, t)->0] == Mark::Done((r->0 - t) as usize),
{
    let ghost pf = parent_map(parents@);
    let n = parents.len();
    match marks[i] {
        Mark::Done(d) => {
            proof {
                assert forall|t: nat| #![trigger anc(pf, i as int, t)] t < d && anc(pf, i as int, t) is Some implies marks@[anc(pf, i as int, t)->0]
                    == Mark::Done((d - t) as usize) by {
                    lemma_settled_chain(pf, marks@, i as int, d, t, anc(pf, i as int, t)->0);
                }
            }
            return Some(d);
        },
        Mark::Cyclic => return None,
        _ => {},
    }
    assert(marks@[i as int] == Mark::Unvisited) by {
        assert(memo_ok(pf, marks@));
    }
    let ghost m0 = marks@;
    let mut path: Vec<usize> = Vec::new();
    let mut cur: usize = i;
    let mut k: usize = 0;
    let result: Option<usize>;
    loop
        invariant_except_break
            path@.len() == k,
            k > 0 ==> pf[path@[k - 1] as int] == Some(cur as int),
        invariant
            n == parents@.len(),
            i < n,
            pf == parent_map(parents@),
            parent_ok(pf),
            marks@.len() == n,
            cur < n,
            k <= n,
            m0[i as int] == Mark::Unvisited,
            memo_ok(pf, m0),
            anc(pf, i as int, k as nat) == Some(cur as int),
            forall|t: int| 0 <= t < path@.len() ==> anc(pf, i as int, t as nat) == Some(#[trigger] path@[t] as int) && path@[t] < n,
            forall|t: int| 0 <= t < path@.len() ==> marks@[#[trigger] path@[t] as int] == Mark::InProgress,
            forall|t: int| 0 <= t && t + 1 < path@.len() ==> pf[#[trigger] path@[t] as int] == Some(path@[t + 1] as int),
            forall|j: int| 0 <= j < n && m0[j] != Mark::Unvisited ==> #[trigger] marks@[j] == m0[j],
            forall|j: int| 0 <= j < n && marks@[j] != m0[j] ==> #[trigger] marks@[j] == Mark::InProgress,
            forall|j: int| 0 <= j < n ==> match #[trigger] marks@[j] {
                Mark::Done(d) => depth_within(pf, j, n as nat) == Some(d as nat),
                Mark::Cyclic => depth_within(pf, j, n as nat) is None,
                Mark::Unvisited => true,
                Mark::InProgress => exists|t: int| 0 <= t < path@.len() && path@[t] == j,
            },
            settled_closed(pf, marks@),
            depth_within(pf, i as int, n as nat) == shift(depth_within(pf, cur as int, (n - k) as nat), k as nat),
        ensures
            marks@.len() == n,
            forall|t: int| 0 <= t < path@.len() ==> anc(pf, i as int, t as nat) == Some(#[trigger] path@[t] as int) && path@[t] < n,
            forall|t: int| 0 <= t < path@.len() ==> marks@[#[trigger] path@[t] as int] == Mark::InProgress,
            forall|t: int| 0 <= t && t + 1 < path@.len() ==> pf[#[trigger] path@[t] as int] == Some(path@[t + 1] as int),
            forall|j: int| 0 <= j < n && m0[j] != Mark::Unvisited ==> #[trigger] marks@[j] == m0[j],
            forall|j: int| 0 <= j < n && marks@[j] != m0[j] ==> #[trigger] marks@[j] == Mark::InProgress,
            forall|j: int| 0 <= j < n ==> match #[trigger] marks@[j] {
                Mark::Done(d) => depth_within(pf, j, n as nat) == Some(d as nat),
                Mark::Cyclic => depth_within(pf, j, n as nat) is None,
                Mark::Unvisited => true,
                Mark::InProgress => exists|t: int| 0 <= t < path@.len() && path@[t] == j,
            },
            settled_closed(pf, marks@),
            as_int_nat(result) == depth_within(pf, i as int, n as nat),
            result is Some ==> path@.len() > 0 && result->0 >= path@.len() && match pf[path@[path@.len() - 1] as int] {
                None => result->0 == path@.len(),
                Some(q) => marks@[q] == Mark::Done((result->0 - path@.len()) as usize),
            },
        decreases n - k,
    {
        if k == n {
            result = None;
            break;
        }
        match marks[cur] {
            Mark::Done(d) => {
                proof {
                    assert(marks@[cur as int] == Mark::Done(d));
                    assert(marks@[cur as int] == m0[cur as int]);
                    assert(k > 0);
                    lemma_depth_bounds(pf, cur as int, n as nat);
                    if d <= n - k {
                        lemma_depth_stable(pf, cur as int, n as nat, (n - k) as nat);
                    }
                    if depth_within(pf, cur as int, (n - k) as nat) is Some {
                        lemma_depth_bounds(pf, cur as int, (n - k) as nat);
                        lemma_depth_stable(pf, cur as int, (n - k) as nat, n as nat);
                    }
                }
                if d <= n - k {
                    result = Some(d + k);
                } else {
                    result = None;
                }
                break;
            },
            Mark::Cyclic => {
                proof {
                    assert(marks@[cur as int] == Mark::Cyclic);
                    if depth_within(pf, cur as int, (n - k) as nat) is Some {
                        lemma_depth_bounds(pf, cur as int, (n - k) as nat);
                        lemma_depth_stable(pf, cur as int, (n - k) as nat, n as nat);
                    }
                }
                result = None;
                break;
            },
            Mark::InProgress => {
                proof {
                    assert(marks@[cur as int] == Mark::InProgress);
                    let t = choose|t: int| 0 <= t < path@.len() && path@[t] == cur as int;
                    lemma_revisit_cyclic(pf, i as int, t as nat, k as nat, cur as int, n as nat);
                }
                result = None;
                break;
            },
            Mark::Unvisited => {
                let ghost old_marks = marks@;
                let ghost old_path = path@;
                marks.set(cur, Mark::InProgress);
                path.push(cur);
                proof {
                    assert(path@ == old_path.push(cur));
                    assert forall|j: int| 0 <= j < n implies match #[trigger] marks@[j] {
                        Mark::Done(d) => depth_within(pf, j, n as nat) == Some(d as nat),
                        Mark::Cyclic => depth_within(pf, j, n as nat) is None,
                        Mark::Unvisited => true,
                        Mark::InProgress => exists|t: int| 0 <= t < path@.len() && path@[t] == j,
                    } by {
                        if j == cur as int {
                            assert(path@[k as int] == j);
                        } else {
                            assert(marks@[j] == old_marks[j]);
                            if marks@[j] == Mark::InProgress {
                                assert(old_marks[j] == Mark::InProgress);
                                let t = choose|t: int| 0 <= t < old_path.len() && old_path[t] == j;
                                assert(path@[t] == j);
                            }
                        }
                    }
                    assert forall|t: int| 0 <= t < path@.len() implies marks@[#[trigger] path@[t] as int] == Mark::InProgress by {
                        if t < k {
                            assert(path@[t] == old_path[t]);
                            assert(old_marks[old_path[t] as int] == Mark::InProgress);
                        }
                    }
                    assert forall|t: int| 0 <= t && t + 1 < path@.len() implies pf[#[trigger] path@[t] as int] == Some(path@[t + 1] as int) by {
                        if t + 1 < k {
                            assert(path@[t] == old_path[t] && path@[t + 1] == old_path[t + 1]);
                        } else {
                            assert(path@[t + 1] == cur);
                            assert(path@[t] == old_path[t]);
                        }
                    }
                    assert forall|j: int| 0 <= j < marks@.len() && (#[trigger] marks@[j]) is Done implies match pf[j] {
                        None => marks@[j]->Done_0 == 1,
                        Some(p) => marks@[j]->Done_0 >= 1 && marks@[p] == Mark::Done((marks@[j]->Done_0 - 1) as usize),
                    } by {
                        assert(marks@[j] == old_marks[j]);
                        assert(old_marks[j] is Done);
                        if let Some(p) = pf[j] {
                            assert(0 <= p < n);
                            assert(old_marks[p] is Done);
                        }
                    }
                }
                assert(pf[cur as int] == as_int(parents@[cur as int]));
                match parents[cur] {
                    None => {
                        result = Some(k + 1);
                        break;
                    },
                    Some(p) => {
                        proof {
                            lemma_anc_step(pf, i as int, k as nat, cur as int, p as int);
                        }
                        cur = p;
                        k = k + 1;
                    },
                }
            },
        }
    }
    match result {
        Some(d) => {
            let len = path.len();
            let mut t: usize = len;
            proof {
                lemma_depth_bounds(pf, i as int, n as nat);
            }
            while t > 0
                invariant
                    pf == parent_map(parents@),
                    parent_ok(pf),
                    memo_ok(pf, m0),
                    i < n,
                    n == parents@.len(),
                    len == path@.len(),
                    len > 0,
                    t <= len,
                    d >= len,
                    d <= n,
                    marks@.len() == n,
                    depth_within(pf, i as int, n as nat) == Some(d as nat),
                    forall|q: int| 0 <= q < len ==> anc(pf, i as int, q as nat) == Some(#[trigger] path@[q] as int) && path@[q] < n,
                    forall|q: int| 0 <= q && q + 1 < len ==> pf[#[trigger] path@[q] as int] == Some(path@[q + 1] as int),
                    match pf[path@[len - 1] as int] {
                        None => d == len,
                        Some(q) => marks@[q] == Mark::Done((d - len) as usize) && m0[q] == marks@[q],
                    },
                    forall|q: int| 0 <= q < t ==> marks@[#[trigger] path@[q] as int] == Mark::InProgress,
                    forall|q: int| t <= q < len ==> marks@[#[trigger] path@[q] as int] == Mark::Done((d - q) as usize),
                    forall|j: int| 0 <= j < n && #[trigger] marks@[j] != m0[j] ==> exists|q: int| 0 <= q < len && path@[q] == j,
                    forall|j: int| 0 <= j < n && m0[j] != Mark::Unvisited ==> #[trigger] marks@[j] == m0[j],
                    forall|j: int| 0 <= j < n ==> match #[trigger] marks@[j] {
                        Mark::Done(e) => depth_within(pf, j, n as nat) == Some(e as nat),
                        Mark::Cyclic => depth_within(pf, j, n as nat) is None,
                        Mark::Unvisited => true,
                        Mark::InProgress => exists|q: int| 0 <= q < t && path@[q] == j,
                    },
                    settled_closed(pf, marks@),
                decreases t,
            {
                let q: usize = t - 1;
                let y = path[q];
                let ghost before = marks@;
                proof {
                    lemma_depth_unroll(pf, i as int, n as nat, q as nat, y as int);
                    lemma_depth_bounds(pf, y as int, (n - q) as nat);
                    lemma_depth_stable(pf, y as int, (n - q) as nat, n as nat);
                    assert(before[y as int] == Mark::InProgress);
                    if m0[y as int] != Mark::Unvisited {
                        assert(before[y as int] == m0[y as int]);
                    }
                    assert(m0[y as int] == Mark::Unvisited);
                }
                marks.set(y, Mark::Done(d - q));
                proof {
                    assert forall|q2: int| 0 <= q2 < len && q2 != q as int implies path@[q2] != y by {
                        if q2 < q {
                            assert(before[path@[q2] as int] == Mark::InProgress);
                        } else {
                            assert(before[path@[q2] as int] == Mark::Done((d - q2) as usize));
                        }
                    }
                    assert forall|j: int| 0 <= j < n implies match #[trigger] marks@[j] {
                        Mark::Done(e) => depth_within(pf, j, n as nat) == Some(e as nat),
                        Mark::Cyclic => depth_within(pf, j, n as nat) is None,
                        Mark::Unvisited => true,
                        Mark::InProgress => exists|q3: int| 0 <= q3 < q && path@[q3] == j,
                    } by {
                        if j != y as int {
                            assert(marks@[j] == before[j]);
                            if marks@[j] == Mark::InProgress {
                                let q3 = choose|q3: int| 0 <= q3 < t && path@[q3] == j;
                                assert(q3 != q as int);
                            }
                        }
                    }
                    assert forall|j: int| 0 <= j < marks@.len() && (#[trigger] marks@[j]) is Done implies match pf[j] {
                        None => marks@[j]->Done_0 == 1,
                        Some(p) => marks@[j]->Done_0 >= 1 && marks@[p] == Mark::Done((marks@[j]->Done_0 - 1) as usize),
                    } by {
                        if j == y as int {
                            if (q as int) + 1 < len {
                                assert(pf[path@[q as int] as int] == Some(path@[q + 1] as int));
                                assert(before[path@[q + 1] as int] == Mark::Done((d - (q + 1)) as usize));
                            }
                        } else {
                            assert(marks@[j] == before[j]);
                            if let Some(p) = pf[j] {
                                assert(before[p] is Done);
                                assert(p != y as int);
                            }
                        }
                    }
                }
                t = q;
            }
            proof {
                assert(path@[0] == i);
            }
        },
        None => {
            let mut t: usize = 0;
            while t < path.len()
                invariant
                    pf == parent_map(parents@),
                    parent_ok(pf),
                    memo_ok(pf, m0),
                    i < n,
                    n == parents@.len(),
                    t <= path@.len(),
                    marks@.len() == n,
                    forall|q: int| 0 <= q < path@.len() ==> #[trigger] path@[q] < n,
                    forall|q: int| 0 <= q < path@.len() ==> anc(pf, i as int, q as nat) == Some(#[trigger] path@[q] as int),
                    forall|j: int| 0 <= j < n && #[trigger] marks@[j] != m0[j] ==> exists|q: int| 0 <= q < path@.len() && path@[q] == j,
                    forall|j: int| 0 <= j < n && m0[j] != Mark::Unvisited ==> #[trigger] marks@[j] == m0[j],
                    forall|j: int| 0 <= j < n ==> match #[trigger] marks@[j] {
                        Mark::Done(d) => depth_within(pf, j, n as nat) == Some(d as nat),
                        Mark::Cyclic => depth_within(pf, j, n as nat) is None,
                        Mark::Unvisited => true,
                        Mark::InProgress => exists|q: int| t <= q < path@.len() && path@[q] == j,
                    },
                    settled_closed(pf, marks@),
                decreases path@.len() - t,
            {
                let ghost before = marks@;
                let y = path[t];
                proof {
                    if m0[y as int] != Mark::Unvisited {
                        assert(before[y as int] == m0[y as int]);
                    }
                }
                if marks[y] == Mark::InProgress {
                    marks.set(y, Mark::Unvisited);
                }
                proof {
                    assert forall|j: int| 0 <= j < n implies match #[trigger] marks@[j] {
                        Mark::Done(d) => depth_within(pf, j, n as nat) == Some(d as nat),
                        Mark::Cyclic => depth_within(pf, j, n as nat) is None,
                        Mark::Unvisited => true,
                        Mark::InProgress => exists|q: int| t + 1 <= q < path@.len() && path@[q] == j,
                    } by {
                        if j != y as int {
                            assert(marks@[j] == before[j]);
                            if marks@[j] == Mark::InProgress {
                                let q = choose|q: int| t <= q < path@.len() && path@[q] == j;
                                assert(q != t as int);
                            }
                        }
                    }
                    assert forall|j: int| 0 <= j < marks@.len() && (#[trigger] marks@[j]) is Done implies match pf[j] {
                        None => marks@[j]->Done_0 == 1,
                        Some(p) => marks@[j]->Done_0 >= 1 && marks@[p] == Mark::Done((marks@[j]->Done_0 - 1) as usize),
                    } by {
                        assert(marks@[j] == before[j]);
                        if let Some(p) = pf[j] {
                            assert(before[p] is Done);
                        }
                    }
                }
                t = t + 1;
            }
            marks.set(i, Mark::Cyclic);
            proof {
                assert forall|j: int| 0 <= j < marks@.len() && (#[trigger] marks@[j]) is Done implies match pf[j] {
                    None => marks@[j]->Done_0 == 1,
                    Some(p) => marks@[j]->Done_0 >= 1 && marks@[p] == Mark::Done((marks@[j]->Done_0 - 1) as usize),
                } by {
                    if let Some(p) = pf[j] {
                        assert(p != i as int);
                    }
                }
            }
        },
    }
    proof {
        assert forall|j: int| 0 <= j < marks@.len() implies match #[trigger] marks@[j] {
            Mark::Done(d) => depth_within(pf, j, pf.len()) == Some(d as nat),
            Mark::Cyclic => depth_within(pf, j, pf.len()) is None,
            Mark::Unvisited => true,
            Mark::InProgress => false,
        } by {
            if marks@[j] == Mark::InProgress {
                assert(false);
            }
        }
        assert forall|j: int| 0 <= j < n && #[trigger] marks@[j] != m0[j] implies exists|t: nat| anc(pf, i as int, t) == Some(j) by {
            if j == i as int {
                assert(anc(pf, i as int, 0) == Some(j));
            } else {
                let q = choose|q: int| 0 <= q < path@.len() && path@[q] == j;
                assert(anc(pf, i as int, q as nat) == Some(j));
            }
        }
        if let Some(d) = result {
            assert forall|t: nat| #![trigger anc(pf, i as int, t)] t < d && anc(pf, i as int, t) is Some implies marks@[anc(pf, i as int, t)->0]
                == Mark::Done((d - t) as usize) by {
                lemma_settled_chain(pf, marks@, i as int, d, t, anc(pf, i as int, t)->0);
            }
        }
    }
    result
}

pub open spec fn as_int_nat(r: Option<usize>) -> Option<nat> {
    match r {
        Some(x) => Some(x as nat),
        None => None,
    }
}

/// The diagnostic that inheritance resolution raises for class `i`, if any:
/// an unknown parent, a cyclic ancestor chain, or a sealed parent, in that
/// order of precedence.
pub open spec fn inherit_diag(cs: Seq<ClassDef>, i: int) -> Seq<Diagnostic> {
    match cs[i].parent {
        None => seq![],
        Some(n) => match parent_index(cs, i) {
            None => seq![Diagnostic { loc: cs[i].loc, kind: DiagKind::ClassNotFound { name: n } }],
            Some(p) => if order_of(cs, i) is None {
                seq![Diagnostic { loc: cs[i].loc, kind: DiagKind::CyclicInheritance }]
            } else if cs[p].sealed {
                seq![Diagnostic { loc: cs[i].loc, kind: DiagKind::SealedInheritance }]
            } else {
                seq![]
            },
        },
    }
}

/// The inheritance diagnostics of the first `n` classes, in class order.
pub open spec fn inherit_diags(cs: Seq<ClassDef>, n: int) -> Seq<Diagnostic>
    decreases n,
{
    if n <= 0 {
        seq![]
    } else {
        inherit_diags(cs, n - 1) + inherit_diag(cs, n - 1)
    }
}

/// The inheritance diagnostics of the first `n` classes hold those of each.
pub proof fn lemma_inherit_diags_hold(cs: Seq<ClassDef>, i: int, n: int)
    requires
        0 <= i < n,
    ensures
        forall|k: int| 0 <= k < inherit_diag(cs, i).len() ==> inherit_diags(cs, n).contains(#[trigger] inherit_diag(cs, i)[k]),
    decreases n,
{
    let prev = inherit_diags(cs, n - 1);
    assert forall|k: int| 0 <= k < inherit_diag(cs, i).len() implies inherit_diags(cs, n).contains(#[trigger] inherit_diag(cs, i)[k]) by {
        if i == n - 1 {
            assert(inherit_diags(cs, n)[prev.len() + k] == inherit_diag(cs, i)[k]);
        } else {
            lemma_inherit_diags_hold(cs, i, n - 1);
            let w = choose|w: int| 0 <= w < prev.len() && prev[w] == inherit_diag(cs, i)[k];
            assert(inherit_diags(cs, n)[w] == prev[w]);
        }
    }
}

/// The validated parent of class `i`: its parent exists, the chain is not
/// cyclic, and the parent is not sealed.
pub open spec fn linked_parent(cs: Seq<ClassDef>, i: int) -> Option<int> {
    match parent_index(cs, i) {
        Some(p) => if order_of(cs, i) is Some && !cs[p].sealed { Some(p) } else { None },
        None => None,
    }
}

/// The order recorded for class `i`: its depth, or 0 where the chain is cyclic.
pub open spec fn order_value(cs: Seq<ClassDef>, i: int) -> nat {
    match order_of(cs, i) {
        Some(d) => d,
        None => 0,
    }
}

/// Computes every class's order and validates every declared parent.
pub(crate) fn link_parents(classes: &Vec<ClassDef>, global: &Scope, diags: &mut Vec<Diagnostic>) -> (r: (Vec<usize>, Vec<Option<usize>>))
    requires
        global.wf(),
        global.entries@ == global_of(classes@),
    ensures
        r.0@.len() == classes@.len(),
        r.1@.len() == classes@.len(),
        forall|i: int| 0 <= i < classes@.len() ==> #[trigger] r.0@[i] as nat == order_value(classes@, i),
        forall|i: int| 0 <= i < classes@.len() ==> as_int(#[trigger] r.1@[i]) == linked_parent(classes@, i),
        final(diags)@ == old(diags)@ + inherit_diags(classes@, classes@.len() as int),
{
    let ghost cs = classes@;
    let parents = parents_of(classes, global);
    let ghost pf = parent_map(parents@);
    assert(pf =~= parent_indices(cs));
    let n = classes.len();
    let mut marks: Vec<Mark> = Vec::new();
    let mut j: usize = 0;
    while j < n
        invariant
            j <= n,
            n == cs.len(),
            marks@.len() == j,
            forall|k: int| 0 <= k < j ==> #[trigger] marks@[k] == Mark::Unvisited,
        decreases n - j,
    {
        marks.push(Mark::Unvisited);
        j = j + 1;
    }
    let mut orders: Vec<usize> = Vec::new();
    let mut links: Vec<Option<usize>> = Vec::new();
    let mut i: usize = 0;
    assert(diags@ =~= old(diags)@ + inherit_diags(cs, 0));
    while i < n
        invariant
            i <= n,
            n == cs.len(),
            cs == classes@,
            parents@.len() == n,
            pf == parent_map(parents@),
            pf == parent_indices(cs),
            parent_ok(pf),
            memo_ok(pf, marks@),
            orders@.len() == i,
            links@.len() == i,
            forall|k: int| 0 <= k < i ==> #[trigger] orders@[k] as nat == order_value(cs, k),
            forall|k: int| 0 <= k < i ==> as_int(#[trigger] links@[k]) == linked_parent(cs, k),
            diags@ == old(diags)@ + inherit_diags(cs, i as int),
        decreases n - i,
    {
        let ord = calc_order(&parents, &mut marks, i);
        let mut link: Option<usize> = None;
        assert(pf[i as int] == as_int(parents@[i as int]));
        match classes[i].parent {
            None => {},
            Some(name) => match parents[i] {
                None => report(diags, classes[i].loc, DiagKind::ClassNotFound { name }),
                Some(p) => {
                    if ord.is_none() {
                        report(diags, classes[i].loc, DiagKind::CyclicInheritance);
                    } else if classes[p].sealed {
                        report(diags, classes[i].loc, DiagKind::SealedInheritance);
                    } else {
                        link = Some(p);
                    }
                },
            },
        }
        match ord {
            Some(d) => orders.push(d),
            None => orders.push(0),
        }
        links.push(link);
        i = i + 1;
        assert(diags@ =~= old(diags)@ + inherit_diags(cs, i as int));
    }
    (orders, links)
}

/// The registration diagnostic of a second declaration `j` of the name of `i`.
pub open spec fn conflict_at(cs: Seq<ClassDef>, i: int, j: int) -> Diagnostic {
    Diagnostic { loc: cs[j].loc, kind: DiagKind::ConflictDeclaration { earlier: cs[i].loc, name: cs[i].name } }
}

/// The global scope after registering the first `m` classes when class `j`
/// repeats an earlier name: every class but `j`, in order.
pub open spec fn kept_decls(cs: Seq<ClassDef>, j: int, m: int) -> Seq<(u64, Symbol)> {
    if m <= j {
        class_decls(cs).subrange(0, m)
    } else {
        class_decls(cs).subrange(0, j) + class_decls(cs).subrange(j + 1, m)
    }
}

proof fn lemma_registration_prefix(cs: Seq<ClassDef>, i: int, j: int, m: int)
    requires
        0 <= i < j < cs.len(),
        cs[i].name == cs[j].name,
        forall|a: int, b: int| 0 <= a < b < cs.len() && cs[a].name == cs[b].name ==> a == i && b == j,
        0 <= m <= cs.len(),
    ensures
        declare_all(Seq::empty(), class_decls(cs).subrange(0, m)) == kept_decls(cs, j, m),
        declare_diags(Seq::empty(), class_decls(cs).subrange(0, m)) == (if m <= j {
            Seq::<Diagnostic>::empty()
        } else {
            seq![conflict_at(cs, i, j)]
        }),
    decreases m,
{
    let ds = class_decls(cs);
    if m == 0 {
        assert(ds.subrange(0, 0) =~= Seq::<(u64, Symbol)>::empty());
    } else {
        let k = m - 1;
        lemma_registration_prefix(cs, i, j, k);
        assert(ds.subrange(0, m).drop_last() =~= ds.subrange(0, k));
        let before = kept_decls(cs, j, k);
        if k == j {
            assert(before[i] == ds[i]);
            assert(has_key(before, cs[j].name));
            let w = choose|w: int| 0 <= w < before.len() && before[w].0 == cs[j].name;
            assert(before[w] == ds[w]);
            if w != i {
                if w < i {
                    assert(cs[w].name == cs[i].name);
                } else {
                    assert(cs[i].name == cs[w].name);
                }
            }
            assert(kept_decls(cs, j, m) =~= before);
            assert(declare_diags(Seq::empty(), ds.subrange(0, m)) =~= seq![conflict_at(cs, i, j)]);
        } else {
            assert forall|w: int| 0 <= w < before.len() implies before[w].0 != cs[k].name by {
                let a = if k < j || w < j { w } else { w + 1 };
                assert(before[w] == ds[a]);
                assert(a < k);
            }
            assert(!has_key(before, cs[k].name));
            assert(kept_decls(cs, j, m) =~= before.push(ds[k]));
            assert(declare_diags(Seq::empty(), ds.subrange(0, m)) =~= declare_diags(Seq::empty(), ds.subrange(0, k)));
        }
    }
}

/// Two classes `i < j` of one name, all other names distinct: registration
/// raises exactly one conflict, at `j` and naming `i`, and the name resolves
/// to `i`.
pub proof fn lemma_single_duplicate(cs: Seq<ClassDef>, i: int, j: int)
    requires
        0 <= i < j < cs.len(),
        cs.len() <= usize::MAX,
        cs[i].name == cs[j].name,
        forall|a: int, b: int| 0 <= a < b < cs.len() && cs[a].name == cs[b].name ==> a == i && b == j,
    ensures
        registration_diags(cs) == seq![conflict_at(cs, i, j)],
        class_index(cs, cs[i].name) == Some(i),
{
    let ds = class_decls(cs);
    lemma_registration_prefix(cs, i, j, cs.len() as int);
    assert(ds.subrange(0, cs.len() as int) =~= ds);
    let g = global_of(cs);
    assert(g == kept_decls(cs, j, cs.len() as int));
    assert(g[i] == ds[i]);
    assert(has_key(g, cs[i].name));
    let w = choose|w: int| 0 <= w < g.len() && g[w].0 == cs[i].name;
    let a = if w < j { w } else { w + 1 };
    assert(g[w] == ds[a]);
    if a != i {
        if a < i {
            assert(cs[a].name == cs[i].name);
        } else {
            assert(cs[i].name == cs[a].name);
        }
    }
    assert(a == i);
    assert(scope_get(g, cs[i].name) == Some(ds[i].1));
    assert(ds[i].1.kind == SymKind::Class(i as usize));
}

/// In a chain `a <- b <- c` whose top `a` names no parent, the orders are 1,
/// 2 and 3.
pub proof fn lemma_order_chain(cs: Seq<ClassDef>, a: int, b: int, c: int)
    requires
        0 <= a < cs.len(),
        0 <= b < cs.len(),
        0 <= c < cs.len(),
        parent_index(cs, a) is None,
        parent_index(cs, b) == Some(a),
        parent_index(cs, c) == Some(b),
    ensures
        order_of(cs, a) == Some(1nat),
        order_of(cs, b) == Some(2nat),
        order_of(cs, c) == Some(3nat),
{
    let pf = parent_indices(cs);
    let n = cs.len();
    assert(pf[a] is None && pf[b] == Some(a) && pf[c] == Some(b));
    assert(n >= 3);
    assert(depth_within(pf, a, n) == Some(1nat));
    assert(depth_within(pf, a, (n - 1) as nat) == Some(1nat));
    assert(depth_within(pf, a, (n - 2) as nat) == Some(1nat));
    assert(depth_within(pf, b, n) == Some(2nat));
    assert(depth_within(pf, b, (n - 1) as nat) == Some(2nat));
    assert(depth_within(pf, c, n) == Some(3nat));
}

proof fn lemma_two_cycle(pf: Seq<Option<int>>, i: int, j: int, f: nat)
    requires
        0 <= i < pf.len(),
        0 <= j < pf.len(),
        pf[i] == Some(j),
        pf[j] == Some(i),
    ensures
        depth_within(pf, i, f) is None,
        depth_within(pf, j, f) is None,
    decreases f,
{
    if f > 0 {
        lemma_two_cycle(pf, i, j, (f - 1) as nat);
    }
}

/// Two classes that name each other as parent: each gets a cyclic-inheritance
/// diagnostic, and neither is linked to a parent.
pub proof fn lemma_mutual_parents(cs: Seq<ClassDef>, i: int, j: int)
    requires
        0 <= i < cs.len(),
        0 <= j < cs.len(),
        parent_index(cs, i) == Some(j),
        parent_index(cs, j) == Some(i),
    ensures
        inherit_diag(cs, i) == seq![Diagnostic { loc: cs[i].loc, kind: DiagKind::CyclicInheritance }],
        inherit_diag(cs, j) == seq![Diagnostic { loc: cs[j].loc, kind: DiagKind::CyclicInheritance }],
        linked_parent(cs, i) is None,
        linked_parent(cs, j) is None,
{
    lemma_two_cycle(parent_indices(cs), i, j, cs.len());
}

/// Only the direct parent's seal matters: a class whose chain is acyclic gets
/// a sealed-inheritance diagnostic exactly when its parent is sealed, and is
/// linked to its parent otherwise, however deep the chain.
pub proof fn lemma_sealed_parent(cs: Seq<ClassDef>, i: int, p: int)
    requires
        0 <= i < cs.len(),
        parent_index(cs, i) == Some(p),
        order_of(cs, i) is Some,
    ensures
        cs[p].sealed ==> inherit_diag(cs, i) == seq![Diagnostic { loc: cs[i].loc, kind: DiagKind::SealedInheritance }],
        cs[p].sealed ==> linked_parent(cs, i) is None,
        !cs[p].sealed ==> inherit_diag(cs, i) == Seq::<Diagnostic>::empty(),
        !cs[p].sealed ==> linked_parent(cs, i) == Some(p),
{
}

} // verus!
