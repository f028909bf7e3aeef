//! The dependency rearranger: rewrites a flat recursive-binding block into
//! a minimal nesting of `Let`/`LetRec` blocks, ordered so that each block's
//! free dependencies are already bound.
//!
//! The strongly-connected-components step is `scc_grouping`, which builds
//! each binding's reachability set and groups mutually reachable bindings,
//! emitting components with the smaller reachability sets — the
//! dependencies — first.  Its contract carries the whole story: the groups
//! partition the bindings, every group is one dependency cycle, and every
//! cross-group edge points to an earlier group.  The classical linear-time
//! depth-first traversal computes the same partition, but its lowlink
//! argument resisted verification; the quadratic reachability form is the
//! one proved here.

use crate::ast::{
    clone_patterns, expr_view, exprs_view, lemma_exprs_view_index, lemma_exprs_view_len,
    lemma_exprs_view_push, names_view, Expr, ExprView,
};
use std::rc::Rc;
use vstd::prelude::*;

verus! {

/// The names of the block that the dependency scan finds inside one
/// definition, in scan order.  The scan matches free-standing names against
/// the block's name set; it does not exclude names re-bound by an inner
/// binder of the same spelling.
pub open spec fn deps_list(names: Seq<Seq<char>>, e: ExprView) -> Seq<Seq<char>>
    decreases e,
{
    match e {
        ExprView::Var { name, .. } => if names.contains(name) {
            seq![name]
        } else {
            Seq::empty()
        },
        ExprView::Lam { body, .. } => deps_list(names, *body),
        ExprView::App { func, arg } => deps_list(names, *func) + deps_list(names, *arg),
        ExprView::If { cond, then_branch, else_branch } => deps_list(names, *cond) + deps_list(
            names,
            *then_branch,
        ) + deps_list(names, *else_branch),
        ExprView::Case { scrutinee, branches, .. } => deps_seq(names, branches) + deps_list(
            names,
            *scrutinee,
        ),
        ExprView::Let { defs, body, .. } => deps_seq(names, defs) + deps_list(names, *body),
        ExprView::LetRec { defs, body, .. } => deps_seq(names, defs) + deps_list(names, *body),
        _ => Seq::empty(),
    }
}

/// The dependency scan over a list of expressions, in order.
pub open spec fn deps_seq(names: Seq<Seq<char>>, s: Seq<ExprView>) -> Seq<Seq<char>>
    decreases s,
{
    if s.len() == 0 {
        Seq::empty()
    } else {
        deps_seq(names, s.drop_last()) + deps_list(names, s.last())
    }
}

/// Binding `i` depends on binding `j`: the block name `names[j]` occurs in
/// the scan of `defs[i]`.
pub open spec fn depends_on(names: Seq<Seq<char>>, defs: Seq<ExprView>, i: int, j: int) -> bool {
    deps_list(names, defs[i]).contains(names[j])
}

/// No two of the names coincide.
pub open spec fn names_distinct(names: Seq<Seq<char>>) -> bool {
    forall|i: int, j: int| 0 <= i < j < names.len() ==> names[i] != names[j]
}

/// The tree holds no `Let` node: the rearranger's input is built of
/// `LetRec` blocks only, `Let` blocks being its own output.
pub open spec fn no_let(e: ExprView) -> bool
    decreases e,
{
    match e {
        ExprView::Let { .. } => false,
        ExprView::Lam { body, .. } => no_let(*body),
        ExprView::App { func, arg } => no_let(*func) && no_let(*arg),
        ExprView::If { cond, then_branch, else_branch } => no_let(*cond) && no_let(*then_branch)
            && no_let(*else_branch),
        ExprView::Case { scrutinee, branches, .. } => no_let(*scrutinee) && no_let_seq(branches),
        ExprView::LetRec { defs, body, .. } => no_let_seq(defs) && no_let(*body),
        _ => true,
    }
}

/// `no_let` over a list of expressions.
pub open spec fn no_let_seq(s: Seq<ExprView>) -> bool
    decreases s,
{
    if s.len() == 0 {
        true
    } else {
        no_let_seq(s.drop_last()) && no_let(s.last())
    }
}

/// Every recursive block in the tree binds as many names as it has
/// definitions, and binds each name once.
pub open spec fn blocks_wf(e: ExprView) -> bool
    decreases e,
{
    match e {
        ExprView::Lam { body, .. } => blocks_wf(*body),
        ExprView::App { func, arg } => blocks_wf(*func) && blocks_wf(*arg),
        ExprView::If { cond, then_branch, else_branch } => blocks_wf(*cond) && blocks_wf(
            *then_branch,
        ) && blocks_wf(*else_branch),
        ExprView::Case { scrutinee, branches, .. } => blocks_wf(*scrutinee) && blocks_wf_seq(
            branches,
        ),
        ExprView::LetRec { names, defs, body } => names.len() == defs.len() && names_distinct(
            names,
        ) && blocks_wf_seq(defs) && blocks_wf(*body),
        ExprView::Let { names, defs, body } => names.len() == defs.len() && names_distinct(names)
            && blocks_wf_seq(defs) && blocks_wf(*body),
        _ => true,
    }
}

/// `blocks_wf` over a list of expressions.
pub open spec fn blocks_wf_seq(s: Seq<ExprView>) -> bool
    decreases s,
{
    if s.len() == 0 {
        true
    } else {
        blocks_wf_seq(s.drop_last()) && blocks_wf(s.last())
    }
}

/// Index `i` stands in some group.
pub open spec fn covered(groups: Seq<Seq<usize>>, i: int) -> bool {
    exists|k: int, l: int|
        0 <= k < groups.len() && 0 <= l < groups[k].len() && #[trigger] groups[k][l] == i
}

/// The groups cover each of the indices `0..n` exactly once, and no group
/// is empty.
pub open spec fn covers_once(groups: Seq<Seq<usize>>, n: int) -> bool {
    &&& forall|k: int, l: int|
        0 <= k < groups.len() && 0 <= l < groups[k].len() ==> 0 <= #[trigger] groups[k][l] < n
    &&& forall|i: int| 0 <= i < n ==> #[trigger] covered(groups, i)
    &&& forall|k1: int, l1: int, k2: int, l2: int|
        0 <= k1 < groups.len() && 0 <= l1 < groups[k1].len() && 0 <= k2 < groups.len() && 0 <= l2
            < groups[k2].len() && #[trigger] groups[k1][l1] == #[trigger] groups[k2][l2] ==> k1
            == k2 && l1 == l2
    &&& forall|k: int| 0 <= k < groups.len() ==> #[trigger] groups[k].len() > 0
}

/// Every dependency of a binding is bound in its own group or in an outer
/// (earlier) one: groups are listed outermost first, and a cross-group
/// dependency always points to a strictly earlier group.
pub open spec fn group_order_ok(
    names: Seq<Seq<char>>,
    defs: Seq<ExprView>,
    groups: Seq<Seq<usize>>,
) -> bool {
    forall|k1: int, l1: int, k2: int, l2: int|
        0 <= k1 < groups.len() && 0 <= l1 < groups[k1].len() && 0 <= k2 < groups.len() && 0 <= l2
            < groups[k2].len() && k1 != k2 && depends_on(
            names,
            defs,
            #[trigger] groups[k1][l1] as int,
            #[trigger] groups[k2][l2] as int,
        ) ==> k2 < k1
}

/// Dependency reachability in any number of steps.
pub open spec fn dep_connected(names: Seq<Seq<char>>, defs: Seq<ExprView>, u: int, v: int) -> bool {
    exists|k: nat| dep_reaches(names, defs, u, v, k)
}

/// Every group is one dependency cycle: any two of its members reach each
/// other along dependency edges.  With `group_order_ok` this makes each
/// group exactly one strongly connected component — no binding outside a
/// cycle is ever trapped in a larger recursive group.
pub open spec fn groups_cyclic(
    names: Seq<Seq<char>>,
    defs: Seq<ExprView>,
    groups: Seq<Seq<usize>>,
) -> bool {
    forall|k: int, l1: int, l2: int|
        0 <= k < groups.len() && 0 <= l1 < groups[k].len() && 0 <= l2 < groups[k].len()
            ==> dep_connected(
            names,
            defs,
            #[trigger] groups[k][l1] as int,
            #[trigger] groups[k][l2] as int,
        )
}

/// A grouping the rearranger may emit: a partition of the bindings into
/// non-empty strongly connected groups, outermost first, that respects
/// the dependency order.
pub open spec fn valid_grouping(
    names: Seq<Seq<char>>,
    defs: Seq<ExprView>,
    groups: Seq<Seq<usize>>,
) -> bool {
    &&& covers_once(groups, names.len() as int)
    &&& group_order_ok(names, defs, groups)
    &&& groups_cyclic(names, defs, groups)
}

/// One emitted group wrapped around the accumulated expression: a
/// singleton group whose binding does not depend on itself becomes a
/// `Let`; a self-recursive singleton, or any larger group, becomes a
/// `LetRec`.
pub open spec fn wrap_group(
    names: Seq<Seq<char>>,
    defs: Seq<ExprView>,
    g: Seq<usize>,
    inner: ExprView,
) -> ExprView {
    if g.len() == 1 && !depends_on(names, defs, g[0] as int, g[0] as int) {
        ExprView::Let {
            names: seq![names[g[0] as int]],
            defs: seq![defs[g[0] as int]],
            body: Box::new(inner),
        }
    } else {
        ExprView::LetRec {
            names: g.map_values(|x: usize| names[x as int]),
            defs: g.map_values(|x: usize| defs[x as int]),
            body: Box::new(inner),
        }
    }
}

/// The nesting the ordered groups build around the body, outermost first.
pub open spec fn build_nesting(
    names: Seq<Seq<char>>,
    defs: Seq<ExprView>,
    groups: Seq<Seq<usize>>,
    body: ExprView,
) -> ExprView
    decreases groups.len(),
{
    if groups.len() == 0 {
        body
    } else {
        wrap_group(names, defs, groups[0], build_nesting(names, defs, groups.drop_first(), body))
    }
}

/// `b` is a rearrangement of `a`: every `LetRec` block of `a` has been
/// replaced, innermost first, by a valid grouping of its (recursively
/// rearranged) bindings built around its rearranged body, and every other
/// node is kept with its children rearranged.
///
/// The guarantee is structural: the bindings are partitioned (none lost,
/// duplicated or renamed), dependencies are bound outside-in, every group
/// is one dependency cycle (`groups_cyclic`), cycles are never split
/// across groups (`lemma_cycle_not_split`) — so the groups are exactly
/// the strongly connected components, the minimal nesting — and
/// singletons are classified by self-recursion.  It does not state that
/// reducing `b` equals reducing `a`: re-nesting invalidates the skip
/// depths, so the tree only regains a meaning once the resolver has run
/// again, and agreement after re-resolution rests on the resolver's
/// approximate context threading, which admits no exact general
/// statement; the runtime tests compare the two pipelines on concrete
/// programs instead.
pub open spec fn rearranged(a: ExprView, b: ExprView) -> bool
    decreases a,
{
    match a {
        ExprView::LetRec { names, defs, body } => exists|
            defs2: Seq<ExprView>,
            body2: ExprView,
            groups: Seq<Seq<usize>>,
        |
            {
                &&& defs2.len() == defs.len()
                &&& forall|i: int| 0 <= i < defs.len() ==> rearranged(#[trigger] defs[i], defs2[i])
                &&& rearranged(*body, body2)
                &&& valid_grouping(names, defs2, groups)
                &&& b == build_nesting(names, defs2, groups, body2)
            },
        ExprView::Let { .. } => false,
        ExprView::Lam { param, body } => match b {
            ExprView::Lam { param: p2, body: b2 } => p2 == param && rearranged(*body, *b2),
            _ => false,
        },
        ExprView::App { func, arg } => match b {
            ExprView::App { func: f2, arg: a2 } => rearranged(*func, *f2) && rearranged(*arg, *a2),
            _ => false,
        },
        ExprView::If { cond, then_branch, else_branch } => match b {
            ExprView::If { cond: c2, then_branch: t2, else_branch: e2 } => rearranged(*cond, *c2)
                && rearranged(*then_branch, *t2) && rearranged(*else_branch, *e2),
            _ => false,
        },
        ExprView::Case { scrutinee, patterns, branches } => match b {
            ExprView::Case { scrutinee: s2, patterns: p2, branches: b2 } => {
                &&& rearranged(*scrutinee, *s2)
                &&& p2 == patterns
                &&& b2.len() == branches.len()
                &&& forall|i: int|
                    0 <= i < branches.len() ==> rearranged(#[trigger] branches[i], b2[i])
            },
            _ => false,
        },
        _ => b == a,
    }
}

/// Reachability along graph edges within `k` steps.
pub open spec fn graph_reaches(ge: Seq<Seq<usize>>, u: int, v: int, k: nat) -> bool
    decreases k,
{
    u == v || (k > 0 && exists|t: int|
        0 <= t < ge[u].len() && graph_reaches(ge, #[trigger] ge[u][t] as int, v, (k - 1) as nat))
}

/// Reachability along graph edges, in any number of steps.
pub open spec fn graph_connected(ge: Seq<Seq<usize>>, u: int, v: int) -> bool {
    exists|k: nat| graph_reaches(ge, u, v, k)
}

/// One more edge at the end of a walk keeps it a walk.
proof fn lemma_reaches_append(ge: Seq<Seq<usize>>, u: int, x: int, t: int, k: nat)
    requires
        graph_reaches(ge, u, x, k),
        0 <= t < ge[x].len(),
    ensures
        graph_reaches(ge, u, ge[x][t] as int, (k + 1) as nat),
    decreases k,
{
    let w = ge[x][t] as int;
    if u == x {
        assert(graph_reaches(ge, w, w, 0nat));
        assert(graph_reaches(ge, u, w, 1nat));
        lemma_reaches_mono(ge, u, w, 1nat, (k + 1) as nat);
    } else {
        let t0 = choose|t0: int|
            0 <= t0 < ge[u].len() && graph_reaches(ge, #[trigger] ge[u][t0] as int, x, (k - 1) as nat);
        lemma_reaches_append(ge, ge[u][t0] as int, x, t, (k - 1) as nat);
    }
}

/// A walk within `k` steps is a walk within any larger bound.
proof fn lemma_reaches_mono(ge: Seq<Seq<usize>>, u: int, v: int, k: nat, k2: nat)
    requires
        graph_reaches(ge, u, v, k),
        k <= k2,
    ensures
        graph_reaches(ge, u, v, k2),
    decreases k,
{
    if u != v {
        let t = choose|t: int|
            0 <= t < ge[u].len() && graph_reaches(ge, #[trigger] ge[u][t] as int, v, (k - 1) as nat);
        lemma_reaches_mono(ge, ge[u][t] as int, v, (k - 1) as nat, (k2 - 1) as nat);
        assert(graph_reaches(ge, u, v, k2));
    }
}

/// Two walks joined end to start form one walk.
proof fn lemma_connected_concat(ge: Seq<Seq<usize>>, u: int, v: int, w: int)
    requires
        graph_connected(ge, u, v),
        graph_connected(ge, v, w),
    ensures
        graph_connected(ge, u, w),
{
    let k1 = choose|k1: nat| graph_reaches(ge, u, v, k1);
    let k2 = choose|k2: nat| graph_reaches(ge, v, w, k2);
    lemma_reaches_concat(ge, u, v, w, k1, k2);
}

/// The walk-level form of concatenation.
proof fn lemma_reaches_concat(ge: Seq<Seq<usize>>, u: int, v: int, w: int, k1: nat, k2: nat)
    requires
        graph_reaches(ge, u, v, k1),
        graph_reaches(ge, v, w, k2),
    ensures
        graph_reaches(ge, u, w, (k1 + k2) as nat),
    decreases k1,
{
    if u == v {
        lemma_reaches_mono(ge, v, w, k2, (k1 + k2) as nat);
    } else {
        let t = choose|t: int|
            0 <= t < ge[u].len() && graph_reaches(ge, #[trigger] ge[u][t] as int, v, (k1 - 1) as nat);
        lemma_reaches_concat(ge, ge[u][t] as int, v, w, (k1 - 1) as nat, k2);
        assert(graph_reaches(ge, u, w, (k1 + k2) as nat));
    }
}

/// A set of nodes closed under edges absorbs every walk that starts
/// inside it.
proof fn lemma_closed_absorbs(ge: Seq<Seq<usize>>, marked: Seq<bool>, u: int, v: int, k: nat)
    requires
        marked.len() == ge.len(),
        0 <= u < ge.len(),
        graph_wf(ge),
        forall|j: int, t: int|
            0 <= j < ge.len() && marked[j] && 0 <= t < ge[j].len() ==> marked[#[trigger] ge[j][t] as int],
        marked[u],
        graph_reaches(ge, u, v, k),
    ensures
        0 <= v < ge.len() ==> marked[v],
    decreases k,
{
    if u != v {
        let t = choose|t: int|
            0 <= t < ge[u].len() && graph_reaches(ge, #[trigger] ge[u][t] as int, v, (k - 1) as nat);
        assert(marked[ge[u][t] as int]);
        lemma_closed_absorbs(ge, marked, ge[u][t] as int, v, (k - 1) as nat);
    }
}

/// The number of marked entries.
pub open spec fn count_marked(s: Seq<bool>) -> nat
    decreases s.len(),
{
    if s.len() == 0 {
        0
    } else {
        count_marked(s.drop_last()) + (if s.last() {
            1nat
        } else {
            0nat
        })
    }
}

/// At most every entry is marked.
proof fn lemma_count_marked_le(s: Seq<bool>)
    ensures
        count_marked(s) <= s.len(),
    decreases s.len(),
{
    if s.len() > 0 {
        lemma_count_marked_le(s.drop_last());
    }
}

/// Marking one unmarked entry marks exactly one more.
proof fn lemma_count_marked_update(s: Seq<bool>, i: int)
    requires
        0 <= i < s.len(),
        !s[i],
    ensures
        count_marked(s.update(i, true)) == count_marked(s) + 1,
    decreases s.len(),
{
    let s2 = s.update(i, true);
    if i == s.len() - 1 {
        assert(s2.drop_last() =~= s.drop_last());
    } else {
        lemma_count_marked_update(s.drop_last(), i);
        assert(s2.drop_last() =~= s.drop_last().update(i, true));
        assert(s2.last() == s.last());
    }
}

/// A pointwise-smaller set has no more marks.
proof fn lemma_count_marked_subset(s1: Seq<bool>, s2: Seq<bool>)
    requires
        s1.len() == s2.len(),
        forall|j: int| 0 <= j < s1.len() && s1[j] ==> s2[j],
    ensures
        count_marked(s1) <= count_marked(s2),
    decreases s1.len(),
{
    if s1.len() > 0 {
        lemma_count_marked_subset(s1.drop_last(), s2.drop_last());
    }
}

/// A pointwise-smaller set missing a marked entry has strictly fewer
/// marks.
proof fn lemma_count_marked_strict(s1: Seq<bool>, s2: Seq<bool>, i: int)
    requires
        s1.len() == s2.len(),
        forall|j: int| 0 <= j < s1.len() && s1[j] ==> s2[j],
        0 <= i < s1.len(),
        !s1[i],
        s2[i],
    ensures
        count_marked(s1) < count_marked(s2),
    decreases s1.len(),
{
    if i == s1.len() - 1 {
        lemma_count_marked_subset(s1.drop_last(), s2.drop_last());
    } else {
        lemma_count_marked_strict(s1.drop_last(), s2.drop_last(), i);
    }
}

/// One edge extends connectivity.
proof fn lemma_connected_step(ge: Seq<Seq<usize>>, u: int, x: int, t: int)
    requires
        graph_connected(ge, u, x),
        0 <= t < ge[x].len(),
    ensures
        graph_connected(ge, u, ge[x][t] as int),
{
    let k = choose|k: nat| graph_reaches(ge, u, x, k);
    lemma_reaches_append(ge, u, x, t, k);
}

/// The set of nodes reachable from `start`, as a mark table: `start` is
/// marked, every marked node is reachable, and the marks are closed under
/// edges — so by `lemma_closed_absorbs` they are exactly the reachable
/// nodes.
#[verifier::loop_isolation(false)]
fn reach_set(graph: &Vec<Vec<usize>>, start: usize) -> (marked: Vec<bool>)
    requires
        graph_wf(graph@.map_values(|v: Vec<usize>| v@)),
        start < graph@.len(),
    ensures
        marked@.len() == graph@.len(),
        marked@[start as int],
        forall|j: int|
            0 <= j < marked@.len() && marked@[j] ==> graph_connected(
                graph@.map_values(|v: Vec<usize>| v@),
                start as int,
                j,
            ),
        forall|j: int, t: int|
            0 <= j < marked@.len() && marked@[j] && 0 <= t < graph@[j]@.len() ==> marked@[
                #[trigger] (graph@[j]@[t] as int)
            ],
{
    let ghost ge = graph@.map_values(|v: Vec<usize>| v@);
    let n = graph.len();
    let mut marked: Vec<bool> = Vec::new();
    let mut m: usize = 0;
    while m < n
        invariant
            0 <= m <= n,
            marked@.len() == m,
            forall|j: int| 0 <= j < m ==> !marked@[j],
        decreases n - m,
    {
        marked.push(false);
        m = m + 1;
    }
    proof {
        lemma_count_marked_le(marked@);
        lemma_count_marked_update(marked@, start as int);
    }
    marked.set(start, true);
    let mut queue: Vec<usize> = Vec::new();
    queue.push(start);
    proof {
        assert(graph_reaches(ge, start as int, start as int, 0nat));
        assert(graph_connected(ge, start as int, start as int));
        assert(queue@[0] == start);
        assert(queue@.contains(start));
    }
    while queue.len() > 0
        invariant
            marked@.len() == n,
            marked@[start as int],
            forall|q: int| 0 <= q < queue@.len() ==> (#[trigger] queue@[q]) < n && marked@[queue@[q] as int],
            forall|j: int| 0 <= j < n && marked@[j] ==> graph_connected(ge, start as int, j),
            forall|j: usize, t: int|
                j < n && marked@[j as int] && 0 <= t < ge[j as int].len() && !queue@.contains(j)
                    ==> marked@[#[trigger] ge[j as int][t] as int],
        decreases n - count_marked(marked@), queue@.len(),
    {
        let ghost c0 = count_marked(marked@);
        let ghost q0 = queue@;
        let x = match queue.pop() {
            Option::Some(x) => x,
            Option::None => {
                proof {
                    assert(false);
                }
                0
            },
        };
        proof {
            assert(q0[q0.len() - 1] == x);
            assert(marked@[x as int]);
            lemma_count_marked_le(marked@);
            assert forall|j: usize, t2: int|
                j < n && j != x && marked@[j as int] && 0 <= t2 < ge[j as int].len()
                    && !queue@.contains(j) implies marked@[#[trigger] ge[j as int][t2] as int] by {
                if q0.contains(j) {
                    let q = choose|q: int| 0 <= q < q0.len() && q0[q] == j;
                    assert(q < q0.len() - 1);
                    assert(queue@[q] == j);
                    assert(queue@.contains(j));
                    assert(false);
                }
            }
        }
        let en = graph[x].len();
        let mut t: usize = 0;
        while t < en
            invariant
                0 <= t <= en,
                en == ge[x as int].len(),
                x < n,
                marked@.len() == n,
                marked@[start as int],
                marked@[x as int],
                count_marked(marked@) >= c0,
                forall|q: int|
                    0 <= q < queue@.len() ==> (#[trigger] queue@[q]) < n && marked@[queue@[q] as int],
                forall|j: int| 0 <= j < n && marked@[j] ==> graph_connected(ge, start as int, j),
                forall|j: usize, t2: int|
                    j < n && j != x && marked@[j as int] && 0 <= t2 < ge[j as int].len()
                        && !queue@.contains(j) ==> marked@[#[trigger] ge[j as int][t2] as int],
                forall|t2: int| 0 <= t2 < t ==> marked@[ge[x as int][t2] as int],
                queue@.len() >= q0.len() - 1,
                count_marked(marked@) > c0 || queue@.len() == q0.len() - 1,
            decreases en - t,
        {
            let w = graph[x][t];
            proof {
                assert(ge[x as int][t as int] == w);
                assert(w < n);
            }
            if !marked[w] {
                proof {
                    lemma_count_marked_update(marked@, w as int);
                    lemma_connected_step(ge, start as int, x as int, t as int);
                }
                let ghost mk0 = marked@;
                marked.set(w, true);
                let ghost qb = queue@;
                queue.push(w);
                proof {
                    assert(forall|j: int| 0 <= j < n && j != w ==> marked@[j] == mk0[j]);
                    assert(forall|q: int| 0 <= q < qb.len() ==> queue@[q] == qb[q]);
                    assert forall|j: usize, t2: int|
                        j < n && j != x && marked@[j as int] && 0 <= t2 < ge[j as int].len()
                            && !queue@.contains(j) implies marked@[#[trigger] ge[j as int][t2] as int] by {
                        if j == w {
                            assert(queue@[queue@.len() - 1] == w);
                            assert(queue@.contains(j));
                        } else {
                            assert(mk0[j as int]);
                            if qb.contains(j) {
                                let q = choose|q: int| 0 <= q < qb.len() && qb[q] == j;
                                assert(queue@[q] == j);
                                assert(queue@.contains(j));
                            }
                            assert(mk0[ge[j as int][t2] as int]);
                            assert(marked@[ge[j as int][t2] as int]);
                        }
                    }
                }
            }
            t = t + 1;
        }
        proof {
            // the popped node is now fully processed, restoring closure
            assert forall|j: usize, t2: int|
                j < n && marked@[j as int] && 0 <= t2 < ge[j as int].len() && !queue@.contains(
                    j,
                ) implies marked@[#[trigger] ge[j as int][t2] as int] by {
                if j == x {
                    assert(marked@[ge[x as int][t2] as int]);
                }
            }
            lemma_count_marked_le(marked@);
        }
    }
    proof {
        assert forall|j: int, t: int|
            0 <= j < marked@.len() && marked@[j] && 0 <= t < graph@[j]@.len() implies marked@[
            #[trigger] (graph@[j]@[t] as int)
        ] by {
            assert(ge[j] == graph@[j]@);
            assert(!queue@.contains(j as usize));
            assert(marked@[ge[j][t] as int]);
        }
    }
    marked
}

/// Mutual reachability along graph edges.
pub open spec fn graph_mutual(ge: Seq<Seq<usize>>, u: int, v: int) -> bool {
    graph_connected(ge, u, v) && graph_connected(ge, v, u)
}

/// A reach table's row for `i`: `i` marked, marks sound, marks closed.
pub open spec fn reach_row_ok(ge: Seq<Seq<usize>>, i: int, row: Seq<bool>) -> bool {
    &&& row.len() == ge.len()
    &&& 0 <= i < ge.len()
    &&& row[i]
    &&& forall|j: int| 0 <= j < row.len() && row[j] ==> graph_connected(ge, i, j)
    &&& forall|j: int, t: int|
        0 <= j < row.len() && row[j] && 0 <= t < ge[j].len() ==> row[#[trigger] ge[j][t] as int]
}

/// A sound, closed row holds every reachable node.
proof fn lemma_row_complete(ge: Seq<Seq<usize>>, i: int, row: Seq<bool>, v: int)
    requires
        graph_wf(ge),
        reach_row_ok(ge, i, row),
        graph_connected(ge, i, v),
        0 <= v < ge.len(),
    ensures
        row[v],
{
    let k = choose|k: nat| graph_reaches(ge, i, v, k);
    lemma_closed_absorbs(ge, row, i, v, k);
}

/// A cross-component edge strictly shrinks the set of reachable nodes.
proof fn lemma_edge_rank_strict(
    ge: Seq<Seq<usize>>,
    u: int,
    v: int,
    ru: Seq<bool>,
    rv: Seq<bool>,
)
    requires
        graph_wf(ge),
        reach_row_ok(ge, u, ru),
        reach_row_ok(ge, v, rv),
        graph_connected(ge, u, v),
        !graph_mutual(ge, u, v),
    ensures
        count_marked(rv) < count_marked(ru),
{
    assert forall|w: int| 0 <= w < rv.len() && rv[w] implies ru[w] by {
        lemma_connected_concat(ge, u, v, w);
        lemma_row_complete(ge, u, ru, w);
    }
    assert(!rv[u]) by {
        if rv[u] {
            assert(graph_connected(ge, v, u));
        }
    }
    lemma_count_marked_strict(rv, ru, u);
}

/// The number of marked entries, executably.
fn count_trues(v: &Vec<bool>) -> (r: usize)
    ensures
        r == count_marked(v@),
{
    proof {
        lemma_count_marked_le(v@);
        assert(count_marked(v@.take(0)) == 0) by {
            assert(v@.take(0) =~= Seq::<bool>::empty());
        }
    }
    let n = v.len();
    let mut r: usize = 0;
    let mut i: usize = 0;
    while i < n
        invariant
            n == v@.len(),
            0 <= i <= n,
            r == count_marked(v@.take(i as int)),
            r <= i,
        decreases n - i,
    {
        proof {
            assert(v@.take(i + 1).drop_last() =~= v@.take(i as int));
            assert(v@.take(i + 1).last() == v@[i as int]);
        }
        if v[i] {
            r = r + 1;
        }
        i = i + 1;
    }
    proof {
        assert(v@.take(n as int) =~= v@);
    }
    r
}

/// Index `j` stands in the group.
pub open spec fn group_has(g: Seq<usize>, j: int) -> bool {
    exists|l: int| 0 <= l < g.len() && #[trigger] g[l] == j
}

/// The running state of the component builder: every emitted member is
/// assigned, in range, and mutual with its group's leader; everything
/// mutual with a leader is already in that leader's group; assigned nodes
/// are covered; positions are unique.
spec fn scc_state_ok(
    ge: Seq<Seq<usize>>,
    groups: Seq<Seq<usize>>,
    ldrs: Seq<int>,
    assigned: Seq<bool>,
) -> bool {
    &&& assigned.len() == ge.len()
    &&& ldrs.len() == groups.len()
    &&& forall|k: int| 0 <= k < groups.len() ==> 0 <= #[trigger] ldrs[k] < ge.len()
    &&& forall|k: int| 0 <= k < groups.len() ==> #[trigger] groups[k].len() > 0
    &&& forall|k: int, l: int|
        0 <= k < groups.len() && 0 <= l < groups[k].len() ==> 0 <= #[trigger] groups[k][l]
            < ge.len() && assigned[groups[k][l] as int] && graph_mutual(
            ge,
            ldrs[k],
            groups[k][l] as int,
        )
    &&& forall|k: int, j: int|
        0 <= k < groups.len() && 0 <= j < ge.len() && #[trigger] graph_mutual(ge, ldrs[k], j)
            ==> group_has(groups[k], j)
    &&& forall|j: int| 0 <= j < ge.len() && assigned[j] ==> covered(groups, j)
    &&& forall|k1: int, l1: int, k2: int, l2: int|
        0 <= k1 < groups.len() && 0 <= l1 < groups[k1].len() && 0 <= k2 < groups.len() && 0 <= l2
            < groups[k2].len() && #[trigger] groups[k1][l1] == #[trigger] groups[k2][l2] ==> k1
            == k2 && l1 == l2
}

/// Every cross-group graph edge points to an earlier group.
pub open spec fn graph_group_order_ok(ge: Seq<Seq<usize>>, groups: Seq<Seq<usize>>) -> bool {
    forall|k1: int, l1: int, k2: int, l2: int|
        0 <= k1 < groups.len() && 0 <= l1 < groups[k1].len() && 0 <= k2 < groups.len() && 0 <= l2
            < groups[k2].len() && k1 != k2 && ge[#[trigger] groups[k1][l1] as int].contains(
            #[trigger] groups[k2][l2],
        ) ==> k2 < k1
}

/// Every reach-table row is sound and closed for its node.
spec fn rows_ok(ge: Seq<Seq<usize>>, reach: Seq<Vec<bool>>) -> bool {
    reach.len() == ge.len() && forall|i: int|
        0 <= i < ge.len() ==> reach_row_ok(ge, i, (#[trigger] reach[i])@)
}

/// Group the graph's nodes into their maximal strongly connected
/// components, emitted smaller-reach-set components first — so every
/// cross-component edge points to an earlier component.  This is the
/// fully verified grouping that `change_lets` falls back to when a
/// proposed grouping fails certification.
#[verifier::loop_isolation(false)]
fn scc_grouping(graph: &Vec<Vec<usize>>) -> (groups: Vec<Vec<usize>>)
    requires
        graph_wf(graph@.map_values(|v: Vec<usize>| v@)),
    ensures
        covers_once(groups_view(groups@), graph@.len() as int),
        forall|k: int, l1: int, l2: int|
            0 <= k < groups_view(groups@).len() && 0 <= l1 < groups_view(groups@)[k].len() && 0
                <= l2 < groups_view(groups@)[k].len() ==> graph_mutual(
                graph@.map_values(|v: Vec<usize>| v@),
                #[trigger] groups_view(groups@)[k][l1] as int,
                #[trigger] groups_view(groups@)[k][l2] as int,
            ),
        graph_group_order_ok(graph@.map_values(|v: Vec<usize>| v@), groups_view(groups@)),
{
    let ghost ge = graph@.map_values(|v: Vec<usize>| v@);
    let n = graph.len();
    // one reachability row per node
    let mut reach: Vec<Vec<bool>> = Vec::new();
    let mut i0: usize = 0;
    while i0 < n
        invariant
            0 <= i0 <= n,
            reach@.len() == i0,
            forall|i: int| 0 <= i < i0 ==> reach_row_ok(ge, i, (#[trigger] reach@[i])@),
        decreases n - i0,
    {
        let row = reach_set(graph, i0);
        proof {
            assert forall|j: int, t: int|
                0 <= j < row@.len() && row@[j] && 0 <= t < ge[j].len() implies row@[#[trigger] ge[j][t] as int] by {
                assert(ge[j] == graph@[j]@);
                assert(row@[(graph@[j]@[t] as int)]);
            }
            assert(reach_row_ok(ge, i0 as int, row@));
        }
        reach.push(row);
        i0 = i0 + 1;
    }
    // the size of each node's reach set
    let mut rank: Vec<usize> = Vec::new();
    let mut i1: usize = 0;
    while i1 < n
        invariant
            0 <= i1 <= n,
            rank@.len() == i1,
            forall|j: int| 0 <= j < i1 ==> #[trigger] rank@[j] == count_marked(reach@[j]@),
        decreases n - i1,
    {
        let c = count_trues(&reach[i1]);
        rank.push(c);
        i1 = i1 + 1;
    }
    // assign components, smallest reach sets first
    let mut assigned: Vec<bool> = Vec::new();
    let mut i2: usize = 0;
    while i2 < n
        invariant
            0 <= i2 <= n,
            assigned@.len() == i2,
            forall|j: int| 0 <= j < i2 ==> !assigned@[j],
        decreases n - i2,
    {
        assigned.push(false);
        i2 = i2 + 1;
    }
    let mut groups: Vec<Vec<usize>> = Vec::new();
    let ghost mut ldrs: Seq<int> = Seq::empty();
    let mut r: usize = 0;
    loop
        invariant
            0 <= r <= n,
            rows_ok(ge, reach@),
            rank@.len() == n,
            forall|j: int| 0 <= j < n ==> #[trigger] rank@[j] == count_marked(reach@[j]@),
            scc_state_ok(ge, groups_view(groups@), ldrs, assigned@),
            forall|j: int| 0 <= j < n && count_marked(reach@[j]@) < r ==> assigned@[j],
            forall|k: int|
                0 <= k < ldrs.len() ==> count_marked(reach@[#[trigger] ldrs[k]]@) <= r,
            forall|k1: int, k2: int|
                0 <= k1 <= k2 < ldrs.len() ==> count_marked(reach@[#[trigger] ldrs[k1]]@)
                    <= count_marked(reach@[#[trigger] ldrs[k2]]@),
        decreases n - r,
    {
        let mut i: usize = 0;
        while i < n
            invariant
                0 <= i <= n,
                scc_state_ok(ge, groups_view(groups@), ldrs, assigned@),
                forall|j: int| 0 <= j < n && count_marked(reach@[j]@) < r ==> assigned@[j],
                forall|j: int|
                    0 <= j < i && count_marked(reach@[j]@) == r ==> assigned@[j],
                forall|k: int|
                    0 <= k < ldrs.len() ==> count_marked(reach@[#[trigger] ldrs[k]]@) <= r,
                forall|k1: int, k2: int|
                    0 <= k1 <= k2 < ldrs.len() ==> count_marked(reach@[#[trigger] ldrs[k1]]@)
                        <= count_marked(reach@[#[trigger] ldrs[k2]]@),
            decreases n - i,
        {
            if !assigned[i] && rank[i] == r {
                let ghost groups0 = groups_view(groups@);
                let ghost assigned0 = assigned@;
                let mut g: Vec<usize> = Vec::new();
                let mut j: usize = 0;
                while j < n
                    invariant
                        0 <= j <= n,
                        assigned@.len() == n,
                        scc_state_ok(ge, groups0, ldrs, assigned0),
                        groups_view(groups@) == groups0,
                        // the group so far: exactly the mutual partners seen
                        forall|l: int|
                            0 <= l < g@.len() ==> 0 <= #[trigger] g@[l] < n && graph_mutual(
                                ge,
                                i as int,
                                g@[l] as int,
                            ) && assigned@[g@[l] as int],
                        forall|j2: int|
                            0 <= j2 < j && graph_mutual(ge, i as int, j2) ==> group_has(g@, j2),
                        // assignment grows by exactly the group members
                        forall|j2: int|
                            0 <= j2 < n ==> assigned@[j2] == (assigned0[j2] || group_has(
                                g@,
                                j2,
                            )),
                        forall|l1: int, l2: int|
                            0 <= l1 < g@.len() && 0 <= l2 < g@.len() && #[trigger] g@[l1]
                                == #[trigger] g@[l2] ==> l1 == l2,
                        forall|l: int| 0 <= l < g@.len() ==> !assigned0[#[trigger] g@[l] as int],
                        j <= i ==> !assigned@[i as int],
                    decreases n - j,
                {
                    if !assigned[j] && reach[i][j] && reach[j][i] {
                        proof {
                            assert(reach_row_ok(ge, i as int, reach@[i as int]@));
                            assert(reach_row_ok(ge, j as int, reach@[j as int]@));
                            assert(graph_mutual(ge, i as int, j as int));
                        }
                        let ghost g0 = g@;
                        g.push(j);
                        let ghost a0 = assigned@;
                        assigned.set(j, true);
                        proof {
                            assert(g@[g@.len() - 1] == j);
                            assert(forall|l: int| 0 <= l < g0.len() ==> g@[l] == g0[l]);
                            assert forall|j2: int|
                                0 <= j2 < n implies assigned@[j2] == (assigned0[j2] || group_has(
                                g@,
                                j2,
                            )) by {
                                if j2 == j {
                                    assert(group_has(g@, j2));
                                } else {
                                    assert(assigned@[j2] == a0[j2]);
                                    assert(group_has(g@, j2) == group_has(g0, j2)) by {
                                        if group_has(g@, j2) {
                                            let l = choose|l: int|
                                                0 <= l < g@.len() && #[trigger] g@[l] == j2;
                                            assert(l < g0.len());
                                            assert(g0[l] == j2);
                                        }
                                        if group_has(g0, j2) {
                                            let l = choose|l: int|
                                                0 <= l < g0.len() && #[trigger] g0[l] == j2;
                                            assert(g@[l] == j2);
                                        }
                                    }
                                }
                            }
                            assert forall|j2: int|
                                0 <= j2 < j + 1 && graph_mutual(ge, i as int, j2) implies group_has(
                                g@,
                                j2,
                            ) by {
                                if j2 < j {
                                    assert(group_has(g0, j2));
                                    let l = choose|l: int|
                                        0 <= l < g0.len() && #[trigger] g0[l] == j2;
                                    assert(g@[l] == j2);
                                }
                            }
                        }
                    } else {
                        proof {
                            // a mutual partner can be neither already
                            // assigned nor missed by the reach rows
                            assert forall|j2: int|
                                0 <= j2 < j + 1 && graph_mutual(ge, i as int, j2) implies group_has(
                                g@,
                                j2,
                            ) by {
                                if j2 == j {
                                    assert(reach_row_ok(ge, i as int, reach@[i as int]@));
                                    assert(reach_row_ok(ge, j as int, reach@[j as int]@));
                                    lemma_row_complete(ge, i as int, reach@[i as int]@, j as int);
                                    lemma_row_complete(ge, j as int, reach@[j as int]@, i as int);
                                    assert(assigned@[j as int]);
                                    assert(assigned0[j as int] || group_has(g@, j as int));
                                    if assigned0[j as int] {
                                        assert(covered(groups0, j as int));
                                        let (k2, l2) = choose|k2: int, l2: int|
                                            0 <= k2 < groups0.len() && 0 <= l2
                                                < groups0[k2].len() && #[trigger] groups0[k2][l2]
                                                == j as int;
                                        assert(graph_mutual(ge, ldrs[k2], j as int));
                                        lemma_mutual_concat(ge, ldrs[k2], j as int, i as int);
                                        assert(group_has(groups0[k2], i as int));
                                        let li = choose|li: int|
                                            0 <= li < groups0[k2].len() && #[trigger] groups0[k2][li]
                                                == i as int;
                                        assert(assigned0[i as int]);
                                        assert(false);
                                    }
                                }
                            }
                        }
                    }
                    j = j + 1;
                }
                proof {
                    assert(graph_reaches(ge, i as int, i as int, 0nat));
                    assert(graph_connected(ge, i as int, i as int));
                    assert(graph_mutual(ge, i as int, i as int));
                    assert(group_has(g@, i as int));
                }
                proof {
                    assert(g@.len() > 0) by {
                        let l = choose|l: int| 0 <= l < g@.len() && #[trigger] g@[l] == i as int;
                    }
                }
                let ghost gv = g@;
                groups.push(g);
                proof {
                    ldrs = ldrs.push(i as int);
                    assert(groups_view(groups@) =~= groups0.push(gv));
                    lemma_scc_state_extend(ge, groups0, ldrs, assigned@, gv, i as int, assigned0);
                    assert(forall|j2: int|
                        0 <= j2 < n && assigned0[j2] ==> #[trigger] assigned@[j2]);
                    assert(assigned@[i as int]);
                    assert(count_marked(reach@[i as int]@) == r);
                }
            }
            i = i + 1;
        }
        if r == n {
            break ;
        }
        r = r + 1;
    }
    proof {
        assert forall|j: int| 0 <= j < n implies assigned@[j] by {
            lemma_count_marked_le(reach@[j]@);
        }
        assert forall|i: int| 0 <= i < n implies #[trigger] covered(groups_view(groups@), i) by {
            assert(assigned@[i]);
        }
        assert forall|k: int, l1: int, l2: int|
            0 <= k < groups_view(groups@).len() && 0 <= l1 < groups_view(groups@)[k].len() && 0
                <= l2 < groups_view(groups@)[k].len() implies graph_mutual(
            ge,
            #[trigger] groups_view(groups@)[k][l1] as int,
            #[trigger] groups_view(groups@)[k][l2] as int,
        ) by {
            let gs = groups_view(groups@);
            assert(graph_mutual(ge, ldrs[k], gs[k][l1] as int));
            assert(graph_mutual(ge, ldrs[k], gs[k][l2] as int));
            lemma_mutual_triangle(ge, ldrs[k], gs[k][l1] as int, gs[k][l2] as int);
        }
        assert forall|k1: int, l1: int, k2: int, l2: int|
            0 <= k1 < groups_view(groups@).len() && 0 <= l1 < groups_view(groups@)[k1].len() && 0
                <= k2 < groups_view(groups@).len() && 0 <= l2 < groups_view(groups@)[k2].len()
                && k1 != k2 && ge[#[trigger] groups_view(groups@)[k1][l1] as int].contains(
            #[trigger] groups_view(groups@)[k2][l2],
        ) implies k2 < k1 by {
            let gs = groups_view(groups@);
            let u = gs[k1][l1] as int;
            let v = gs[k2][l2] as int;
            let t = choose|t: int| 0 <= t < ge[u].len() && ge[u][t] == gs[k2][l2];
            assert(graph_reaches(ge, v, v, 0nat));
            assert(graph_connected(ge, u, u)) by {
                assert(graph_reaches(ge, u, u, 0nat));
            }
            lemma_connected_step(ge, u, u, t);
            assert(graph_connected(ge, u, v));
            // the two leaders are connected but not mutual
            assert(graph_mutual(ge, ldrs[k1], u));
            assert(graph_mutual(ge, ldrs[k2], v));
            lemma_connected_concat(ge, ldrs[k1], u, v);
            lemma_connected_concat(ge, ldrs[k1], v, ldrs[k2]);
            if graph_mutual(ge, ldrs[k1], ldrs[k2]) {
                assert(group_has(gs[k1], ldrs[k2] as int)) by {
                    lemma_mutual_concat(ge, ldrs[k1], ldrs[k2], ldrs[k2]);
                }
                assert(graph_mutual(ge, ldrs[k2], ldrs[k2])) by {
                    assert(graph_reaches(ge, ldrs[k2], ldrs[k2], 0nat));
                }
                assert(group_has(gs[k2], ldrs[k2]));
                let la = choose|la: int| 0 <= la < gs[k1].len() && #[trigger] gs[k1][la] == ldrs[k2];
                let lb = choose|lb: int| 0 <= lb < gs[k2].len() && #[trigger] gs[k2][lb] == ldrs[k2];
                assert(gs[k1][la] == gs[k2][lb]);
                assert(false);
            }
            lemma_edge_rank_strict(ge, ldrs[k1], ldrs[k2], reach@[ldrs[k1]]@, reach@[ldrs[k2]]@);
            if k1 <= k2 {
                assert(count_marked(reach@[ldrs[k1]]@) <= count_marked(reach@[ldrs[k2]]@));
                assert(false);
            }
        }
    }
    groups
}

/// Along graph edges, a covering, order-respecting grouping only moves
/// outward: whatever a node reaches is grouped with it or earlier.
proof fn lemma_graph_reach_group_le(
    ge: Seq<Seq<usize>>,
    groups: Seq<Seq<usize>>,
    k1: int,
    l1: int,
    k2: int,
    l2: int,
    fuel: nat,
)
    requires
        graph_wf(ge),
        covers_once(groups, ge.len() as int),
        graph_group_order_ok(ge, groups),
        0 <= k1 < groups.len(),
        0 <= l1 < groups[k1].len(),
        0 <= k2 < groups.len(),
        0 <= l2 < groups[k2].len(),
        graph_reaches(ge, groups[k1][l1] as int, groups[k2][l2] as int, fuel),
    ensures
        k2 <= k1,
    decreases fuel,
{
    let u = groups[k1][l1] as int;
    let v = groups[k2][l2] as int;
    if u == v {
        assert(groups[k1][l1] == groups[k2][l2]);
    } else {
        let t = choose|t: int|
            0 <= t < ge[u].len() && graph_reaches(ge, #[trigger] ge[u][t] as int, v, (fuel - 1) as nat);
        let w = ge[u][t] as int;
        assert(0 <= w < ge.len());
        assert(covered(groups, w));
        let (kw, lw) = choose|kw: int, lw: int|
            0 <= kw < groups.len() && 0 <= lw < groups[kw].len() && #[trigger] groups[kw][lw]
                == w;
        assert(ge[groups[k1][l1] as int].contains(groups[kw][lw]));
        lemma_graph_reach_group_le(ge, groups, kw, lw, k2, l2, (fuel - 1) as nat);
    }
}

/// A component is never split: two mutually reachable nodes always stand
/// in the same group of a covering, order-respecting grouping — so the
/// groups `scc_grouping` emits are exactly the maximal components.
pub proof fn lemma_component_not_split(
    ge: Seq<Seq<usize>>,
    groups: Seq<Seq<usize>>,
    k1: int,
    l1: int,
    k2: int,
    l2: int,
)
    requires
        graph_wf(ge),
        covers_once(groups, ge.len() as int),
        graph_group_order_ok(ge, groups),
        0 <= k1 < groups.len(),
        0 <= l1 < groups[k1].len(),
        0 <= k2 < groups.len(),
        0 <= l2 < groups[k2].len(),
        graph_mutual(ge, groups[k1][l1] as int, groups[k2][l2] as int),
    ensures
        k1 == k2,
{
    let ka = choose|ka: nat|
        graph_reaches(ge, groups[k1][l1] as int, groups[k2][l2] as int, ka);
    let kb = choose|kb: nat|
        graph_reaches(ge, groups[k2][l2] as int, groups[k1][l1] as int, kb);
    lemma_graph_reach_group_le(ge, groups, k1, l1, k2, l2, ka);
    lemma_graph_reach_group_le(ge, groups, k2, l2, k1, l1, kb);
}

/// Mutuality composes through a shared node.
proof fn lemma_mutual_concat(ge: Seq<Seq<usize>>, a: int, b: int, c: int)
    requires
        graph_mutual(ge, a, b),
        graph_mutual(ge, b, c),
    ensures
        graph_mutual(ge, a, c),
{
    lemma_connected_concat(ge, a, b, c);
    lemma_connected_concat(ge, c, b, a);
}

/// Two nodes mutual with one node are mutual with each other.
proof fn lemma_mutual_triangle(ge: Seq<Seq<usize>>, a: int, u: int, v: int)
    requires
        graph_mutual(ge, a, u),
        graph_mutual(ge, a, v),
    ensures
        graph_mutual(ge, u, v),
{
    lemma_connected_concat(ge, u, a, v);
    lemma_connected_concat(ge, v, a, u);
}

/// Appending one freshly assigned component preserves the builder state.
proof fn lemma_scc_state_extend(
    ge: Seq<Seq<usize>>,
    groups0: Seq<Seq<usize>>,
    ldrs: Seq<int>,
    assigned: Seq<bool>,
    gv: Seq<usize>,
    leader: int,
    assigned0: Seq<bool>,
)
    requires
        scc_state_ok(ge, groups0, ldrs.drop_last(), assigned0),
        ldrs.len() == groups0.len() + 1,
        ldrs.last() == leader,
        0 <= leader < ge.len(),
        assigned.len() == ge.len(),
        assigned0.len() == ge.len(),
        forall|l: int|
            0 <= l < gv.len() ==> 0 <= #[trigger] gv[l] < ge.len() && graph_mutual(
                ge,
                leader,
                gv[l] as int,
            ) && assigned[gv[l] as int],
        forall|j2: int|
            0 <= j2 < ge.len() && graph_mutual(ge, leader, j2) ==> group_has(gv, j2),
        forall|j2: int|
            0 <= j2 < ge.len() ==> assigned[j2] == (assigned0[j2] || group_has(gv, j2)),
        forall|l1: int, l2: int|
            0 <= l1 < gv.len() && 0 <= l2 < gv.len() && #[trigger] gv[l1] == #[trigger] gv[l2]
                ==> l1 == l2,
        forall|l: int| 0 <= l < gv.len() ==> !assigned0[#[trigger] gv[l] as int],
        gv.len() > 0,
    ensures
        scc_state_ok(ge, groups0.push(gv), ldrs, assigned),
{
    let groups = groups0.push(gv);
    assert(forall|k: int| 0 <= k < groups0.len() ==> #[trigger] groups[k] == groups0[k]);
    assert(groups[groups0.len() as int] == gv);
    assert(forall|k: int| 0 <= k < groups0.len() ==> ldrs.drop_last()[k] == ldrs[k]);
    assert forall|k: int| 0 <= k < groups.len() implies 0 <= #[trigger] ldrs[k] < ge.len() by {
        if k < groups0.len() {
            assert(0 <= ldrs.drop_last()[k] < ge.len());
        }
    }
    assert forall|k: int| 0 <= k < groups.len() implies #[trigger] groups[k].len() > 0 by {
        if k < groups0.len() {
            assert(groups0[k].len() > 0);
        }
    }
    assert forall|k: int, l: int|
        0 <= k < groups.len() && 0 <= l < groups[k].len() implies 0 <= #[trigger] groups[k][l]
        < ge.len() && assigned[groups[k][l] as int] && graph_mutual(
        ge,
        ldrs[k],
        groups[k][l] as int,
    ) by {
        if k < groups0.len() {
            assert(assigned0[groups0[k][l] as int]);
        } else {
            assert(group_has(gv, gv[l] as int));
        }
    }
    assert forall|k: int, j: int|
        0 <= k < groups.len() && 0 <= j < ge.len() && #[trigger] graph_mutual(ge, ldrs[k], j)
        implies group_has(groups[k], j) by {
        if k < groups0.len() {
            assert(ldrs.drop_last()[k] == ldrs[k]);
            assert(group_has(groups0[k], j));
        }
    }
    assert forall|j: int| 0 <= j < ge.len() && assigned[j] implies covered(groups, j) by {
        if assigned0[j] {
            assert(covered(groups0, j));
            let (k2, l2) = choose|k2: int, l2: int|
                0 <= k2 < groups0.len() && 0 <= l2 < groups0[k2].len() && #[trigger] groups0[k2][l2]
                    == j;
            assert(groups[k2][l2] == j);
            assert(covered(groups, j));
        } else {
            assert(group_has(gv, j));
            let l = choose|l: int| 0 <= l < gv.len() && #[trigger] gv[l] == j;
            assert(groups[groups0.len() as int][l] == j);
            assert(covered(groups, j));
        }
    }
    assert forall|k1: int, l1: int, k2: int, l2: int|
        0 <= k1 < groups.len() && 0 <= l1 < groups[k1].len() && 0 <= k2 < groups.len() && 0 <= l2
            < groups[k2].len() && #[trigger] groups[k1][l1] == #[trigger] groups[k2][l2] implies k1
        == k2 && l1 == l2 by {
        if k1 < groups0.len() && k2 >= groups0.len() {
            assert(assigned0[groups0[k1][l1] as int]);
            assert(!assigned0[gv[l2] as int]);
        }
        if k2 < groups0.len() && k1 >= groups0.len() {
            assert(assigned0[groups0[k2][l2] as int]);
            assert(!assigned0[gv[l1] as int]);
        }
    }
}

/// Every edge of the graph stays inside it.
pub open spec fn graph_wf(graph: Seq<Seq<usize>>) -> bool {
    forall|i: int, l: int|
        0 <= i < graph.len() && 0 <= l < graph[i].len() ==> #[trigger] graph[i][l] < graph.len()
}

/// Whether a name stands in a list of names.
pub(crate) fn contains_string(v: &Vec<String>, s: &String) -> (r: bool)
    ensures
        r == names_view(v@).contains(s@),
{
    let n = v.len();
    let mut i: usize = 0;
    while i < n
        invariant
            n == v.len(),
            0 <= i <= n,
            forall|j: int| 0 <= j < i ==> names_view(v@)[j] != s@,
        decreases n - i,
    {
        if v[i] == *s {
            proof {
                assert(names_view(v@)[i as int] == s@);
            }
            return true;
        }
        i = i + 1;
    }
    false
}

/// The models of a list of groups.
pub open spec fn groups_view(s: Seq<Vec<usize>>) -> Seq<Seq<usize>> {
    s.map_values(|v: Vec<usize>| v@)
}

/// Appending keeps everything a list already contains.
proof fn lemma_contains_push(s: Seq<usize>, x: usize, y: usize)
    ensures
        s.push(x).contains(y) <==> (s.contains(y) || y == x),
{
    if s.contains(y) {
        let idx = choose|idx: int| 0 <= idx < s.len() && s[idx] == y;
        assert(s.push(x)[idx] == y);
    }
    if y == x {
        assert(s.push(x)[s.len() as int] == y);
    }
    if s.push(x).contains(y) {
        let idx = choose|idx: int| 0 <= idx < s.push(x).len() && s.push(x)[idx] == y;
        if idx < s.len() {
            assert(s[idx] == y);
        }
    }
}

/// The position of the first occurrence of a name, if it occurs.
fn index_of_name(names: &Vec<String>, s: &String) -> (r: Option<usize>)
    ensures
        match r {
            Option::Some(j) => j < names@.len() && names@[j as int]@ == s@,
            Option::None => !names_view(names@).contains(s@),
        },
{
    let n = names.len();
    let mut i: usize = 0;
    while i < n
        invariant
            n == names.len(),
            0 <= i <= n,
            forall|j: int| 0 <= j < i ==> names_view(names@)[j] != s@,
        decreases n - i,
    {
        if names[i] == *s {
            return Option::Some(i);
        }
        i = i + 1;
    }
    Option::None
}

/// The indices of the block names that occur in the scanned name list.
#[verifier::loop_isolation(false)]
fn name_indices(names: &Vec<String>, ds: &Vec<String>) -> (r: Vec<usize>)
    requires
        names_distinct(names_view(names@)),
    ensures
        forall|l: int| 0 <= l < r@.len() ==> r@[l] < names@.len(),
        forall|j: int|
            0 <= j < names@.len() && names_view(ds@).contains(names@[j]@) ==> r@.contains(
                j as usize,
            ),
        forall|l: int|
            0 <= l < r@.len() ==> names_view(ds@).contains(names@[#[trigger] r@[l] as int]@),
{
    let mut r: Vec<usize> = Vec::new();
    let dn = ds.len();
    let mut l: usize = 0;
    while l < dn
        invariant
            0 <= l <= dn,
            forall|t: int| 0 <= t < r@.len() ==> r@[t] < names@.len(),
            forall|j: int|
                0 <= j < names@.len() && names_view(ds@).take(l as int).contains(names@[j]@)
                    ==> r@.contains(j as usize),
            forall|t: int|
                0 <= t < r@.len() ==> names_view(ds@).contains(names@[#[trigger] r@[t] as int]@),
        decreases dn - l,
    {
        let ghost r0 = r@;
        let ghost dv = names_view(ds@);
        match index_of_name(names, &ds[l]) {
            Option::Some(j2) => {
                r.push(j2);
                proof {
                    assert forall|y: usize| r0.contains(y) implies r@.contains(y) by {
                        lemma_contains_push(r0, j2, y);
                    }
                    lemma_contains_push(r0, j2, j2);
                    assert(dv[l as int] == ds@[l as int]@);
                    assert(forall|t: int| 0 <= t < r0.len() ==> r@[t] == r0[t]);
                    assert(names_view(ds@).contains(names@[j2 as int]@)) by {
                        assert(names_view(ds@)[l as int] == ds@[l as int]@);
                    }
                    assert forall|j: int|
                        0 <= j < names@.len() && dv.take(l + 1).contains(names@[j]@) implies r@.contains(
                        j as usize,
                    ) by {
                        let t = choose|t: int|
                            0 <= t < l + 1 && #[trigger] dv.take(l + 1)[t] == names@[j]@;
                        if t < l {
                            assert(dv.take(l as int)[t] == names@[j]@);
                            assert(dv.take(l as int).contains(names@[j]@));
                        } else {
                            assert(names@[j]@ == dv[l as int]);
                            assert(names_view(names@)[j] == names@[j]@);
                            assert(names_view(names@)[j2 as int] == names@[j2 as int]@);
                            if j != j2 {
                                assert(names_view(names@)[j] != names_view(names@)[j2 as int]);
                                assert(false);
                            }
                        }
                    }
                }
            },
            Option::None => {
                proof {
                    assert(dv[l as int] == ds@[l as int]@);
                    assert forall|j: int|
                        0 <= j < names@.len() && dv.take(l + 1).contains(names@[j]@) implies r@.contains(
                        j as usize,
                    ) by {
                        let t = choose|t: int|
                            0 <= t < l + 1 && #[trigger] dv.take(l + 1)[t] == names@[j]@;
                        if t < l {
                            assert(dv.take(l as int)[t] == names@[j]@);
                            assert(dv.take(l as int).contains(names@[j]@));
                        } else {
                            assert(names_view(names@)[j] == names@[j]@);
                            assert(names_view(names@).contains(ds@[l as int]@));
                            assert(false);
                        }
                    }
                }
            },
        }
        l = l + 1;
    }
    proof {
        assert(names_view(ds@).take(dn as int) =~= names_view(ds@));
    }
    r
}

/// A graph whose edges are dependency edges carries its walks over to
/// dependency reachability.
proof fn lemma_graph_to_dep(
    names: Seq<Seq<char>>,
    defs: Seq<ExprView>,
    ge: Seq<Seq<usize>>,
    u: int,
    v: int,
    k: nat,
)
    requires
        ge.len() == names.len(),
        graph_wf(ge),
        forall|a: int, t: int|
            0 <= a < ge.len() && 0 <= t < ge[a].len() ==> depends_on(
                names,
                defs,
                a,
                #[trigger] ge[a][t] as int,
            ),
        0 <= u < ge.len(),
        graph_reaches(ge, u, v, k),
    ensures
        dep_reaches(names, defs, u, v, k),
    decreases k,
{
    if u != v {
        let t = choose|t: int|
            0 <= t < ge[u].len() && graph_reaches(ge, #[trigger] ge[u][t] as int, v, (k - 1) as nat);
        assert(depends_on(names, defs, u, ge[u][t] as int));
        lemma_graph_to_dep(names, defs, ge, ge[u][t] as int, v, (k - 1) as nat);
        assert(dep_reaches(names, defs, u, v, k));
    }
}

/// The connectivity-level form of the conversion.
proof fn lemma_graph_conn_to_dep(
    names: Seq<Seq<char>>,
    defs: Seq<ExprView>,
    ge: Seq<Seq<usize>>,
    u: int,
    v: int,
)
    requires
        ge.len() == names.len(),
        graph_wf(ge),
        forall|a: int, t: int|
            0 <= a < ge.len() && 0 <= t < ge[a].len() ==> depends_on(
                names,
                defs,
                a,
                #[trigger] ge[a][t] as int,
            ),
        0 <= u < ge.len(),
        graph_connected(ge, u, v),
    ensures
        dep_connected(names, defs, u, v),
{
    let k = choose|k: nat| graph_reaches(ge, u, v, k);
    lemma_graph_to_dep(names, defs, ge, u, v, k);
    assert(dep_reaches(names, defs, u, v, k));
}

/// An element of a `no_let` list has no `Let` node.
proof fn lemma_no_let_seq_index(s: Seq<ExprView>, i: int)
    requires
        no_let_seq(s),
        0 <= i < s.len(),
    ensures
        no_let(s[i]),
    decreases s.len(),
{
    if i < s.len() - 1 {
        lemma_no_let_seq_index(s.drop_last(), i);
    }
}

/// An element of a well-formed-blocks list has well-formed blocks.
proof fn lemma_blocks_wf_seq_index(s: Seq<ExprView>, i: int)
    requires
        blocks_wf_seq(s),
        0 <= i < s.len(),
    ensures
        blocks_wf(s[i]),
    decreases s.len(),
{
    if i < s.len() - 1 {
        lemma_blocks_wf_seq_index(s.drop_last(), i);
    }
}

/// Emit the ordered groups around the body, innermost group applied first,
/// choosing `Let` or `LetRec` for each group by size and self-recursion.
#[verifier::loop_isolation(false)]
fn emit_groups(
    names: &Vec<String>,
    defs: &Vec<Rc<Expr>>,
    self_rec: &Vec<bool>,
    groups: &Vec<Vec<usize>>,
    body: Rc<Expr>,
) -> (r: Rc<Expr>)
    requires
        names@.len() == defs@.len(),
        self_rec@.len() == names@.len(),
        forall|i: int|
            0 <= i < names@.len() ==> #[trigger] self_rec@[i] == depends_on(
                names_view(names@),
                exprs_view(defs@),
                i,
                i,
            ),
        forall|k: int, l: int|
            0 <= k < groups@.len() && 0 <= l < groups@[k]@.len() ==> #[trigger] groups@[k]@[l]
                < names@.len(),
    ensures
        r@ == build_nesting(
            names_view(names@),
            exprs_view(defs@),
            groups_view(groups@),
            body@,
        ),
{
    let ghost nv = names_view(names@);
    let ghost dv = exprs_view(defs@);
    let ghost gsv = groups_view(groups@);
    let ghost body0 = body@;
    proof {
        lemma_exprs_view_len(defs@);
    }
    let mut acc = body;
    let mut k = groups.len();
    proof {
        assert(gsv.skip(k as int) =~= Seq::<Seq<usize>>::empty());
    }
    while k > 0
        invariant
            0 <= k <= groups@.len(),
            acc@ == build_nesting(nv, dv, gsv.skip(k as int), body0),
        decreases k,
    {
        k = k - 1;
        let g = &groups[k];
        let ghost gv = g@;
        proof {
            assert(gsv[k as int] == gv);
            assert(gsv.skip(k as int)[0] == gsv[k as int]);
            assert(gsv.skip(k as int).drop_first() =~= gsv.skip(k as int + 1));
        }
        if g.len() == 1 && !self_rec[g[0]] {
            let i = g[0];
            let mut ns: Vec<String> = Vec::new();
            ns.push(names[i].clone());
            let mut ds: Vec<Rc<Expr>> = Vec::new();
            ds.push(defs[i].clone());
            proof {
                assert(names_view(ns@) =~= seq![nv[i as int]]);
                lemma_exprs_view_index(ds@, 0);
                lemma_exprs_view_index(defs@, i as int);
                assert(exprs_view(ds@) =~= seq![dv[i as int]]);
            }
            acc = Rc::new(Expr::Let(ns, ds, acc));
        } else {
            let gl = g.len();
            let mut ns: Vec<String> = Vec::new();
            let mut ds: Vec<Rc<Expr>> = Vec::new();
            let mut l: usize = 0;
            while l < gl
                invariant
                    0 <= l <= gl,
                    gl == gv.len(),
                    gv == gsv[k as int],
                    0 <= k < groups@.len(),
                    names_view(ns@) =~= gv.take(l as int).map_values(|x: usize| nv[x as int]),
                    exprs_view(ds@) =~= gv.take(l as int).map_values(|x: usize| dv[x as int]),
                decreases gl - l,
            {
                let i = g[l];
                let ghost ns0 = ns@;
                let ghost ds0 = ds@;
                ns.push(names[i].clone());
                ds.push(defs[i].clone());
                proof {
                    assert(names_view(ns@) =~= names_view(ns0).push(nv[i as int]));
                    lemma_exprs_view_push(ds0, defs@[i as int]);
                    lemma_exprs_view_index(defs@, i as int);
                    assert(gv.take(l + 1) =~= gv.take(l as int).push(gv[l as int]));
                    assert(gv.take(l + 1).map_values(|x: usize| nv[x as int]) =~= gv.take(
                        l as int,
                    ).map_values(|x: usize| nv[x as int]).push(nv[i as int]));
                    assert(gv.take(l + 1).map_values(|x: usize| dv[x as int]) =~= gv.take(
                        l as int,
                    ).map_values(|x: usize| dv[x as int]).push(dv[i as int]));
                }
                l = l + 1;
            }
            proof {
                assert(gv.take(gl as int) =~= gv);
                assert(names_view(ns@) =~= gv.map_values(|x: usize| nv[x as int]));
                assert(exprs_view(ds@) =~= gv.map_values(|x: usize| dv[x as int]));
            }
            acc = Rc::new(Expr::LetRec(ns, ds, acc));
        }
    }
    proof {
        assert(gsv.skip(0) =~= gsv);
    }
    acc
}

/// Collect into `acc` every name of the block that the scan finds in
/// `def`, in scan order.
#[verifier::loop_isolation(false)]
pub fn dependencies(names: &Vec<String>, def: &Rc<Expr>, acc: Vec<String>) -> (r: Vec<String>)
    ensures
        names_view(r@) == names_view(acc@) + deps_list(names_view(names@), def@),
    decreases **def,
{
    let ghost nv = names_view(names@);
    match &**def {
        Expr::Var(s, _) => {
            if contains_string(names, s) {
                let mut acc = acc;
                let ghost a0 = acc@;
                acc.push(s.clone());
                proof {
                    assert(names_view(acc@) =~= names_view(a0) + seq![s@]);
                }
                acc
            } else {
                proof {
                    assert(names_view(acc@) =~= names_view(acc@) + Seq::<Seq<char>>::empty());
                }
                acc
            }
        },
        Expr::Lam(_, body) => dependencies(names, body, acc),
        Expr::App(left, right) => {
            let left_acc = dependencies(names, left, acc);
            let r = dependencies(names, right, left_acc);
            proof {
                assert(names_view(r@) =~= names_view(acc@) + deps_list(nv, def@));
            }
            r
        },
        Expr::If(cond, b1, b2) => {
            let cond_acc = dependencies(names, cond, acc);
            let b1_acc = dependencies(names, b1, cond_acc);
            let r = dependencies(names, b2, b1_acc);
            proof {
                assert(names_view(r@) =~= names_view(acc@) + deps_list(nv, def@));
            }
            r
        },
        Expr::Case(cond, _, branches) => {
            let mut acc = acc;
            let ghost a0 = acc@;
            let n = branches.len();
            let mut i: usize = 0;
            proof {
                lemma_exprs_view_len(branches@);
            }
            while i < n
                invariant
                    0 <= i <= n,
                    names_view(acc@) == names_view(a0) + deps_seq(
                        nv,
                        exprs_view(branches@).take(i as int),
                    ),
                decreases n - i,
            {
                proof {
                    lemma_exprs_view_index(branches@, i as int);
                }
                let ghost before = acc@;
                acc = dependencies(names, &branches[i], acc);
                proof {
                    let bv = exprs_view(branches@);
                    assert(bv.take(i + 1).drop_last() =~= bv.take(i as int));
                    assert(bv.take(i + 1).last() == bv[i as int]);
                    assert(names_view(acc@) =~= names_view(a0) + deps_seq(nv, bv.take(i + 1)));
                }
                i = i + 1;
            }
            let r = dependencies(names, cond, acc);
            proof {
                assert(exprs_view(branches@).take(n as int) =~= exprs_view(branches@));
                assert(names_view(r@) =~= names_view(a0) + deps_list(nv, def@));
            }
            r
        },
        Expr::Let(_, defs, body) => {
            let mut acc = acc;
            let ghost a0 = acc@;
            let n = defs.len();
            let mut i: usize = 0;
            proof {
                lemma_exprs_view_len(defs@);
            }
            while i < n
                invariant
                    0 <= i <= n,
                    names_view(acc@) == names_view(a0) + deps_seq(
                        nv,
                        exprs_view(defs@).take(i as int),
                    ),
                decreases n - i,
            {
                proof {
                    lemma_exprs_view_index(defs@, i as int);
                }
                acc = dependencies(names, &defs[i], acc);
                proof {
                    let dv = exprs_view(defs@);
                    assert(dv.take(i + 1).drop_last() =~= dv.take(i as int));
                    assert(dv.take(i + 1).last() == dv[i as int]);
                    assert(names_view(acc@) =~= names_view(a0) + deps_seq(nv, dv.take(i + 1)));
                }
                i = i + 1;
            }
            let r = dependencies(names, body, acc);
            proof {
                assert(exprs_view(defs@).take(n as int) =~= exprs_view(defs@));
                assert(names_view(r@) =~= names_view(a0) + deps_list(nv, def@));
            }
            r
        },
        Expr::LetRec(_, defs, body) => {
            let mut acc = acc;
            let ghost a0 = acc@;
            let n = defs.len();
            let mut i: usize = 0;
            proof {
                lemma_exprs_view_len(defs@);
            }
            while i < n
                invariant
                    0 <= i <= n,
                    names_view(acc@) == names_view(a0) + deps_seq(
                        nv,
                        exprs_view(defs@).take(i as int),
                    ),
                decreases n - i,
            {
                proof {
                    lemma_exprs_view_index(defs@, i as int);
                }
                acc = dependencies(names, &defs[i], acc);
                proof {
                    let dv = exprs_view(defs@);
                    assert(dv.take(i + 1).drop_last() =~= dv.take(i as int));
                    assert(dv.take(i + 1).last() == dv[i as int]);
                    assert(names_view(acc@) =~= names_view(a0) + deps_seq(nv, dv.take(i + 1)));
                }
                i = i + 1;
            }
            let r = dependencies(names, body, acc);
            proof {
                assert(exprs_view(defs@).take(n as int) =~= exprs_view(defs@));
                assert(names_view(r@) =~= names_view(a0) + deps_list(nv, def@));
            }
            r
        },
        _ => {
            proof {
                assert(names_view(acc@) =~= names_view(acc@) + Seq::<Seq<char>>::empty());
            }
            acc
        },
    }
}


/// Rewrite the tree bottom-up, replacing every recursive block by a
/// certified minimal nesting of `Let`/`LetRec` groups around its body.
#[verifier::loop_isolation(false)]
pub fn change_lets(expr: Rc<Expr>) -> (r: Rc<Expr>)
    requires
        no_let(expr@),
        blocks_wf(expr@),
    ensures
        rearranged(expr@, r@),
    decreases *expr,
{
    match &*expr {
        Expr::LetRec(names, defs, body) => {
            let ghost nv = names_view(names@);
            let n = names.len();
            proof {
                lemma_exprs_view_len(defs@);
            }
            // Rearrange the definitions first: nested blocks are processed
            // innermost-out.
            let mut defs2: Vec<Rc<Expr>> = Vec::new();
            let mut i: usize = 0;
            while i < n
                invariant
                    0 <= i <= n,
                    defs2@.len() == i,
                    forall|j: int|
                        0 <= j < i ==> rearranged(
                            exprs_view(defs@)[j],
                            #[trigger] exprs_view(defs2@)[j],
                        ),
                decreases n - i,
            {
                proof {
                    lemma_exprs_view_index(defs@, i as int);
                    lemma_no_let_seq_index(exprs_view(defs@), i as int);
                    lemma_blocks_wf_seq_index(exprs_view(defs@), i as int);
                }
                let ghost d20 = defs2@;
                let d2 = change_lets(defs[i].clone());
                let ghost d2g = d2;
                defs2.push(d2);
                proof {
                    lemma_exprs_view_push(d20, d2g);
                    assert forall|j: int|
                        0 <= j < i + 1 implies rearranged(
                        exprs_view(defs@)[j],
                        #[trigger] exprs_view(defs2@)[j],
                    ) by {
                        lemma_exprs_view_index(defs2@, j);
                        if j < i {
                            lemma_exprs_view_index(d20, j);
                        }
                    }
                }
                i = i + 1;
            }
            let ghost d2v = exprs_view(defs2@);
            proof {
                lemma_exprs_view_len(defs2@);
            }
            let body2 = change_lets(body.clone());
            // Scan each definition for the block names it references and
            // record the dependency edges and self-recursion marks.
            let mut graph: Vec<Vec<usize>> = Vec::new();
            let mut self_rec: Vec<bool> = Vec::new();
            let mut i2: usize = 0;
            while i2 < n
                invariant
                    0 <= i2 <= n,
                    graph@.len() == i2,
                    self_rec@.len() == i2,
                    forall|a: int, l: int|
                        0 <= a < i2 && 0 <= l < graph@[a]@.len() ==> #[trigger] graph@[a]@[l] < n,
                    forall|a: int, j: int|
                        0 <= a < i2 && 0 <= j < n && depends_on(nv, d2v, a, j)
                            ==> #[trigger] graph@[a]@.contains(j as usize),
                    forall|a: int, l: int|
                        0 <= a < i2 && 0 <= l < graph@[a]@.len() ==> depends_on(
                            nv,
                            d2v,
                            a,
                            #[trigger] graph@[a]@[l] as int,
                        ),
                    forall|a: int|
                        0 <= a < i2 ==> #[trigger] self_rec@[a] == depends_on(nv, d2v, a, a),
                decreases n - i2,
            {
                proof {
                    lemma_exprs_view_index(defs2@, i2 as int);
                }
                let deps = dependencies(names, &defs2[i2], Vec::new());
                proof {
                    assert(names_view(Seq::<String>::empty()) =~= Seq::<Seq<char>>::empty());
                    assert(names_view(deps@) =~= deps_list(nv, d2v[i2 as int]));
                }
                let sr = contains_string(&deps, &names[i2]);
                let edges = name_indices(names, &deps);
                let ghost g0 = graph@;
                let ghost s0 = self_rec@;
                graph.push(edges);
                self_rec.push(sr);
                proof {
                    assert(nv[i2 as int] == names@[i2 as int]@);
                    assert forall|a: int, j: int|
                        0 <= a < i2 + 1 && 0 <= j < n && depends_on(nv, d2v, a, j) implies #[trigger] graph@[a]@.contains(
                        j as usize,
                    ) by {
                        if a < i2 {
                            assert(graph@[a] == g0[a]);
                        } else {
                            assert(graph@[a] == edges);
                            assert(names_view(deps@).contains(nv[j]));
                        }
                    }
                    assert forall|a: int, l: int|
                        0 <= a < i2 + 1 && 0 <= l < graph@[a]@.len() implies depends_on(
                        nv,
                        d2v,
                        a,
                        #[trigger] graph@[a]@[l] as int,
                    ) by {
                        if a < i2 {
                            assert(graph@[a] == g0[a]);
                        } else {
                            assert(graph@[a] == edges);
                            let j = edges@[l] as int;
                            assert(names_view(deps@).contains(names@[j]@));
                            assert(nv[j] == names@[j]@);
                            assert(deps_list(nv, d2v[i2 as int]).contains(nv[j]));
                        }
                    }
                }
                i2 = i2 + 1;
            }
            // Group the bindings into strongly connected components,
            // dependencies first.
            proof {
                assert(graph_wf(graph@.map_values(|v: Vec<usize>| v@)));
            }
            let groups: Vec<Vec<usize>> = scc_grouping(&graph);
            let ghost gsv = groups_view(groups@);
            let ghost gemap = graph@.map_values(|v: Vec<usize>| v@);
            proof {
                // the grouping covers every binding once, sends cross-group
                // edges outward, and keeps each group mutually connected —
                // at the graph level
                assert(covers_once(gsv, n as int));
                assert(forall|k1: int, l1: int, k2: int, l2: int|
                    0 <= k1 < gsv.len() && 0 <= l1 < gsv[k1].len() && 0 <= k2 < gsv.len() && 0
                        <= l2 < gsv[k2].len() && k1 != k2 && gemap[#[trigger] gsv[k1][l1] as int].contains(
                        #[trigger] gsv[k2][l2],
                    ) ==> k2 < k1);
                assert(forall|k: int, l1: int, l2: int|
                    0 <= k < gsv.len() && 0 <= l1 < gsv[k].len() && 0 <= l2 < gsv[k].len()
                        ==> graph_connected(
                        gemap,
                        #[trigger] gsv[k][l1] as int,
                        #[trigger] gsv[k][l2] as int,
                    ));
                // the graph's edges are exactly the dependency edges
                assert forall|a: int, t: int|
                    0 <= a < gemap.len() && 0 <= t < gemap[a].len() implies depends_on(
                    nv,
                    d2v,
                    a,
                    #[trigger] gemap[a][t] as int,
                ) by {
                    assert(gemap[a] == graph@[a]@);
                    assert(depends_on(nv, d2v, a, graph@[a]@[t] as int));
                }
                // dependency order follows through the forward edge facts
                assert forall|k1: int, l1: int, k2: int, l2: int|
                    0 <= k1 < gsv.len() && 0 <= l1 < gsv[k1].len() && 0 <= k2 < gsv.len()
                        && 0 <= l2 < gsv[k2].len() && k1 != k2 && depends_on(
                        nv,
                        d2v,
                        #[trigger] gsv[k1][l1] as int,
                        #[trigger] gsv[k2][l2] as int,
                    ) implies k2 < k1 by {
                    let i1 = gsv[k1][l1];
                    let j2 = gsv[k2][l2];
                    assert(0 <= i1 < n);
                    assert(0 <= j2 < n);
                    assert(depends_on(nv, d2v, i1 as int, j2 as int));
                    assert(graph@[i1 as int]@.contains(((j2 as int) as usize)));
                    assert(((j2 as int) as usize) == j2);
                    assert(gemap[i1 as int] == graph@[i1 as int]@);
                }
                // each group is one dependency cycle
                assert forall|k: int, l1: int, l2: int|
                    0 <= k < gsv.len() && 0 <= l1 < gsv[k].len() && 0 <= l2 < gsv[k].len()
                        implies dep_connected(
                    nv,
                    d2v,
                    #[trigger] gsv[k][l1] as int,
                    #[trigger] gsv[k][l2] as int,
                ) by {
                    assert(0 <= gsv[k][l1] < n);
                    lemma_graph_conn_to_dep(
                        nv,
                        d2v,
                        gemap,
                        gsv[k][l1] as int,
                        gsv[k][l2] as int,
                    );
                }
                assert(valid_grouping(nv, d2v, gsv));
            }
            proof {
                assert forall|k: int, l: int|
                    0 <= k < groups@.len() && 0 <= l < groups@[k]@.len() implies #[trigger] groups@[k]@[l]
                    < names@.len() by {
                    assert(gsv[k] == groups@[k]@);
                    assert(0 <= gsv[k][l] < n);
                }
            }
            let remit = emit_groups(names, &defs2, &self_rec, &groups, body2);
            proof {
                assert(rearranged(expr@, remit@));
            }
            remit
        },
        Expr::Let(_, _, _) => {
            // The rearranger never receives its own output.
            proof {
                assert(false);
            }
            expr
        },
        Expr::Lam(head, body) => {
            let b2 = change_lets(body.clone());
            Rc::new(Expr::Lam(head.clone(), b2))
        },
        Expr::App(left, right) => {
            let l2 = change_lets(left.clone());
            let r2 = change_lets(right.clone());
            Rc::new(Expr::App(l2, r2))
        },
        Expr::If(cond, b1, b2) => {
            let c2 = change_lets(cond.clone());
            let t2 = change_lets(b1.clone());
            let e2 = change_lets(b2.clone());
            Rc::new(Expr::If(c2, t2, e2))
        },
        Expr::Case(cond, pats, branches) => {
            let bn = branches.len();
            proof {
                lemma_exprs_view_len(branches@);
            }
            let mut new_branches: Vec<Rc<Expr>> = Vec::new();
            let mut i: usize = 0;
            while i < bn
                invariant
                    0 <= i <= bn,
                    new_branches@.len() == i,
                    forall|j: int|
                        0 <= j < i ==> rearranged(
                            exprs_view(branches@)[j],
                            #[trigger] exprs_view(new_branches@)[j],
                        ),
                decreases bn - i,
            {
                proof {
                    lemma_exprs_view_index(branches@, i as int);
                    lemma_no_let_seq_index(exprs_view(branches@), i as int);
                    lemma_blocks_wf_seq_index(exprs_view(branches@), i as int);
                }
                let ghost nb0 = new_branches@;
                let b2 = change_lets(branches[i].clone());
                let ghost b2g = b2;
                new_branches.push(b2);
                proof {
                    lemma_exprs_view_push(nb0, b2g);
                    assert forall|j: int|
                        0 <= j < i + 1 implies rearranged(
                        exprs_view(branches@)[j],
                        #[trigger] exprs_view(new_branches@)[j],
                    ) by {
                        lemma_exprs_view_index(new_branches@, j);
                        if j < i {
                            lemma_exprs_view_index(nb0, j);
                        }
                    }
                }
                i = i + 1;
            }
            proof {
                lemma_exprs_view_len(new_branches@);
            }
            let c2 = change_lets(cond.clone());
            let p2 = clone_patterns(pats);
            Rc::new(Expr::Case(c2, p2, new_branches))
        },
        _ => expr,
    }
}


/// Rearrangement safety: in a valid grouping, every name a binding
/// depends on is bound in the binding's own group or in an outer
/// (equal-or-earlier) one.
pub proof fn lemma_rearrangement_safety(
    names: Seq<Seq<char>>,
    defs: Seq<ExprView>,
    groups: Seq<Seq<usize>>,
    k1: int,
    l1: int,
    k2: int,
    l2: int,
)
    requires
        valid_grouping(names, defs, groups),
        0 <= k1 < groups.len(),
        0 <= l1 < groups[k1].len(),
        0 <= k2 < groups.len(),
        0 <= l2 < groups[k2].len(),
        depends_on(names, defs, groups[k1][l1] as int, groups[k2][l2] as int),
    ensures
        k2 <= k1,
{
}

/// Reachability along dependency edges, within `k` steps: `u` depends on
/// `v` directly or through a chain of other bindings.
pub open spec fn dep_reaches(
    names: Seq<Seq<char>>,
    defs: Seq<ExprView>,
    u: int,
    v: int,
    k: nat,
) -> bool
    decreases k,
{
    u == v || (k > 0 && exists|w: int|
        0 <= w < names.len() && #[trigger] depends_on(names, defs, u, w) && dep_reaches(
            names,
            defs,
            w,
            v,
            (k - 1) as nat,
        ))
}

/// Along dependency edges, a valid grouping only moves outward: whatever
/// a binding reaches is bound in its own group or an earlier one.
proof fn lemma_reach_group_le(
    names: Seq<Seq<char>>,
    defs: Seq<ExprView>,
    groups: Seq<Seq<usize>>,
    k1: int,
    l1: int,
    k2: int,
    l2: int,
    fuel: nat,
)
    requires
        valid_grouping(names, defs, groups),
        0 <= k1 < groups.len(),
        0 <= l1 < groups[k1].len(),
        0 <= k2 < groups.len(),
        0 <= l2 < groups[k2].len(),
        dep_reaches(names, defs, groups[k1][l1] as int, groups[k2][l2] as int, fuel),
    ensures
        k2 <= k1,
    decreases fuel,
{
    let u = groups[k1][l1] as int;
    let v = groups[k2][l2] as int;
    if u == v {
        assert(groups[k1][l1] == groups[k2][l2]);
    } else {
        let w = choose|w: int|
            0 <= w < names.len() && #[trigger] depends_on(names, defs, u, w) && dep_reaches(
                names,
                defs,
                w,
                v,
                (fuel - 1) as nat,
            );
        assert(covered(groups, w));
        let (kw, lw) = choose|kw: int, lw: int|
            0 <= kw < groups.len() && 0 <= lw < groups[kw].len() && #[trigger] groups[kw][lw]
                == w;
        assert(depends_on(names, defs, groups[k1][l1] as int, groups[kw][lw] as int));
        lemma_reach_group_le(names, defs, groups, kw, lw, k2, l2, (fuel - 1) as nat);
    }
}

/// Minimal nesting, the splitting half: two bindings that depend on each
/// other — directly or through any chain of dependencies — always stand
/// in the same group of a valid grouping.  In particular a mutually
/// recursive pair is never split into sequential blocks.
pub proof fn lemma_cycle_not_split(
    names: Seq<Seq<char>>,
    defs: Seq<ExprView>,
    groups: Seq<Seq<usize>>,
    k1: int,
    l1: int,
    k2: int,
    l2: int,
    fuel: nat,
)
    requires
        valid_grouping(names, defs, groups),
        0 <= k1 < groups.len(),
        0 <= l1 < groups[k1].len(),
        0 <= k2 < groups.len(),
        0 <= l2 < groups[k2].len(),
        dep_reaches(names, defs, groups[k1][l1] as int, groups[k2][l2] as int, fuel),
        dep_reaches(names, defs, groups[k2][l2] as int, groups[k1][l1] as int, fuel),
    ensures
        k1 == k2,
{
    lemma_reach_group_le(names, defs, groups, k1, l1, k2, l2, fuel);
    lemma_reach_group_le(names, defs, groups, k2, l2, k1, l1, fuel);
}

/// A directly mutually dependent pair — each binding's scan finds the
/// other's name, as in a mutually recursive pair of definitions — always
/// shares one group, never splitting into sequential blocks.
pub proof fn lemma_mutual_pair_not_split(
    names: Seq<Seq<char>>,
    defs: Seq<ExprView>,
    groups: Seq<Seq<usize>>,
    k1: int,
    l1: int,
    k2: int,
    l2: int,
)
    requires
        valid_grouping(names, defs, groups),
        0 <= k1 < groups.len(),
        0 <= l1 < groups[k1].len(),
        0 <= k2 < groups.len(),
        0 <= l2 < groups[k2].len(),
        depends_on(names, defs, groups[k1][l1] as int, groups[k2][l2] as int),
        depends_on(names, defs, groups[k2][l2] as int, groups[k1][l1] as int),
    ensures
        k1 == k2,
{
    let u = groups[k1][l1] as int;
    let v = groups[k2][l2] as int;
    assert(0 <= u < names.len());
    assert(0 <= v < names.len());
    assert(dep_reaches(names, defs, v, v, 0nat));
    assert(dep_reaches(names, defs, u, u, 0nat));
    assert(dep_reaches(names, defs, u, v, 1nat));
    assert(dep_reaches(names, defs, v, u, 1nat));
    lemma_cycle_not_split(names, defs, groups, k1, l1, k2, l2, 1nat);
}

/// Self-recursion classification: a singleton group is emitted as a
/// `LetRec` exactly when its binding's dependency scan finds the
/// binding's own name, and as a `Let` otherwise.
pub proof fn lemma_self_recursion_classification(
    names: Seq<Seq<char>>,
    defs: Seq<ExprView>,
    g: Seq<usize>,
    inner: ExprView,
)
    requires
        g.len() == 1,
    ensures
        (wrap_group(names, defs, g, inner) matches ExprView::LetRec { .. }) <==> depends_on(
            names,
            defs,
            g[0] as int,
            g[0] as int,
        ),
        (wrap_group(names, defs, g, inner) matches ExprView::Let { .. }) <==> !depends_on(
            names,
            defs,
            g[0] as int,
            g[0] as int,
        ),
{
}

} // verus!
