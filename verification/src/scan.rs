//! The depth resolver: a single top-down pass that computes every
//! variable occurrence's skip depth — how many environment frames the
//! reducer discards before searching for the name.
//!
//! A `Let`'s definitions run in the frame below the one the block
//! introduces, so they skip one extra frame; a `LetRec`'s definitions run
//! inside their own new frame; a lambda's body runs inside the frame its
//! argument creates, so the context resets to zero there.  Applications
//! thread the context from function to argument.  The pass rebuilds the
//! affected spine of the tree rather than mutating it.

use crate::ast::{
    clone_strings, expr_view, exprs_view, lemma_exprs_view_index, lemma_exprs_view_len,
    lemma_exprs_view_push, Expr, ExprView,
};
use std::rc::Rc;
use vstd::prelude::*;

verus! {

/// The resolved tree and the outgoing depth context of one node.
pub open spec fn spec_resolve(e: ExprView, depth: nat) -> (ExprView, nat)
    decreases e,
{
    match e {
        ExprView::Var { name, .. } => (ExprView::Var { name, depth }, depth),
        ExprView::App { func, arg } => {
            let fr = spec_resolve(*func, depth);
            let ar = spec_resolve(*arg, fr.1);
            (ExprView::App { func: Box::new(fr.0), arg: Box::new(ar.0) }, ar.1)
        },
        ExprView::Let { names, defs, body } => {
            let defs2 = spec_resolve_defs(defs, 1);
            let br = spec_resolve(*body, 0);
            (ExprView::Let { names, defs: defs2, body: Box::new(br.0) }, br.1)
        },
        ExprView::LetRec { names, defs, body } => {
            let defs2 = spec_resolve_defs(defs, 0);
            let br = spec_resolve(*body, 0);
            (ExprView::LetRec { names, defs: defs2, body: Box::new(br.0) }, br.1)
        },
        ExprView::If { cond, then_branch, else_branch } => {
            let cr = spec_resolve(*cond, depth);
            let tr = spec_resolve(*then_branch, depth);
            let er = spec_resolve(*else_branch, depth);
            (
                ExprView::If {
                    cond: Box::new(cr.0),
                    then_branch: Box::new(tr.0),
                    else_branch: Box::new(er.0),
                },
                depth,
            )
        },
        ExprView::Lam { param, body } => {
            let br = spec_resolve(*body, 0);
            (ExprView::Lam { param, body: Box::new(br.0) }, br.1)
        },
        _ => (e, depth),
    }
}

/// Each definition of a block resolved under one depth context.
pub open spec fn spec_resolve_defs(s: Seq<ExprView>, depth: nat) -> Seq<ExprView>
    decreases s,
{
    if s.len() == 0 {
        Seq::empty()
    } else {
        spec_resolve_defs(s.drop_last(), depth).push(spec_resolve(s.last(), depth).0)
    }
}

/// `spec_resolve_defs` resolves pointwise.
proof fn lemma_resolve_defs_index(s: Seq<ExprView>, depth: nat, i: int)
    requires
        0 <= i < s.len(),
    ensures
        spec_resolve_defs(s, depth).len() == s.len(),
        spec_resolve_defs(s, depth)[i] == spec_resolve(s[i], depth).0,
    decreases s.len(),
{
    lemma_resolve_defs_len(s, depth);
    if i < s.len() - 1 {
        lemma_resolve_defs_index(s.drop_last(), depth, i);
    } else {
        lemma_resolve_defs_len(s.drop_last(), depth);
    }
}

/// `spec_resolve_defs` preserves length.
proof fn lemma_resolve_defs_len(s: Seq<ExprView>, depth: nat)
    ensures
        spec_resolve_defs(s, depth).len() == s.len(),
    decreases s.len(),
{
    if s.len() > 0 {
        lemma_resolve_defs_len(s.drop_last(), depth);
    }
}

/// Resolve every definition of a block under one depth context.
#[verifier::loop_isolation(false)]
fn resolve_defs(defs: &Vec<Rc<Expr>>, depth: usize) -> (r: Vec<Rc<Expr>>)
    ensures
        exprs_view(r@) == spec_resolve_defs(exprs_view(defs@), depth as nat),
    decreases defs@,
{
    let ghost dv = exprs_view(defs@);
    proof {
        lemma_exprs_view_len(defs@);
        lemma_resolve_defs_len(dv, depth as nat);
    }
    let mut r: Vec<Rc<Expr>> = Vec::new();
    let n = defs.len();
    let mut i: usize = 0;
    while i < n
        invariant
            0 <= i <= n,
            r@.len() == i,
            forall|j: int|
                0 <= j < i ==> #[trigger] exprs_view(r@)[j] == spec_resolve(dv[j], depth as nat).0,
        decreases n - i,
    {
        proof {
            lemma_exprs_view_index(defs@, i as int);
        }
        let ghost r0 = r@;
        let d2 = resolve(&defs[i], depth);
        let ghost d2g = d2.0;
        r.push(d2.0);
        proof {
            lemma_exprs_view_push(r0, d2g);
            assert forall|j: int|
                0 <= j < i + 1 implies #[trigger] exprs_view(r@)[j] == spec_resolve(
                dv[j],
                depth as nat,
            ).0 by {
                lemma_exprs_view_index(r@, j);
                if j < i {
                    lemma_exprs_view_index(r0, j);
                }
            }
        }
        i = i + 1;
    }
    proof {
        assert forall|j: int|
            0 <= j < n implies exprs_view(r@)[j] == spec_resolve_defs(dv, depth as nat)[j] by {
            lemma_resolve_defs_index(dv, depth as nat, j);
        }
        lemma_exprs_view_len(r@);
        assert(exprs_view(r@) =~= spec_resolve_defs(dv, depth as nat));
    }
    r
}

/// Resolve one node under the depth context `depth`, returning the
/// annotated tree and the outgoing context.
pub fn resolve(expr: &Rc<Expr>, depth: usize) -> (r: (Rc<Expr>, usize))
    ensures
        r.0@ == spec_resolve(expr@, depth as nat).0,
        r.1 == spec_resolve(expr@, depth as nat).1,
    decreases **expr,
{
    match &**expr {
        Expr::Var(s, _) => (Rc::new(Expr::Var(s.clone(), depth)), depth),
        Expr::App(left, right) => {
            let fr = resolve(left, depth);
            let ar = resolve(right, fr.1);
            (Rc::new(Expr::App(fr.0, ar.0)), ar.1)
        },
        Expr::Let(names, defs, body) => {
            let defs2 = resolve_defs(defs, 1);
            let br = resolve(body, 0);
            (Rc::new(Expr::Let(clone_strings(names), defs2, br.0)), br.1)
        },
        Expr::LetRec(names, defs, body) => {
            let defs2 = resolve_defs(defs, 0);
            let br = resolve(body, 0);
            (Rc::new(Expr::LetRec(clone_strings(names), defs2, br.0)), br.1)
        },
        Expr::If(cond, b1, b2) => {
            let cr = resolve(cond, depth);
            let tr = resolve(b1, depth);
            let er = resolve(b2, depth);
            (Rc::new(Expr::If(cr.0, tr.0, er.0)), depth)
        },
        Expr::Lam(head, body) => {
            let br = resolve(body, 0);
            (Rc::new(Expr::Lam(head.clone(), br.0)), br.1)
        },
        _ => (expr.clone(), depth),
    }
}

} // verus!
