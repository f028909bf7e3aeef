//! Static well-formedness checks on the tree: that no constructor
//! pattern reuses a bound name, and that no binder shadows a name already
//! in scope.  Both are advisory; neither gates reduction.

use crate::ast::{
    expr_view, exprs_view, lemma_exprs_view_index, lemma_exprs_view_len, names_view,
    patterns_view, Expr, ExprView, Pattern, PatternView,
};
use std::rc::Rc;
use vstd::prelude::*;

verus! {

/// A pattern's bound names are pairwise distinct.
pub open spec fn pattern_ok(p: PatternView) -> bool {
    match p {
        PatternView::Construct { vars, .. } => forall|i: int, j: int|
            0 <= i < j < vars.len() ==> vars[i] != vars[j],
        _ => true,
    }
}

/// Every constructor pattern in the tree binds distinct names; the walk
/// covers the whole subtree: case scrutinees and branches, lambda bodies,
/// applications, binding blocks and conditionals.
pub open spec fn cases_ok(e: ExprView) -> bool
    decreases e, 0int,
{
    match e {
        ExprView::Case { scrutinee, patterns, branches } => patterns_all_ok(patterns)
            && cases_ok(*scrutinee) && cases_ok_seq(branches),
        ExprView::Lam { body, .. } => cases_ok(*body),
        ExprView::App { func, arg } => cases_ok(*func) && cases_ok(*arg),
        ExprView::Let { defs, body, .. } => cases_ok_seq(defs) && cases_ok(*body),
        ExprView::LetRec { defs, body, .. } => cases_ok_seq(defs) && cases_ok(*body),
        ExprView::If { cond, then_branch, else_branch } => cases_ok(*cond) && cases_ok(
            *then_branch,
        ) && cases_ok(*else_branch),
        _ => true,
    }
}

/// `cases_ok` over a list of expressions.
pub open spec fn cases_ok_seq(s: Seq<ExprView>) -> bool
    decreases s, 0int,
{
    if s.len() == 0 {
        true
    } else {
        cases_ok_seq(s.drop_last()) && cases_ok(s.last())
    }
}

/// `pattern_ok` over a list of patterns.
pub open spec fn patterns_all_ok(s: Seq<PatternView>) -> bool
    decreases s.len(),
{
    if s.len() == 0 {
        true
    } else {
        patterns_all_ok(s.drop_last()) && pattern_ok(s.last())
    }
}

/// Whether one pattern binds pairwise distinct names.
#[verifier::loop_isolation(false)]
fn check_pattern(pat: &Pattern) -> (r: bool)
    ensures
        r == pattern_ok(pat@),
{
    match pat {
        Pattern::Construct(_, vars) => {
            let n = vars.len();
            let mut i: usize = 0;
            while i < n
                invariant
                    n == vars@.len(),
                    0 <= i <= n,
                    forall|a: int, b: int|
                        0 <= a < b < i ==> names_view(vars@)[a] != names_view(vars@)[b],
                decreases n - i,
            {
                let mut j: usize = 0;
                while j < i
                    invariant
                        n == vars@.len(),
                        0 <= j <= i < n,
                        forall|b: int| 0 <= b < j ==> names_view(vars@)[b] != names_view(
                            vars@,
                        )[i as int],
                    decreases i - j,
                {
                    if vars[j] == vars[i] {
                        proof {
                            assert(names_view(vars@)[j as int] == names_view(vars@)[i as int]);
                        }
                        return false;
                    }
                    j = j + 1;
                }
                i = i + 1;
            }
            true
        },
        _ => true,
    }
}

/// Whether every constructor pattern in the tree binds distinct names.
#[verifier::loop_isolation(false)]
pub fn check_cases(expr: &Rc<Expr>) -> (r: bool)
    ensures
        r == cases_ok(expr@),
    decreases **expr, 1int,
{
    match &**expr {
        Expr::Case(scrut, pats, branches) => {
            let ghost pv = patterns_view(pats@);
            let pn = pats.len();
            let mut i: usize = 0;
            while i < pn
                invariant
                    0 <= i <= pn,
                    patterns_all_ok(pv.take(i as int)),
                decreases pn - i,
            {
                proof {
                    assert(pv[i as int] == crate::ast::pattern_view(*pats@[i as int]));
                }
                if !check_pattern(&*pats[i]) {
                    proof {
                        lemma_patterns_all_ok_take(pv, i as int);
                    }
                    return false;
                }
                proof {
                    assert(pv.take(i + 1).drop_last() =~= pv.take(i as int));
                    assert(pv.take(i + 1).last() == pv[i as int]);
                }
                i = i + 1;
            }
            proof {
                assert(pv.take(pn as int) =~= pv);
            }
            let sc = check_cases(scrut);
            sc && check_cases_seq(branches)
        },
        Expr::Lam(_, body) => check_cases(body),
        Expr::App(left, right) => {
            let l = check_cases(left);
            l && check_cases(right)
        },
        Expr::Let(_, defs, body) => {
            let d = check_cases_seq(defs);
            d && check_cases(body)
        },
        Expr::LetRec(_, defs, body) => {
            let d = check_cases_seq(defs);
            d && check_cases(body)
        },
        Expr::If(cond, b1, b2) => {
            let c = check_cases(cond);
            let t = c && check_cases(b1);
            t && check_cases(b2)
        },
        _ => true,
    }
}

/// A list of patterns certified up to a failing one is not all distinct.
proof fn lemma_patterns_all_ok_take(s: Seq<PatternView>, i: int)
    requires
        0 <= i < s.len(),
        !pattern_ok(s[i]),
    ensures
        !patterns_all_ok(s),
    decreases s.len(),
{
    if i < s.len() - 1 {
        lemma_patterns_all_ok_take(s.drop_last(), i);
    }
}

/// `check_cases` over a list of expressions.
#[verifier::loop_isolation(false)]
fn check_cases_seq(defs: &Vec<Rc<Expr>>) -> (r: bool)
    ensures
        r == cases_ok_seq(exprs_view(defs@)),
    decreases defs@, 0int,
{
    let ghost dv = exprs_view(defs@);
    proof {
        lemma_exprs_view_len(defs@);
        assert(dv.take(0) =~= Seq::<ExprView>::empty());
    }
    let n = defs.len();
    let mut i: usize = 0;
    while i < n
        invariant
            0 <= i <= n,
            cases_ok_seq(dv.take(i as int)),
        decreases n - i,
    {
        proof {
            lemma_exprs_view_index(defs@, i as int);
        }
        if !check_cases(&defs[i]) {
            proof {
                lemma_cases_ok_seq_index(dv, i as int);
            }
            return false;
        }
        proof {
            assert(dv.take(i + 1).drop_last() =~= dv.take(i as int));
            assert(dv.take(i + 1).last() == dv[i as int]);
        }
        i = i + 1;
    }
    proof {
        assert(dv.take(n as int) =~= dv);
    }
    true
}

/// A failing element refutes the whole list.
proof fn lemma_cases_ok_seq_index(s: Seq<ExprView>, i: int)
    requires
        0 <= i < s.len(),
        !cases_ok(s[i]),
    ensures
        !cases_ok_seq(s),
    decreases s.len(),
{
    if i < s.len() - 1 {
        lemma_cases_ok_seq_index(s.drop_last(), i);
    }
}

/// Some name of the list is already bound.
pub open spec fn any_contained(names: Seq<Seq<char>>, defined: Seq<Seq<char>>) -> bool
    decreases names.len(),
{
    if names.len() == 0 {
        false
    } else {
        any_contained(names.drop_last(), defined) || defined.contains(names.last())
    }
}

/// The shadowing scan of a tree under the names already in scope: it
/// reports a binder that rebinds a name already in scope.  A
/// non-recursive block checks each definition with only its own name
/// added; a recursive block makes every name visible everywhere.
pub open spec fn spec_shadowing(e: ExprView, defined: Seq<Seq<char>>) -> bool
    decreases e, 1int,
{
    match e {
        ExprView::Lam { param, body } => if defined.contains(param) {
            true
        } else {
            spec_shadowing(*body, defined.push(param))
        },
        ExprView::Let { names, defs, body } => any_contained(names, defined)
            || shadowing_let_defs(names, defs, defined) || spec_shadowing(*body, defined + names),
        ExprView::LetRec { names, defs, body } => shadowing_any(defs, defined + names)
            || spec_shadowing(*body, defined + names),
        ExprView::Var { .. } => false,
        ExprView::App { func, arg } => spec_shadowing(*func, defined) || spec_shadowing(
            *arg,
            defined,
        ),
        ExprView::Case { scrutinee, branches, .. } => shadowing_any(branches, defined)
            || spec_shadowing(*scrutinee, defined),
        ExprView::If { cond, then_branch, else_branch } => spec_shadowing(*cond, defined)
            || spec_shadowing(*then_branch, defined) || spec_shadowing(*else_branch, defined),
        _ => false,
    }
}

/// The shadowing scan over a list, every expression under one scope.
pub open spec fn shadowing_any(s: Seq<ExprView>, defined: Seq<Seq<char>>) -> bool
    decreases s, 0int,
{
    if s.len() == 0 {
        false
    } else {
        shadowing_any(s.drop_last(), defined) || spec_shadowing(s.last(), defined)
    }
}

/// The shadowing scan over a non-recursive block's definitions, each with
/// only its own name added to the scope.
pub open spec fn shadowing_let_defs(
    names: Seq<Seq<char>>,
    defs: Seq<ExprView>,
    defined: Seq<Seq<char>>,
) -> bool
    decreases defs, 0int,
{
    if names.len() == 0 || defs.len() == 0 {
        false
    } else {
        shadowing_let_defs(names.drop_last(), defs.drop_last(), defined) || spec_shadowing(
            defs.last(),
            defined.push(names.last()),
        )
    }
}

/// A name already in scope among the first few refutes the whole list.
proof fn lemma_any_contained_index(names: Seq<Seq<char>>, defined: Seq<Seq<char>>, i: int)
    requires
        0 <= i < names.len(),
        defined.contains(names[i]),
    ensures
        any_contained(names, defined),
    decreases names.len(),
{
    if i < names.len() - 1 {
        lemma_any_contained_index(names.drop_last(), defined, i);
    }
}

/// A scan hit at one index confirms the whole list's scan.
proof fn lemma_shadowing_any_index(s: Seq<ExprView>, defined: Seq<Seq<char>>, i: int)
    requires
        0 <= i < s.len(),
        spec_shadowing(s[i], defined),
    ensures
        shadowing_any(s, defined),
    decreases s.len(),
{
    if i < s.len() - 1 {
        lemma_shadowing_any_index(s.drop_last(), defined, i);
    }
}

/// A scan hit at one definition confirms the block's scan.
proof fn lemma_shadowing_let_defs_index(
    names: Seq<Seq<char>>,
    defs: Seq<ExprView>,
    defined: Seq<Seq<char>>,
    i: int,
)
    requires
        names.len() == defs.len(),
        0 <= i < defs.len(),
        spec_shadowing(defs[i], defined.push(names[i])),
    ensures
        shadowing_let_defs(names, defs, defined),
    decreases defs.len(),
{
    if i < defs.len() - 1 {
        lemma_shadowing_let_defs_index(names.drop_last(), defs.drop_last(), defined, i);
    }
}

/// The names in scope, extended by a block's names.
fn extend_defined(defined: &Vec<String>, names: &Vec<String>) -> (r: Vec<String>)
    ensures
        names_view(r@) == names_view(defined@) + names_view(names@),
{
    let mut r = crate::ast::clone_strings(defined);
    let n = names.len();
    let mut i: usize = 0;
    while i < n
        invariant
            n == names@.len(),
            0 <= i <= n,
            r@ =~= defined@ + names@.take(i as int),
        decreases n - i,
    {
        r.push(names[i].clone());
        proof {
            assert(r@ =~= defined@ + names@.take(i + 1));
        }
        i = i + 1;
    }
    proof {
        assert(names@.take(n as int) =~= names@);
        assert(r@ =~= defined@ + names@);
        assert forall|m: int|
            0 <= m < r@.len() implies names_view(r@)[m] == (names_view(defined@) + names_view(
            names@,
        ))[m] by {
            if m < defined@.len() {
                assert(r@[m] == defined@[m]);
            } else {
                assert(r@[m] == names@[m - defined@.len()]);
            }
        }
        assert(names_view(r@) =~= names_view(defined@) + names_view(names@));
    }
    r
}

/// Every binding block in the tree binds as many names as it has
/// definitions — all the shape the shadowing scan relies on.
pub open spec fn scan_wf(e: ExprView) -> bool
    decreases e,
{
    match e {
        ExprView::Lam { body, .. } => scan_wf(*body),
        ExprView::App { func, arg } => scan_wf(*func) && scan_wf(*arg),
        ExprView::If { cond, then_branch, else_branch } => scan_wf(*cond) && scan_wf(*then_branch)
            && scan_wf(*else_branch),
        ExprView::Let { names, defs, body } => names.len() == defs.len() && scan_wf_seq(defs)
            && scan_wf(*body),
        ExprView::LetRec { names, defs, body } => names.len() == defs.len() && scan_wf_seq(defs)
            && scan_wf(*body),
        ExprView::Case { scrutinee, branches, .. } => scan_wf(*scrutinee) && scan_wf_seq(branches),
        _ => true,
    }
}

/// `scan_wf` over a list of expressions.
pub open spec fn scan_wf_seq(s: Seq<ExprView>) -> bool
    decreases s,
{
    if s.len() == 0 {
        true
    } else {
        scan_wf_seq(s.drop_last()) && scan_wf(s.last())
    }
}

/// An element of a scannable list is scannable.
proof fn lemma_scan_wf_seq_index(s: Seq<ExprView>, i: int)
    requires
        scan_wf_seq(s),
        0 <= i < s.len(),
    ensures
        scan_wf(s[i]),
    decreases s.len(),
{
    if i < s.len() - 1 {
        lemma_scan_wf_seq_index(s.drop_last(), i);
    }
}

/// Whether any binder in the tree rebinds a name already in scope.
#[verifier::loop_isolation(false)]
pub fn shadowing(expr: &Rc<Expr>, defined: Vec<String>) -> (r: bool)
    requires
        scan_wf(expr@),
    ensures
        r == spec_shadowing(expr@, names_view(defined@)),
    decreases **expr, 1int,
{
    let ghost dv = names_view(defined@);
    match &**expr {
        Expr::Lam(head, body) => {
            if crate::rearrange::contains_string(&defined, head) {
                true
            } else {
                let mut defined = defined;
                defined.push(head.clone());
                proof {
                    assert(names_view(defined@) =~= dv.push(head@));
                }
                shadowing(body, defined)
            }
        },
        Expr::Let(vars, defs, body) => {
            proof {
                lemma_exprs_view_len(defs@);
            }
            let ghost nv = names_view(vars@);
            let ghost dfv = exprs_view(defs@);
            let n = vars.len();
            let mut i: usize = 0;
            while i < n
                invariant
                    0 <= i <= n,
                    !any_contained(nv.take(i as int), dv),
                    !shadowing_let_defs(nv.take(i as int), dfv.take(i as int), dv),
                decreases n - i,
            {
                proof {
                    assert(nv[i as int] == vars@[i as int]@);
                    lemma_exprs_view_index(defs@, i as int);
                }
                if crate::rearrange::contains_string(&defined, &vars[i]) {
                    proof {
                        lemma_any_contained_index(nv, dv, i as int);
                    }
                    return true;
                }
                let mut d_ind = crate::ast::clone_strings(&defined);
                d_ind.push(vars[i].clone());
                proof {
                    assert(names_view(d_ind@) =~= dv.push(nv[i as int]));
                }
                proof {
                    lemma_scan_wf_seq_index(dfv, i as int);
                }
                if shadowing(&defs[i], d_ind) {
                    proof {
                        lemma_shadowing_let_defs_index(nv, dfv, dv, i as int);
                    }
                    return true;
                }
                proof {
                    assert(nv.take(i + 1).drop_last() =~= nv.take(i as int));
                    assert(dfv.take(i + 1).drop_last() =~= dfv.take(i as int));
                    assert(nv.take(i + 1).last() == nv[i as int]);
                    assert(dfv.take(i + 1).last() == dfv[i as int]);
                }
                i = i + 1;
            }
            proof {
                assert(nv.take(n as int) =~= nv);
                assert(dfv.take(n as int) =~= dfv);
            }
            let d2 = extend_defined(&defined, vars);
            shadowing(body, d2)
        },
        Expr::LetRec(vars, defs, body) => {
            proof {
                lemma_exprs_view_len(defs@);
            }
            let d2 = extend_defined(&defined, vars);
            let ghost d2v = names_view(d2@);
            let ghost dfv = exprs_view(defs@);
            let n = defs.len();
            let mut i: usize = 0;
            while i < n
                invariant
                    0 <= i <= n,
                    !shadowing_any(dfv.take(i as int), d2v),
                decreases n - i,
            {
                proof {
                    lemma_exprs_view_index(defs@, i as int);
                }
                proof {
                    lemma_scan_wf_seq_index(dfv, i as int);
                }
                let d_i = crate::ast::clone_strings(&d2);
                if shadowing(&defs[i], d_i) {
                    proof {
                        lemma_shadowing_any_index(dfv, d2v, i as int);
                    }
                    return true;
                }
                proof {
                    assert(dfv.take(i + 1).drop_last() =~= dfv.take(i as int));
                    assert(dfv.take(i + 1).last() == dfv[i as int]);
                }
                i = i + 1;
            }
            proof {
                assert(dfv.take(n as int) =~= dfv);
            }
            shadowing(body, d2)
        },
        Expr::Var(_, _) => false,
        Expr::App(left, right) => {
            let dl = crate::ast::clone_strings(&defined);
            let l = shadowing(left, dl);
            l || shadowing(right, defined)
        },
        Expr::Case(scrut, _, branches) => {
            proof {
                lemma_exprs_view_len(branches@);
            }
            let ghost bv = exprs_view(branches@);
            let n = branches.len();
            let mut i: usize = 0;
            while i < n
                invariant
                    0 <= i <= n,
                    !shadowing_any(bv.take(i as int), dv),
                decreases n - i,
            {
                proof {
                    lemma_exprs_view_index(branches@, i as int);
                }
                proof {
                    lemma_scan_wf_seq_index(bv, i as int);
                }
                let d_i = crate::ast::clone_strings(&defined);
                if shadowing(&branches[i], d_i) {
                    proof {
                        lemma_shadowing_any_index(bv, dv, i as int);
                    }
                    return true;
                }
                proof {
                    assert(bv.take(i + 1).drop_last() =~= bv.take(i as int));
                    assert(bv.take(i + 1).last() == bv[i as int]);
                }
                i = i + 1;
            }
            proof {
                assert(bv.take(n as int) =~= bv);
            }
            shadowing(scrut, defined)
        },
        Expr::If(cond, b1, b2) => {
            let d1 = crate::ast::clone_strings(&defined);
            let c = shadowing(cond, d1);
            if c {
                true
            } else {
                let d2 = crate::ast::clone_strings(&defined);
                let t = shadowing(b1, d2);
                t || shadowing(b2, defined)
            }
        },
        _ => false,
    }
}

} // verus!
