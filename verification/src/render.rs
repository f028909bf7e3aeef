//! The textual rendering of expressions and patterns: the program's entire
//! user-visible output.  Constructor values print as `(Tag field…)`,
//! lambdas as `(\ param . body)`, the failure markers by name.

use crate::ast::{
    expr_view, exprs_view, lemma_exprs_view_index, lemma_exprs_view_len, names_view,
    pattern_view, patterns_view, Expr, ExprView, Pattern, PatternView,
};
use crate::bignum::{big_to_str, dec_str};
use std::rc::Rc;
use vstd::prelude::*;
use vstd::string::StringExecFns;

verus! {

/// Every binding block and case in the tree has as many definitions and
/// branches as it has names and patterns.
pub open spec fn render_wf(e: ExprView) -> bool
    decreases e,
{
    match e {
        ExprView::Lam { body, .. } => render_wf(*body),
        ExprView::App { func, arg } => render_wf(*func) && render_wf(*arg),
        ExprView::If { cond, then_branch, else_branch } => render_wf(*cond) && render_wf(
            *then_branch,
        ) && render_wf(*else_branch),
        ExprView::Let { names, defs, body } => names.len() == defs.len() && render_wf_seq(defs)
            && render_wf(*body),
        ExprView::LetRec { names, defs, body } => names.len() == defs.len() && render_wf_seq(defs)
            && render_wf(*body),
        ExprView::Data { fields, .. } => render_wf_seq(fields),
        ExprView::Builtin { fields, .. } => render_wf_seq(fields),
        ExprView::Case { scrutinee, patterns, branches } => patterns.len() == branches.len()
            && render_wf(*scrutinee) && render_wf_seq(branches),
        _ => true,
    }
}

/// `render_wf` over a list of expressions.
pub open spec fn render_wf_seq(s: Seq<ExprView>) -> bool
    decreases s,
{
    if s.len() == 0 {
        true
    } else {
        render_wf_seq(s.drop_last()) && render_wf(s.last())
    }
}

/// An element of a well-formed list renders well-formed.
proof fn lemma_render_wf_seq_index(s: Seq<ExprView>, i: int)
    requires
        render_wf_seq(s),
        0 <= i < s.len(),
    ensures
        render_wf(s[i]),
    decreases s.len(),
{
    if i < s.len() - 1 {
        lemma_render_wf_seq_index(s.drop_last(), i);
    }
}

/// The text an expression renders to.
pub open spec fn render_expr(e: ExprView) -> Seq<char>
    decreases e, 0int,
{
    match e {
        ExprView::Var { name, .. } => name,
        ExprView::Lam { param, body } => "(\\ "@ + param + " . "@ + render_expr(*body) + ")"@,
        ExprView::App { func, arg } => "("@ + render_expr(*func) + " "@ + render_expr(*arg)
            + ")"@,
        ExprView::Int { value } => dec_str(value),
        ExprView::StrLit { text } => text,
        ExprView::Data { tag, fields, .. } => "("@ + tag + render_fields(fields) + ")"@,
        ExprView::Let { names, defs, body } => "let "@ + render_binds(names, defs) + "in "@
            + render_expr(*body),
        ExprView::LetRec { names, defs, body } => "letrec "@ + render_binds(names, defs) + "in "@
            + render_expr(*body),
        ExprView::Case { scrutinee, patterns, branches } => "case "@ + render_expr(*scrutinee)
            + " of ["@ + render_branches(patterns, branches) + "]"@,
        ExprView::If { cond, then_branch, else_branch } => "if "@ + render_expr(*cond) + " "@
            + render_expr(*then_branch) + " "@ + render_expr(*else_branch),
        ExprView::Builtin { name, fields, .. } => "("@ + name + render_fields(fields) + ")"@,
        ExprView::Error { message } => "Error "@ + message,
        ExprView::Bottom => "_|_"@,
    }
}

/// The fields of a constructor or built-in, each preceded by a space.
pub open spec fn render_fields(fields: Seq<ExprView>) -> Seq<char>
    decreases fields, 0int,
{
    if fields.len() == 0 {
        Seq::empty()
    } else {
        render_fields(fields.drop_last()) + " "@ + render_expr(fields.last())
    }
}

/// The bindings of a block, each as `name = def; `, in order.
pub open spec fn render_binds(names: Seq<Seq<char>>, defs: Seq<ExprView>) -> Seq<char>
    decreases defs, 0int,
{
    if names.len() == 0 || defs.len() == 0 {
        Seq::empty()
    } else {
        render_binds(names.drop_last(), defs.drop_last()) + names.last() + " = "@ + render_expr(
            defs.last(),
        ) + "; "@
    }
}

/// The alternatives of a case, each as `pattern -> branch; `, in order.
pub open spec fn render_branches(pats: Seq<PatternView>, branches: Seq<ExprView>) -> Seq<char>
    decreases branches, 0int,
{
    if pats.len() == 0 || branches.len() == 0 {
        Seq::empty()
    } else {
        render_branches(pats.drop_last(), branches.drop_last()) + render_pattern(pats.last())
            + " -> "@ + render_expr(branches.last()) + "; "@
    }
}

/// The text a pattern renders to.
pub open spec fn render_pattern(p: PatternView) -> Seq<char> {
    match p {
        PatternView::Wildcard => "_"@,
        PatternView::Irrefutable { name } => name,
        PatternView::Construct { tag, vars } => tag + render_pat_vars(vars, vars.len()),
        PatternView::Int { value } => dec_str(value),
        PatternView::StrLit { text } => text,
    }
}

/// The first `n` variables of a constructor pattern, each preceded by a
/// space.
pub open spec fn render_pat_vars(vars: Seq<Seq<char>>, n: nat) -> Seq<char>
    decreases n,
{
    if n == 0 {
        Seq::empty()
    } else {
        render_pat_vars(vars, (n - 1) as nat) + " "@ + vars[n - 1]
    }
}

impl Pattern {
    /// The text this pattern renders to.
    pub fn render(&self) -> (r: String)
        ensures
            r@ == render_pattern(self@),
    {
        match self {
            Pattern::Wildcard => String::from_str("_"),
            Pattern::Irrefutable(s) => s.clone(),
            Pattern::Construct(cons, vars) => {
                let mut out = cons.clone();
                let n = vars.len();
                let mut i: usize = 0;
                while i < n
                    invariant
                        n == vars@.len(),
                        0 <= i <= n,
                        out@ == cons@ + render_pat_vars(names_view(vars@), i as nat),
                    decreases n - i,
                {
                    out.append(" ");
                    out.append(vars[i].as_str());
                    proof {
                        assert(names_view(vars@)[i as int] == vars@[i as int]@);
                    }
                    i = i + 1;
                }
                proof {
                    assert(names_view(vars@).len() == vars@.len());
                }
                out
            },
            Pattern::Int(b) => big_to_str(b),
            Pattern::Str(s) => s.clone(),
        }
    }
}

impl Expr {
    /// The text this expression renders to.
    pub fn render(&self) -> (r: String)
        requires
            render_wf(self@),
        ensures
            r@ == render_expr(self@),
        decreases *self, 0int,
    {
        match self {
            Expr::Var(s, _) => s.clone(),
            Expr::Lam(head, body) => {
                let mut out = String::from_str("(\\ ");
                out.append(head.as_str());
                out.append(" . ");
                let b = body.render();
                out.append(b.as_str());
                out.append(")");
                out
            },
            Expr::App(left, right) => {
                let mut out = String::from_str("(");
                let l = left.render();
                out.append(l.as_str());
                out.append(" ");
                let rr = right.render();
                out.append(rr.as_str());
                out.append(")");
                out
            },
            Expr::Int(b) => big_to_str(b),
            Expr::Str(s) => s.clone(),
            Expr::Data(_, _, tag, fields) => {
                let mut out = String::from_str("(");
                out.append(tag.as_str());
                let f = render_fields_exec(fields);
                out.append(f.as_str());
                out.append(")");
                out
            },
            Expr::Builtin(_, name, _, fields) => {
                let mut out = String::from_str("(");
                out.append(name.as_str());
                let f = render_fields_exec(fields);
                out.append(f.as_str());
                out.append(")");
                out
            },
            Expr::Let(names, defs, body) => {
                proof {
                    lemma_exprs_view_len(defs@);
                }
                let mut out = String::from_str("let ");
                let bs = render_binds_exec(names, defs);
                out.append(bs.as_str());
                out.append("in ");
                let b = body.render();
                out.append(b.as_str());
                out
            },
            Expr::LetRec(names, defs, body) => {
                proof {
                    lemma_exprs_view_len(defs@);
                }
                let mut out = String::from_str("letrec ");
                let bs = render_binds_exec(names, defs);
                out.append(bs.as_str());
                out.append("in ");
                let b = body.render();
                out.append(b.as_str());
                out
            },
            Expr::Case(scrut, pats, branches) => {
                proof {
                    lemma_exprs_view_len(branches@);
                }
                let mut out = String::from_str("case ");
                let sv = scrut.render();
                out.append(sv.as_str());
                out.append(" of [");
                let bs = render_branches_exec(pats, branches);
                out.append(bs.as_str());
                out.append("]");
                out
            },
            Expr::If(cond, b1, b2) => {
                let mut out = String::from_str("if ");
                let c = cond.render();
                out.append(c.as_str());
                out.append(" ");
                let t = b1.render();
                out.append(t.as_str());
                out.append(" ");
                let e2 = b2.render();
                out.append(e2.as_str());
                out
            },
            Expr::Error(s) => {
                let mut out = String::from_str("Error ");
                out.append(s.as_str());
                out
            },
            Expr::Bottom => String::from_str("_|_"),
        }
    }
}

/// Render the fields of a constructor or built-in, each preceded by a
/// space.
#[verifier::loop_isolation(false)]
fn render_fields_exec(fields: &Vec<Rc<Expr>>) -> (r: String)
    requires
        render_wf_seq(exprs_view(fields@)),
    ensures
        r@ == render_fields(exprs_view(fields@)),
    decreases fields@, 0int,
{
    let ghost fv = exprs_view(fields@);
    proof {
        lemma_exprs_view_len(fields@);
    }
    let mut out = String::new();
    let n = fields.len();
    let mut i: usize = 0;
    proof {
        assert(fv.take(0) =~= Seq::<ExprView>::empty());
    }
    while i < n
        invariant
            0 <= i <= n,
            out@ == render_fields(fv.take(i as int)),
        decreases n - i,
    {
        proof {
            lemma_exprs_view_index(fields@, i as int);
            lemma_render_wf_seq_take_index(fv, i as int);
        }
        out.append(" ");
        let f = fields[i].render();
        out.append(f.as_str());
        proof {
            assert(fv.take(i + 1).drop_last() =~= fv.take(i as int));
            assert(fv.take(i + 1).last() == fv[i as int]);
        }
        i = i + 1;
    }
    proof {
        assert(fv.take(n as int) =~= fv);
    }
    out
}

/// An element of a well-formed list is renderable, through a prefix.
proof fn lemma_render_wf_seq_take_index(s: Seq<ExprView>, i: int)
    requires
        render_wf_seq(s),
        0 <= i < s.len(),
    ensures
        render_wf(s[i]),
{
    lemma_render_wf_seq_index(s, i);
}

/// Render the bindings of a block, each as `name = def; `.
#[verifier::loop_isolation(false)]
fn render_binds_exec(names: &Vec<String>, defs: &Vec<Rc<Expr>>) -> (r: String)
    requires
        names@.len() == defs@.len(),
        render_wf_seq(exprs_view(defs@)),
    ensures
        r@ == render_binds(names_view(names@), exprs_view(defs@)),
    decreases defs@, 0int,
{
    let ghost nv = names_view(names@);
    let ghost dv = exprs_view(defs@);
    proof {
        lemma_exprs_view_len(defs@);
        assert(nv.take(0) =~= Seq::<Seq<char>>::empty());
        assert(dv.take(0) =~= Seq::<ExprView>::empty());
    }
    let mut out = String::new();
    let n = names.len();
    let mut i: usize = 0;
    while i < n
        invariant
            0 <= i <= n,
            out@ == render_binds(nv.take(i as int), dv.take(i as int)),
        decreases n - i,
    {
        proof {
            lemma_exprs_view_index(defs@, i as int);
            lemma_render_wf_seq_index(dv, i as int);
            assert(nv[i as int] == names@[i as int]@);
        }
        out.append(names[i].as_str());
        out.append(" = ");
        let d = defs[i].render();
        out.append(d.as_str());
        out.append("; ");
        proof {
            assert(nv.take(i + 1).drop_last() =~= nv.take(i as int));
            assert(dv.take(i + 1).drop_last() =~= dv.take(i as int));
            assert(nv.take(i + 1).last() == nv[i as int]);
            assert(dv.take(i + 1).last() == dv[i as int]);
        }
        i = i + 1;
    }
    proof {
        assert(nv.take(n as int) =~= nv);
        assert(dv.take(n as int) =~= dv);
    }
    out
}

/// Render the alternatives of a case, each as `pattern -> branch; `.
#[verifier::loop_isolation(false)]
fn render_branches_exec(pats: &Vec<Rc<Pattern>>, branches: &Vec<Rc<Expr>>) -> (r: String)
    requires
        pats@.len() == branches@.len(),
        render_wf_seq(exprs_view(branches@)),
    ensures
        r@ == render_branches(patterns_view(pats@), exprs_view(branches@)),
    decreases branches@, 0int,
{
    let ghost pv = patterns_view(pats@);
    let ghost bv = exprs_view(branches@);
    proof {
        lemma_exprs_view_len(branches@);
        assert(pv.take(0) =~= Seq::<PatternView>::empty());
        assert(bv.take(0) =~= Seq::<ExprView>::empty());
    }
    let mut out = String::new();
    let n = pats.len();
    let mut i: usize = 0;
    while i < n
        invariant
            0 <= i <= n,
            out@ == render_branches(pv.take(i as int), bv.take(i as int)),
        decreases n - i,
    {
        proof {
            lemma_exprs_view_index(branches@, i as int);
            lemma_render_wf_seq_index(bv, i as int);
            assert(pv[i as int] == pattern_view(*pats@[i as int]));
        }
        let p = pats[i].render();
        out.append(p.as_str());
        out.append(" -> ");
        let b = branches[i].render();
        out.append(b.as_str());
        out.append("; ");
        proof {
            assert(pv.take(i + 1).drop_last() =~= pv.take(i as int));
            assert(bv.take(i + 1).drop_last() =~= bv.take(i as int));
            assert(pv.take(i + 1).last() == pv[i as int]);
            assert(bv.take(i + 1).last() == bv[i as int]);
        }
        i = i + 1;
    }
    proof {
        assert(pv.take(n as int) =~= pv);
        assert(bv.take(n as int) =~= bv);
    }
    out
}

} // verus!
