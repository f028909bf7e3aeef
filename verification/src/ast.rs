//! The expression tree, its patterns, and their mathematical models.
//!
//! Subtrees are shared by reference (`Rc`); the only annotation the later
//! passes write is each variable's skip depth, and the resolver realises
//! that write by rebuilding the affected spine of the tree.

use crate::bignum::int_value;
use num::bigint::BigInt;
use std::rc::Rc;
use vstd::prelude::*;

verus! {

/// The native operation a `Builtin` node applies once saturated.
#[derive(Debug, Clone, Copy, PartialEq, Eq, Structural)]
pub enum BuiltinOp {
    Add,
    Sub,
    Mul,
    Div,
    Eq,
}

/// One node of the expression graph.
#[derive(Debug)]
pub enum Expr {
    /// Variable occurrence: name and resolved skip depth.
    Var(String, usize),
    /// Arbitrary-precision integer literal.
    Int(BigInt),
    /// Text literal.
    Str(String),
    /// Lambda: parameter name and body.
    Lam(String, Rc<Expr>),
    /// Application of a function to one argument.
    App(Rc<Expr>, Rc<Expr>),
    /// Non-recursive binding block: names, definitions, body.
    Let(Vec<String>, Vec<Rc<Expr>>, Rc<Expr>),
    /// Recursive binding block: names, definitions, body.
    LetRec(Vec<String>, Vec<Rc<Expr>>, Rc<Expr>),
    /// Data constructor: arity, type name, constructor tag, fields.
    Data(usize, String, String, Vec<Rc<Expr>>),
    /// Pattern match: scrutinee, patterns, branches (parallel arrays).
    Case(Rc<Expr>, Vec<Rc<Pattern>>, Vec<Rc<Expr>>),
    /// Conditional: condition, then-branch, else-branch.
    If(Rc<Expr>, Rc<Expr>, Rc<Expr>),
    /// Built-in function: arity, display name, operation, fields.
    Builtin(usize, String, BuiltinOp, Vec<Rc<Expr>>),
    /// User-authored failure marker.
    Error(String),
    /// Explicit non-termination marker.
    Bottom,
}

/// One pattern of a `Case` node.
#[derive(Debug)]
pub enum Pattern {
    /// Matches anything, binds nothing.
    Wildcard,
    /// Matches anything, binds the whole value.
    Irrefutable(String),
    /// Matches a constructor value by tag and field count.
    Construct(String, Vec<String>),
    /// Matches an equal integer literal.
    Int(BigInt),
    /// Matches an equal text literal.
    Str(String),
}

/// Mathematical model of an expression node.
pub enum ExprView {
    Var { name: Seq<char>, depth: nat },
    Int { value: int },
    StrLit { text: Seq<char> },
    Lam { param: Seq<char>, body: Box<ExprView> },
    App { func: Box<ExprView>, arg: Box<ExprView> },
    Let { names: Seq<Seq<char>>, defs: Seq<ExprView>, body: Box<ExprView> },
    LetRec { names: Seq<Seq<char>>, defs: Seq<ExprView>, body: Box<ExprView> },
    Data { arity: nat, ty_name: Seq<char>, tag: Seq<char>, fields: Seq<ExprView> },
    Case { scrutinee: Box<ExprView>, patterns: Seq<PatternView>, branches: Seq<ExprView> },
    If { cond: Box<ExprView>, then_branch: Box<ExprView>, else_branch: Box<ExprView> },
    Builtin { arity: nat, name: Seq<char>, op: BuiltinOp, fields: Seq<ExprView> },
    Error { message: Seq<char> },
    Bottom,
}

/// Mathematical model of a pattern.
pub enum PatternView {
    Wildcard,
    Irrefutable { name: Seq<char> },
    Construct { tag: Seq<char>, vars: Seq<Seq<char>> },
    Int { value: int },
    StrLit { text: Seq<char> },
}

/// The model of a list of names.
pub open spec fn names_view(s: Seq<String>) -> Seq<Seq<char>> {
    s.map_values(|n: String| n@)
}

/// The model of an expression node.
pub open spec fn expr_view(e: Expr) -> ExprView
    decreases e,
{
    match e {
        Expr::Var(name, depth) => ExprView::Var { name: name@, depth: depth as nat },
        Expr::Int(b) => ExprView::Int { value: int_value(b) },
        Expr::Str(s) => ExprView::StrLit { text: s@ },
        Expr::Lam(p, body) => ExprView::Lam {
            param: p@,
            body: Box::new(expr_view(*body)),
        },
        Expr::App(f, a) => ExprView::App {
            func: Box::new(expr_view(*f)),
            arg: Box::new(expr_view(*a)),
        },
        Expr::Let(names, defs, body) => ExprView::Let {
            names: names_view(names@),
            defs: exprs_view(defs@),
            body: Box::new(expr_view(*body)),
        },
        Expr::LetRec(names, defs, body) => ExprView::LetRec {
            names: names_view(names@),
            defs: exprs_view(defs@),
            body: Box::new(expr_view(*body)),
        },
        Expr::Data(arity, ty, tag, fields) => ExprView::Data {
            arity: arity as nat,
            ty_name: ty@,
            tag: tag@,
            fields: exprs_view(fields@),
        },
        Expr::Case(scrut, pats, branches) => ExprView::Case {
            scrutinee: Box::new(expr_view(*scrut)),
            patterns: patterns_view(pats@),
            branches: exprs_view(branches@),
        },
        Expr::If(c, t, e2) => ExprView::If {
            cond: Box::new(expr_view(*c)),
            then_branch: Box::new(expr_view(*t)),
            else_branch: Box::new(expr_view(*e2)),
        },
        Expr::Builtin(arity, name, op, fields) => ExprView::Builtin {
            arity: arity as nat,
            name: name@,
            op,
            fields: exprs_view(fields@),
        },
        Expr::Error(msg) => ExprView::Error { message: msg@ },
        Expr::Bottom => ExprView::Bottom,
    }
}

/// The model of a list of shared expression nodes.
pub open spec fn exprs_view(s: Seq<Rc<Expr>>) -> Seq<ExprView>
    decreases s,
{
    if s.len() == 0 {
        Seq::empty()
    } else {
        exprs_view(s.drop_last()).push(expr_view(*s.last()))
    }
}

/// The model of a pattern.
pub open spec fn pattern_view(p: Pattern) -> PatternView {
    match p {
        Pattern::Wildcard => PatternView::Wildcard,
        Pattern::Irrefutable(n) => PatternView::Irrefutable { name: n@ },
        Pattern::Construct(tag, vars) => PatternView::Construct {
            tag: tag@,
            vars: names_view(vars@),
        },
        Pattern::Int(b) => PatternView::Int { value: int_value(b) },
        Pattern::Str(s) => PatternView::StrLit { text: s@ },
    }
}

/// The model of a list of shared patterns.
pub open spec fn patterns_view(s: Seq<Rc<Pattern>>) -> Seq<PatternView> {
    s.map_values(|p: Rc<Pattern>| pattern_view(*p))
}

impl View for Expr {
    type V = ExprView;

    open spec fn view(&self) -> ExprView {
        expr_view(*self)
    }
}

impl View for Pattern {
    type V = PatternView;

    open spec fn view(&self) -> PatternView {
        pattern_view(*self)
    }
}

/// `exprs_view` indexes pointwise.
pub proof fn lemma_exprs_view_index(s: Seq<Rc<Expr>>, i: int)
    requires
        0 <= i < s.len(),
    ensures
        exprs_view(s).len() == s.len(),
        exprs_view(s)[i] == expr_view(*s[i]),
    decreases s.len(),
{
    if s.len() > 0 {
        if i < s.len() - 1 {
            lemma_exprs_view_index(s.drop_last(), i);
        } else {
            lemma_exprs_view_len(s.drop_last());
        }
    }
}

/// A fresh list sharing the same expression nodes.
pub fn clone_exprs(v: &Vec<Rc<Expr>>) -> (r: Vec<Rc<Expr>>)
    ensures
        r@ == v@,
{
    let mut r: Vec<Rc<Expr>> = Vec::new();
    let n = v.len();
    let mut i: usize = 0;
    while i < n
        invariant
            n == v.len(),
            0 <= i <= n,
            r@ =~= v@.take(i as int),
        decreases n - i,
    {
        r.push(v[i].clone());
        proof {
            assert(r@ =~= v@.take(i + 1));
        }
        i = i + 1;
    }
    proof {
        assert(r@ =~= v@);
    }
    r
}

/// One top-level definition: a bound name and its definition, either a
/// data constructor's or an ordinary one.
#[derive(Debug)]
pub struct Definition {
    pub assign: String,
    pub def: Rc<Expr>,
}

impl Definition {
    /// Package one binding.
    pub fn new(assign: String, def: Rc<Expr>) -> (r: Definition)
        ensures
            r.assign == assign,
            r.def == def,
    {
        Definition { assign, def }
    }
}

/// The top level of a program: its data-constructor bindings and its
/// ordinary definitions.
#[derive(Debug)]
pub struct Toplevel {
    pub data: Vec<Definition>,
    pub defs: Vec<Definition>,
}

/// The names a list of definitions binds, in order.
pub open spec fn defs_names(s: Seq<Definition>) -> Seq<Seq<char>> {
    s.map_values(|d: Definition| d.assign@)
}

/// The definitions a list of definitions binds, in order.
pub open spec fn defs_bodies(s: Seq<Definition>) -> Seq<ExprView> {
    s.map_values(|d: Definition| expr_view(*d.def))
}

impl Toplevel {
    /// The whole program as a single recursive block around a reference to
    /// `main`: the data-constructor bindings first, then the ordinary
    /// definitions.
    #[verifier::loop_isolation(false)]
    pub fn to_let(&self) -> (r: Rc<Expr>)
        ensures
            r@ == (ExprView::LetRec {
                names: defs_names(self.data@) + defs_names(self.defs@),
                defs: defs_bodies(self.data@) + defs_bodies(self.defs@),
                body: Box::new(ExprView::Var { name: "main"@, depth: 0 }),
            }),
    {
        let mut vars: Vec<String> = Vec::new();
        let mut defs: Vec<Rc<Expr>> = Vec::new();
        let dn = self.data.len();
        let mut i: usize = 0;
        while i < dn
            invariant
                0 <= i <= dn,
                vars@.len() == i,
                defs@.len() == i,
                forall|m: int| 0 <= m < i ==> (#[trigger] vars@[m]) == self.data@[m].assign,
                forall|m: int| 0 <= m < i ==> (#[trigger] defs@[m]) == self.data@[m].def,
            decreases dn - i,
        {
            let ghost v0 = vars@;
            let ghost d0 = defs@;
            vars.push(self.data[i].assign.clone());
            defs.push(self.data[i].def.clone());
            proof {
                assert(vars@[i as int] == self.data@[i as int].assign);
                assert(defs@[i as int] == self.data@[i as int].def);
                assert(forall|m: int| 0 <= m < i ==> (#[trigger] vars@[m]) == v0[m]);
                assert(forall|m: int| 0 <= m < i ==> (#[trigger] defs@[m]) == d0[m]);
            }
            i = i + 1;
        }
        let en = self.defs.len();
        let mut j: usize = 0;
        while j < en
            invariant
                0 <= j <= en,
                vars@.len() == dn + j,
                defs@.len() == dn + j,
                forall|m: int| 0 <= m < dn ==> (#[trigger] vars@[m]) == self.data@[m].assign,
                forall|m: int| 0 <= m < dn ==> (#[trigger] defs@[m]) == self.data@[m].def,
                forall|m: int|
                    dn <= m < dn + j ==> (#[trigger] vars@[m]) == self.defs@[m - dn].assign,
                forall|m: int|
                    dn <= m < dn + j ==> (#[trigger] defs@[m]) == self.defs@[m - dn].def,
            decreases en - j,
        {
            let ghost v0 = vars@;
            let ghost d0 = defs@;
            vars.push(self.defs[j].assign.clone());
            defs.push(self.defs[j].def.clone());
            proof {
                assert(vars@[dn + j] == self.defs@[j as int].assign);
                assert(defs@[dn + j] == self.defs@[j as int].def);
                assert(forall|m: int| 0 <= m < dn + j ==> (#[trigger] vars@[m]) == v0[m]);
                assert(forall|m: int| 0 <= m < dn + j ==> (#[trigger] defs@[m]) == d0[m]);
            }
            j = j + 1;
        }
        proof {
            let total = defs_names(self.data@) + defs_names(self.defs@);
            assert forall|m: int| 0 <= m < dn + en implies names_view(vars@)[m] == total[m] by {
                assert(names_view(vars@)[m] == vars@[m]@);
                if m < dn {
                    assert(vars@[m] == self.data@[m].assign);
                } else {
                    assert(vars@[m] == self.defs@[m - dn].assign);
                }
            }
            assert(names_view(vars@) =~= total);
            let totalb = defs_bodies(self.data@) + defs_bodies(self.defs@);
            lemma_exprs_view_len(defs@);
            assert forall|m: int| 0 <= m < dn + en implies exprs_view(defs@)[m] == totalb[m] by {
                lemma_exprs_view_index(defs@, m);
                if m < dn {
                    assert(defs@[m] == self.data@[m].def);
                } else {
                    assert(defs@[m] == self.defs@[m - dn].def);
                }
            }
            assert(exprs_view(defs@) =~= totalb);
        }
        let main_var = Rc::new(Expr::Var("main".to_owned(), 0));
        proof {
            assert(main_var@ == (ExprView::Var { name: "main"@, depth: 0 }));
        }
        let ghost vg = names_view(vars@);
        let ghost dg = exprs_view(defs@);
        let r = Rc::new(Expr::LetRec(vars, defs, main_var));
        proof {
            assert(r@ == (ExprView::LetRec {
                names: vg,
                defs: dg,
                body: Box::new(ExprView::Var { name: "main"@, depth: 0 }),
            }));
        }
        r
    }

    /// The top level as a one-frame environment binding each name to its
    /// definition.  The frame is searched first-match, and it is built in
    /// reverse insertion order — the ordinary definitions before the
    /// data-constructor bindings — so, as in the map the block once was, a
    /// later binding of a name wins: an ordinary definition takes
    /// precedence over a data binding of the same name.
    #[verifier::loop_isolation(false)]
    pub fn to_env(&self) -> (r: crate::env::Env)
        ensures
            crate::env::env_view(r) == seq![
                crate::env::frame_view(
                    self.defs@.map_values(|d: Definition| (d.assign, d.def)).reverse()
                        + self.data@.map_values(|d: Definition| (d.assign, d.def)).reverse(),
                ),
            ],
    {
        let mut frame: Vec<(String, Rc<Expr>)> = Vec::new();
        let en = self.defs.len();
        let mut j: usize = en;
        while j > 0
            invariant
                0 <= j <= en,
                frame@.len() == en - j,
                forall|m: int|
                    0 <= m < en - j ==> (#[trigger] frame@[m]) == (
                        self.defs@[en - 1 - m].assign,
                        self.defs@[en - 1 - m].def,
                    ),
            decreases j,
        {
            j = j - 1;
            let ghost f0 = frame@;
            frame.push((self.defs[j].assign.clone(), self.defs[j].def.clone()));
            proof {
                assert(frame@[en - j - 1] == (self.defs@[j as int].assign, self.defs@[j as int].def));
                assert(forall|m: int| 0 <= m < en - j - 1 ==> (#[trigger] frame@[m]) == f0[m]);
            }
        }
        let dn = self.data.len();
        let mut i: usize = dn;
        while i > 0
            invariant
                0 <= i <= dn,
                frame@.len() == en + dn - i,
                forall|m: int|
                    0 <= m < en ==> (#[trigger] frame@[m]) == (
                        self.defs@[en - 1 - m].assign,
                        self.defs@[en - 1 - m].def,
                    ),
                forall|m: int|
                    en <= m < en + dn - i ==> (#[trigger] frame@[m]) == (
                        self.data@[dn - 1 - (m - en)].assign,
                        self.data@[dn - 1 - (m - en)].def,
                    ),
            decreases i,
        {
            i = i - 1;
            let ghost f0 = frame@;
            frame.push((self.data[i].assign.clone(), self.data[i].def.clone()));
            proof {
                assert(frame@[en + dn - i - 1] == (
                    self.data@[i as int].assign,
                    self.data@[i as int].def,
                ));
                assert(forall|m: int| 0 <= m < en + dn - i - 1 ==> (#[trigger] frame@[m]) == f0[m]);
            }
        }
        proof {
            let total = self.defs@.map_values(|d: Definition| (d.assign, d.def)).reverse()
                + self.data@.map_values(|d: Definition| (d.assign, d.def)).reverse();
            assert forall|m: int| 0 <= m < en + dn implies frame@[m] == total[m] by {
                if m < en {
                    assert(total[m] == self.defs@.map_values(
                        |d: Definition| (d.assign, d.def),
                    )[en - 1 - m]);
                } else {
                    assert(total[m] == self.data@.map_values(
                        |d: Definition| (d.assign, d.def),
                    )[dn - 1 - (m - en)]);
                }
            }
            assert(frame@ =~= total);
        }
        let ghost fv = crate::env::frame_view(frame@);
        let tail = Rc::new(crate::env::Env::Empty);
        proof {
            assert(crate::env::env_view(*tail) =~= Seq::<crate::env::FrameView>::empty());
        }
        let r = crate::env::Env::Context(frame, tail);
        proof {
            assert(crate::env::env_view(r) =~= seq![fv]);
        }
        r
    }
}

/// A fresh list of the same names.
pub fn clone_strings(v: &Vec<String>) -> (r: Vec<String>)
    ensures
        r@ == v@,
{
    let mut r: Vec<String> = Vec::new();
    let n = v.len();
    let mut i: usize = 0;
    while i < n
        invariant
            n == v.len(),
            0 <= i <= n,
            r@ =~= v@.take(i as int),
        decreases n - i,
    {
        r.push(v[i].clone());
        proof {
            assert(r@ =~= v@.take(i + 1));
        }
        i = i + 1;
    }
    proof {
        assert(r@ =~= v@);
    }
    r
}

/// A fresh list sharing the same pattern nodes.
pub fn clone_patterns(v: &Vec<Rc<Pattern>>) -> (r: Vec<Rc<Pattern>>)
    ensures
        r@ == v@,
{
    let mut r: Vec<Rc<Pattern>> = Vec::new();
    let n = v.len();
    let mut i: usize = 0;
    while i < n
        invariant
            n == v.len(),
            0 <= i <= n,
            r@ =~= v@.take(i as int),
        decreases n - i,
    {
        r.push(v[i].clone());
        proof {
            assert(r@ =~= v@.take(i + 1));
        }
        i = i + 1;
    }
    proof {
        assert(r@ =~= v@);
    }
    r
}

/// `exprs_view` preserves length.
pub proof fn lemma_exprs_view_len(s: Seq<Rc<Expr>>)
    ensures
        exprs_view(s).len() == s.len(),
    decreases s.len(),
{
    if s.len() > 0 {
        lemma_exprs_view_len(s.drop_last());
    }
}

/// `exprs_view` commutes with appending one node.
pub proof fn lemma_exprs_view_push(s: Seq<Rc<Expr>>, e: Rc<Expr>)
    ensures
        exprs_view(s.push(e)) == exprs_view(s).push(expr_view(*e)),
{
    assert(s.push(e).drop_last() =~= s);
    assert(s.push(e).last() == e);
}

} // verus!
