//! The reducer: strict, spine-based graph reduction to weak head normal
//! form, together with the pattern matcher its case dispatch uses.
//!
//! `spec_eval` is the mathematical semantics: a fuel-indexed big-step
//! evaluator over expression models.  The executable `eval` returns exactly
//! what `spec_eval` returns on the models of its arguments.  Every fatal
//! condition of the language (an unbound name, an exhausted spine, a failed
//! match, an ill-typed operand, a user error, an explicit bottom) comes back
//! as an error value instead of halting the process; running out of fuel is
//! reported separately, so a caller can distinguish divergence-so-far from
//! failure.

use crate::ast::{
    expr_view, exprs_view, lemma_exprs_view_index, lemma_exprs_view_len, lemma_exprs_view_push,
    names_view,
    pattern_view, patterns_view, BuiltinOp, Expr, ExprView, Pattern, PatternView,
};
use crate::bignum::{big_eq, trunc_div};
use crate::env::{env_drop, env_lookup, env_lookup_in, env_view, frame_lookup, Env, FrameView};
use std::rc::Rc;
use vstd::prelude::*;

verus! {

/// A fatal evaluation outcome.
#[derive(Debug)]
pub enum EvalError {
    /// A variable was not found after dropping its resolved depth.
    UnboundName,
    /// A lambda was applied with an empty spine.
    ArityError,
    /// No case pattern matched the scrutinee's value.
    NonExhaustiveMatch,
    /// An `If` condition was not boolean, a built-in received unsupported
    /// operands, or a malformed node was reached.
    TypeError,
    /// A user-authored `Error` node was reached.
    UserError(String),
    /// An explicit `Bottom` node was reached.
    Undefined,
    /// The fuel bound was exhausted before a value was reached.
    OutOfFuel,
}

/// Mathematical model of a fatal evaluation outcome.
pub enum ErrorView {
    UnboundName,
    ArityError,
    NonExhaustiveMatch,
    TypeError,
    UserError(Seq<char>),
    Undefined,
    OutOfFuel,
}

/// The model of an evaluation error.
pub open spec fn error_view(e: EvalError) -> ErrorView {
    match e {
        EvalError::UnboundName => ErrorView::UnboundName,
        EvalError::ArityError => ErrorView::ArityError,
        EvalError::NonExhaustiveMatch => ErrorView::NonExhaustiveMatch,
        EvalError::TypeError => ErrorView::TypeError,
        EvalError::UserError(s) => ErrorView::UserError(s@),
        EvalError::Undefined => ErrorView::Undefined,
        EvalError::OutOfFuel => ErrorView::OutOfFuel,
    }
}

/// Values that a pattern can be matched against: constructor values and
/// literals.
pub open spec fn matchable(v: ExprView) -> bool {
    ||| v matches ExprView::Data { .. }
    ||| v matches ExprView::Int { .. }
    ||| v matches ExprView::StrLit { .. }
}

/// Whether a pattern matches a (matchable) value: wildcards and bare names
/// match everything; a constructor pattern matches a constructor value with
/// the same tag and as many fields as the pattern has variables; a literal
/// pattern matches the equal literal of the same kind.
pub open spec fn spec_matches(v: ExprView, p: PatternView) -> bool {
    match p {
        PatternView::Wildcard => true,
        PatternView::Irrefutable { .. } => true,
        PatternView::Construct { tag, vars } => match v {
            ExprView::Data { tag: vtag, fields, .. } => vtag == tag && fields.len() == vars.len(),
            _ => false,
        },
        PatternView::Int { value } => match v {
            ExprView::Int { value: n } => n == value,
            _ => false,
        },
        PatternView::StrLit { text } => match v {
            ExprView::StrLit { text: t } => t == text,
            _ => false,
        },
    }
}

/// The bindings a matched pattern extracts from a value: a bare name binds
/// the whole value, a constructor pattern binds its variables positionally
/// to the value's (unevaluated) fields, and the rest bind nothing.
pub open spec fn spec_assign(v: ExprView, p: PatternView) -> (Seq<Seq<char>>, Seq<ExprView>) {
    match p {
        PatternView::Irrefutable { name } => (seq![name], seq![v]),
        PatternView::Construct { vars, .. } => match v {
            ExprView::Data { fields, .. } => (vars, fields),
            _ => (Seq::empty(), Seq::empty()),
        },
        _ => (Seq::empty(), Seq::empty()),
    }
}

/// The index of the first pattern that matches `v`, if any; matching a
/// non-matchable value against a first pattern is an error.
pub open spec fn find_match(v: ExprView, pats: Seq<PatternView>) -> Result<
    Option<nat>,
    ErrorView,
>
    decreases pats.len(),
{
    if pats.len() == 0 {
        Result::Ok(Option::None)
    } else if !matchable(v) {
        Result::Err(ErrorView::TypeError)
    } else if spec_matches(v, pats[0]) {
        Result::Ok(Option::Some(0nat))
    } else {
        match find_match(v, pats.drop_first()) {
            Result::Ok(Option::Some(k)) => Result::Ok(Option::Some((k + 1) as nat)),
            r => r,
        }
    }
}

/// What a saturated built-in returns: arithmetic on two integer literals,
/// or an equality test yielding a nullary boolean constructor; anything
/// else is an operand error.  Division truncates towards zero and rejects
/// a zero divisor.
pub open spec fn apply_op_spec(op: BuiltinOp, fields: Seq<ExprView>) -> Result<
    ExprView,
    ErrorView,
> {
    if fields.len() < 2 {
        Result::Err(ErrorView::TypeError)
    } else {
        match (fields[0], fields[1]) {
            (ExprView::Int { value: a }, ExprView::Int { value: b }) => match op {
                BuiltinOp::Add => Result::Ok(ExprView::Int { value: a + b }),
                BuiltinOp::Sub => Result::Ok(ExprView::Int { value: a - b }),
                BuiltinOp::Mul => Result::Ok(ExprView::Int { value: a * b }),
                BuiltinOp::Div => if b == 0 {
                    Result::Err(ErrorView::TypeError)
                } else {
                    Result::Ok(ExprView::Int { value: trunc_div(a, b) })
                },
                BuiltinOp::Eq => Result::Ok(bool_value(a == b)),
            },
            _ => Result::Err(ErrorView::TypeError),
        }
    }
}

/// The nullary boolean constructor value for `b`.
pub open spec fn bool_value(b: bool) -> ExprView {
    ExprView::Data {
        arity: 0,
        ty_name: "Bool"@,
        tag: if b {
            "True"@
        } else {
            "False"@
        },
        fields: Seq::empty(),
    }
}

/// The frame binding `names[i]` to `defs[i]`, in order.
pub open spec fn mk_frame(names: Seq<Seq<char>>, defs: Seq<ExprView>) -> FrameView {
    Seq::new(names.len(), |i: int| (names[i], defs[i]))
}

/// One step of the fuel-indexed big-step semantics.  The spine holds the
/// pending, unevaluated arguments, innermost application last.
pub open spec fn spec_eval(
    e: ExprView,
    env: Seq<FrameView>,
    spine: Seq<ExprView>,
    fuel: nat,
) -> Result<ExprView, ErrorView>
    decreases fuel,
{
    if fuel == 0 {
        Result::Err(ErrorView::OutOfFuel)
    } else {
        let f2 = (fuel - 1) as nat;
        match e {
            ExprView::If { cond, then_branch, else_branch } => match spec_eval(
                *cond,
                env,
                spine,
                f2,
            ) {
                Result::Err(er) => Result::Err(er),
                Result::Ok(cv) => match cv {
                    ExprView::Data { tag, fields, .. } => if tag == "True"@ && fields.len()
                        == 0 {
                        spec_eval(*then_branch, env, spine, f2)
                    } else if tag == "False"@ && fields.len() == 0 {
                        spec_eval(*else_branch, env, spine, f2)
                    } else {
                        Result::Err(ErrorView::TypeError)
                    },
                    _ => Result::Err(ErrorView::TypeError),
                },
            },
            ExprView::Var { name, depth } => match env_lookup_in(env, name, depth) {
                Option::None => Result::Err(ErrorView::UnboundName),
                Option::Some(d) => spec_eval(d, env, spine, f2),
            },
            ExprView::App { func, arg } => spec_eval(*func, env, spine.push(*arg), f2),
            ExprView::Lam { param, body } => if spine.len() == 0 {
                Result::Err(ErrorView::ArityError)
            } else if param == "_"@ {
                spec_eval(*body, env, spine.drop_last(), f2)
            } else {
                let spine2 = spine.drop_last();
                match spec_eval(spine.last(), env, spine2, f2) {
                    Result::Err(er) => Result::Err(er),
                    Result::Ok(av) => spec_eval(
                        ExprView::Let {
                            names: seq![param],
                            defs: seq![av],
                            body: body,
                        },
                        env,
                        spine2,
                        f2,
                    ),
                }
            },
            ExprView::Data { arity, ty_name, tag, fields } => if fields.len() < arity {
                if spine.len() == 0 {
                    Result::Err(ErrorView::ArityError)
                } else {
                    let spine2 = spine.drop_last();
                    match spec_eval(spine.last(), env, spine2, f2) {
                        Result::Err(er) => Result::Err(er),
                        Result::Ok(av) => spec_eval(
                            ExprView::Data { arity, ty_name, tag, fields: fields.push(av) },
                            env,
                            spine2,
                            f2,
                        ),
                    }
                }
            } else {
                Result::Ok(e)
            },
            ExprView::Builtin { arity, name, op, fields } => if fields.len() == arity {
                apply_op_spec(op, fields)
            } else if fields.len() < arity {
                if spine.len() == 0 {
                    Result::Err(ErrorView::ArityError)
                } else {
                    let spine2 = spine.drop_last();
                    match spec_eval(spine.last(), env, spine2, f2) {
                        Result::Err(er) => Result::Err(er),
                        Result::Ok(av) => spec_eval(
                            ExprView::Builtin { arity, name, op, fields: fields.push(av) },
                            env,
                            spine2,
                            f2,
                        ),
                    }
                }
            } else {
                Result::Ok(e)
            },
            ExprView::Let { names, defs, body } => if defs.len() >= names.len() {
                spec_eval(*body, seq![mk_frame(names, defs)] + env, spine, f2)
            } else {
                Result::Err(ErrorView::TypeError)
            },
            ExprView::LetRec { names, defs, body } => if defs.len() >= names.len() {
                spec_eval(*body, seq![mk_frame(names, defs)] + env, spine, f2)
            } else {
                Result::Err(ErrorView::TypeError)
            },
            ExprView::Case { scrutinee, patterns, branches } => match spec_eval(
                *scrutinee,
                env,
                spine,
                f2,
            ) {
                Result::Err(er) => Result::Err(er),
                Result::Ok(val) => match find_match(val, patterns) {
                    Result::Err(er) => Result::Err(er),
                    Result::Ok(Option::None) => Result::Err(ErrorView::NonExhaustiveMatch),
                    Result::Ok(Option::Some(i)) => if i < branches.len() {
                        let bound = spec_assign(val, patterns[i as int]);
                        spec_eval(
                            ExprView::Let {
                                names: bound.0,
                                defs: bound.1,
                                body: Box::new(branches[i as int]),
                            },
                            env,
                            spine,
                            f2,
                        )
                    } else {
                        Result::Err(ErrorView::TypeError)
                    },
                },
            },
            ExprView::Error { message } => Result::Err(ErrorView::UserError(message)),
            ExprView::Bottom => Result::Err(ErrorView::Undefined),
            ExprView::Int { .. } => Result::Ok(e),
            ExprView::StrLit { .. } => Result::Ok(e),
        }
    }
}

/// Scanning past patterns that miss only shifts the matched index.
proof fn lemma_find_match_skip(v: ExprView, pats: Seq<PatternView>, i: int)
    requires
        0 <= i <= pats.len(),
        matchable(v) || i == 0,
        forall|j: int| 0 <= j < i ==> !spec_matches(v, pats[j]),
    ensures
        find_match(v, pats) == match find_match(v, pats.skip(i)) {
            Result::Ok(Option::Some(k)) => Result::<Option<nat>, ErrorView>::Ok(
                Option::Some((k + i) as nat),
            ),
            r => r,
        },
    decreases i,
{
    if i == 0 {
        assert(pats.skip(0) =~= pats);
    } else {
        lemma_find_match_skip(v, pats.drop_first(), i - 1);
        assert(pats.drop_first().skip(i - 1) =~= pats.skip(i));
    }
}

/// A string's characters equal a literal's.
fn str_is(s: &String, lit: &str) -> (r: bool)
    ensures
        r == (s@ == lit@),
{
    *s == lit.to_owned()
}

/// Build one binding frame from parallel name and definition lists.
#[verifier::loop_isolation(false)]
fn build_frame(names: &Vec<String>, defs: &Vec<Rc<Expr>>) -> (r: Vec<(String, Rc<Expr>)>)
    requires
        defs@.len() >= names@.len(),
    ensures
        crate::env::frame_view(r@) == mk_frame(names_view(names@), exprs_view(defs@)),
{
    proof {
        lemma_exprs_view_len(defs@);
    }
    let mut r: Vec<(String, Rc<Expr>)> = Vec::new();
    let n = names.len();
    let mut i: usize = 0;
    while i < n
        invariant
            n == names.len(),
            defs@.len() >= n,
            0 <= i <= n,
            r@.len() == i,
            forall|j: int| 0 <= j < i ==> #[trigger] r@[j] == (names@[j], defs@[j]),
        decreases n - i,
    {
        let nm = names[i].clone();
        let df = defs[i].clone();
        let ghost prev = r@;
        r.push((nm, df));
        proof {
            assert(r@[i as int] == (names@[i as int], defs@[i as int]));
            assert(forall|j: int| 0 <= j < i ==> r@[j] == prev[j]);
        }
        i = i + 1;
    }
    proof {
        assert forall|j: int| 0 <= j < n implies crate::env::frame_view(r@)[j] == mk_frame(
            names_view(names@),
            exprs_view(defs@),
        )[j] by {
            lemma_exprs_view_index(defs@, j);
            assert(r@[j] == (names@[j], defs@[j]));
            assert(crate::env::frame_view(r@)[j] == (r@[j].0@, expr_view(*r@[j].1)));
        }
        assert(crate::env::frame_view(r@) =~= mk_frame(names_view(names@), exprs_view(defs@)));
    }
    r
}

/// What `eval` must return: exactly what the semantics gives on the models
/// of its arguments.
pub open spec fn eval_result_matches(
    e: ExprView,
    env: Seq<FrameView>,
    sp: Seq<ExprView>,
    fuel: nat,
    r: Result<Rc<Expr>, EvalError>,
) -> bool {
    match r {
        Result::Ok(v) => spec_eval(e, env, sp, fuel) == Result::<ExprView, ErrorView>::Ok(
            expr_view(*v),
        ),
        Result::Err(er) => spec_eval(e, env, sp, fuel) == Result::<ExprView, ErrorView>::Err(
            error_view(er),
        ),
    }
}

/// Reduce `expr` under `env` with the pending-argument `spine` to weak head
/// normal form, spending at most `fuel` reduction steps.
#[verifier::loop_isolation(false)]
pub fn eval(expr: Rc<Expr>, env: Rc<Env>, spine: Vec<Rc<Expr>>, fuel: u64) -> (r: Result<
    Rc<Expr>,
    EvalError,
>)
    ensures
        eval_result_matches(expr_view(*expr), env_view(*env), exprs_view(spine@), fuel as nat, r),
    decreases fuel,
{
    if fuel == 0 {
        return Result::Err(EvalError::OutOfFuel);
    }
    let f2 = fuel - 1;
    let ghost sp0 = exprs_view(spine@);
    match &*expr {
        Expr::If(cond, b1, b2) => {
            let sp2 = crate::ast::clone_exprs(&spine);
            match eval(cond.clone(), env.clone(), sp2, f2) {
                Result::Err(e) => Result::Err(e),
                Result::Ok(d) => match &*d {
                    Expr::Data(_, _, s, dfields) => {
                        proof {
                            lemma_exprs_view_len(dfields@);
                        }
                        if dfields.len() == 0 && str_is(s, "True") {
                            eval(b1.clone(), env, spine, f2)
                        } else if dfields.len() == 0 && str_is(s, "False") {
                            eval(b2.clone(), env, spine, f2)
                        } else {
                            Result::Err(EvalError::TypeError)
                        }
                    },
                    _ => Result::Err(EvalError::TypeError),
                },
            }
        },
        Expr::Var(s, depth) => {
            let found = match env.lookup_in(s, *depth) {
                Option::Some(val) => Option::Some(val.clone()),
                Option::None => Option::None,
            };
            match found {
                Option::Some(val) => eval(val, env, spine, f2),
                Option::None => Result::Err(EvalError::UnboundName),
            }
        },
        Expr::App(left, right) => {
            let ghost sporig = spine@;
            let mut spine = spine;
            spine.push(right.clone());
            proof {
                lemma_exprs_view_push(sporig, right.clone());
            }
            eval(left.clone(), env, spine, f2)
        },
        Expr::Lam(head, body) => {
            if str_is(head, "_") {
                let ghost sporig = spine@;
                let mut spine = spine;
                match spine.pop() {
                    Option::None => Result::Err(EvalError::ArityError),
                    Option::Some(_) => {
                        proof {
                            assert(spine@ =~= sporig.drop_last());
                            assert(exprs_view(spine@) =~= sp0.drop_last());
                        }
                        eval(body.clone(), env, spine, f2)
                    },
                }
            } else {
                let ghost sporig = spine@;
                let mut spine = spine;
                match spine.pop() {
                    Option::None => Result::Err(EvalError::ArityError),
                    Option::Some(def) => {
                        proof {
                            assert(spine@ =~= sporig.drop_last());
                            assert(exprs_view(spine@) =~= sp0.drop_last());
                            assert(expr_view(*def) == sp0.last());
                        }
                        let sp2 = crate::ast::clone_exprs(&spine);
                        match eval(def, env.clone(), sp2, f2) {
                            Result::Err(e) => Result::Err(e),
                            Result::Ok(res) => {
                                let mut names: Vec<String> = Vec::new();
                                names.push(head.clone());
                                let mut defs: Vec<Rc<Expr>> = Vec::new();
                                defs.push(res);
                                proof {
                                    assert(names_view(names@) =~= seq![head@]);
                                    lemma_exprs_view_index(defs@, 0);
                                    assert(exprs_view(defs@) =~= seq![expr_view(*res)]);
                                }
                                let let_expr = Rc::new(Expr::Let(names, defs, body.clone()));
                                eval(let_expr, env, spine, f2)
                            },
                        }
                    },
                }
            }
        },
        Expr::Data(args, t, ctag, fields) => {
            proof {
                lemma_exprs_view_len(fields@);
            }
            if fields.len() < *args {
                let ghost sporig = spine@;
                let mut spine = spine;
                match spine.pop() {
                    Option::None => Result::Err(EvalError::ArityError),
                    Option::Some(def) => {
                        proof {
                            assert(spine@ =~= sporig.drop_last());
                            assert(exprs_view(spine@) =~= sp0.drop_last());
                            assert(expr_view(*def) == sp0.last());
                        }
                        let sp2 = crate::ast::clone_exprs(&spine);
                        match eval(def, env.clone(), sp2, f2) {
                            Result::Err(e) => Result::Err(e),
                            Result::Ok(av) => {
                                let mut nf = crate::ast::clone_exprs(fields);
                                let ghost nf0 = nf@;
                                nf.push(av);
                                proof {
                                    lemma_exprs_view_push(nf0, av);
                                }
                                let d = Rc::new(
                                    Expr::Data(*args, t.clone(), ctag.clone(), nf),
                                );
                                eval(d, env, spine, f2)
                            },
                        }
                    },
                }
            } else {
                proof {
                    lemma_exprs_view_len(fields@);
                }
                Result::Ok(expr)
            }
        },
        Expr::Builtin(args, name, op, fields) => {
            proof {
                lemma_exprs_view_len(fields@);
            }
            if fields.len() == *args {
                proof {
                    lemma_exprs_view_len(fields@);
                }
                crate::builtins::apply_op(*op, crate::ast::clone_exprs(fields))
            } else if fields.len() < *args {
                let ghost sporig = spine@;
                let mut spine = spine;
                match spine.pop() {
                    Option::None => Result::Err(EvalError::ArityError),
                    Option::Some(def) => {
                        proof {
                            assert(spine@ =~= sporig.drop_last());
                            assert(exprs_view(spine@) =~= sp0.drop_last());
                            assert(expr_view(*def) == sp0.last());
                        }
                        let sp2 = crate::ast::clone_exprs(&spine);
                        match eval(def, env.clone(), sp2, f2) {
                            Result::Err(e) => Result::Err(e),
                            Result::Ok(av) => {
                                let mut nf = crate::ast::clone_exprs(fields);
                                let ghost nf0 = nf@;
                                nf.push(av);
                                proof {
                                    lemma_exprs_view_push(nf0, av);
                                }
                                let b = Rc::new(
                                    Expr::Builtin(*args, name.clone(), *op, nf),
                                );
                                eval(b, env, spine, f2)
                            },
                        }
                    },
                }
            } else {
                proof {
                    lemma_exprs_view_len(fields@);
                }
                Result::Ok(expr)
            }
        },
        Expr::Let(names, defs, body) => {
            proof {
                lemma_exprs_view_len(defs@);
            }
            if defs.len() < names.len() {
                Result::Err(EvalError::TypeError)
            } else {
                let frame = build_frame(names, defs);
                let new_env = Rc::new(Env::Context(frame, env));
                eval(body.clone(), new_env, spine, f2)
            }
        },
        Expr::LetRec(names, defs, body) => {
            proof {
                lemma_exprs_view_len(defs@);
            }
            if defs.len() < names.len() {
                Result::Err(EvalError::TypeError)
            } else {
                let frame = build_frame(names, defs);
                let new_env = Rc::new(Env::Context(frame, env));
                eval(body.clone(), new_env, spine, f2)
            }
        },
        Expr::Case(scrut, pats, branches) => {
            let ghost pv = patterns_view(pats@);
            let sp2 = crate::ast::clone_exprs(&spine);
            match eval(scrut.clone(), env.clone(), sp2, f2) {
                Result::Err(e) => Result::Err(e),
                Result::Ok(val) => {
                    let ghost vv = val@;
                    let n = pats.len();
                    let mut i: usize = 0;
                    while i < n
                        invariant
                            n == pats.len(),
                            pv == patterns_view(pats@),
                            vv == val@,
                            0 <= i <= n,
                            i > 0 ==> matchable(vv),
                            forall|j: int| 0 <= j < i ==> !spec_matches(vv, pv[j]),
                        decreases n - i,
                    {
                        match pat_match(&val, &*pats[i]) {
                            Result::Err(e) => {
                                proof {
                                    lemma_find_match_skip(vv, pv, i as int);
                                    assert(pv.skip(i as int).len() > 0);
                                }
                                return Result::Err(e);
                            },
                            Result::Ok(true) => {
                                proof {
                                    lemma_find_match_skip(vv, pv, i as int);
                                    assert(pv.skip(i as int)[0] == pv[i as int]);
                                    assert(find_match(vv, pv) == Result::<
                                        Option<nat>,
                                        ErrorView,
                                    >::Ok(Option::Some(i as nat)));
                                }
                                let bn = branches.len();
                                if i < bn {
                                    let bound = assign(&val, &*pats[i]);
                                    let (vars, defs2) = bound;
                                    proof {
                                        lemma_exprs_view_index(branches@, i as int);
                                    }
                                    let branch_let = Rc::new(
                                        Expr::Let(vars, defs2, branches[i].clone()),
                                    );
                                    return eval(branch_let, env, spine, f2);
                                } else {
                                    proof {
                                        lemma_exprs_view_len(branches@);
                                    }
                                    return Result::Err(EvalError::TypeError);
                                }
                            },
                            Result::Ok(false) => {
                                i = i + 1;
                            },
                        }
                    }
                    proof {
                        lemma_find_match_skip(vv, pv, n as int);
                        assert(pv.skip(n as int).len() == 0);
                    }
                    Result::Err(EvalError::NonExhaustiveMatch)
                },
            }
        },
        Expr::Error(s) => Result::Err(EvalError::UserError(s.clone())),
        Expr::Bottom => Result::Err(EvalError::Undefined),
        Expr::Int(_) => Result::Ok(expr),
        Expr::Str(_) => Result::Ok(expr),
    }
}

/// Whether `pat` matches the value `data`: constructor values match by tag
/// and field count, literals by equality; a value that is neither is an
/// error.
pub fn pat_match(data: &Rc<Expr>, pat: &Pattern) -> (r: Result<bool, EvalError>)
    ensures
        match r {
            Result::Ok(b) => matchable(expr_view(**data)) && b == spec_matches(
                expr_view(**data),
                pattern_view(*pat),
            ),
            Result::Err(e) => !matchable(expr_view(**data)) && e matches EvalError::TypeError,
        },
{
    match &**data {
        Expr::Data(_, _, cons, fields) => match pat {
            Pattern::Wildcard => Result::Ok(true),
            Pattern::Irrefutable(_) => Result::Ok(true),
            Pattern::Construct(pat_cons, vars) => {
                proof {
                    lemma_exprs_view_len(fields@);
                }
                Result::Ok(*cons == *pat_cons && fields.len() == vars.len())
            },
            _ => Result::Ok(false),
        },
        Expr::Int(n) => match pat {
            Pattern::Wildcard => Result::Ok(true),
            Pattern::Irrefutable(_) => Result::Ok(true),
            Pattern::Int(i) => Result::Ok(big_eq(i, n)),
            _ => Result::Ok(false),
        },
        Expr::Str(n) => match pat {
            Pattern::Wildcard => Result::Ok(true),
            Pattern::Irrefutable(_) => Result::Ok(true),
            Pattern::Str(i) => Result::Ok(*i == *n),
            _ => Result::Ok(false),
        },
        _ => Result::Err(EvalError::TypeError),
    }
}

/// The variables and definitions a matched pattern binds, positionally.
pub fn assign(data: &Rc<Expr>, pat: &Pattern) -> (r: (Vec<String>, Vec<Rc<Expr>>))
    requires
        matchable(expr_view(**data)),
        spec_matches(expr_view(**data), pattern_view(*pat)),
    ensures
        (names_view(r.0@), exprs_view(r.1@)) == spec_assign(
            expr_view(**data),
            pattern_view(*pat),
        ),
{
    match pat {
        Pattern::Wildcard => {
            let r = (Vec::new(), Vec::new());
            proof {
                assert(names_view(r.0@) =~= Seq::<Seq<char>>::empty());
                assert(exprs_view(r.1@) =~= Seq::<ExprView>::empty());
            }
            r
        },
        Pattern::Irrefutable(x) => {
            let mut vars: Vec<String> = Vec::new();
            let mut defs: Vec<Rc<Expr>> = Vec::new();
            vars.push(x.clone());
            defs.push(data.clone());
            proof {
                assert(names_view(vars@) =~= seq![x@]);
                lemma_exprs_view_index(defs@, 0);
                assert(exprs_view(defs@) =~= seq![expr_view(**data)]);
            }
            (vars, defs)
        },
        Pattern::Construct(_, pat_vars) => {
            match &**data {
                Expr::Data(_, _, _, fields) => {
                    proof {
                        lemma_exprs_view_len(fields@);
                    }
                    let mut vars: Vec<String> = Vec::new();
                    let mut defs: Vec<Rc<Expr>> = Vec::new();
                    let n = fields.len();
                    let mut i: usize = 0;
                    while i < n
                        invariant
                            n == fields.len(),
                            n == pat_vars.len(),
                            0 <= i <= n,
                            vars@.len() == i,
                            defs@.len() == i,
                            forall|j: int| 0 <= j < i ==> vars@[j]@ == pat_vars@[j]@,
                            forall|j: int|
                                0 <= j < i ==> defs@[j] == fields@[j],
                        decreases n - i,
                    {
                        vars.push(pat_vars[i].clone());
                        defs.push(fields[i].clone());
                        i = i + 1;
                    }
                    proof {
                        assert(names_view(vars@) =~= names_view(pat_vars@));
                        assert(defs@ =~= fields@);
                    }
                    (vars, defs)
                },
                _ => {
                    // A constructor pattern only matches a constructor value.
                    proof {
                        assert(false);
                    }
                    (Vec::new(), Vec::new())
                },
            }
        },
        Pattern::Int(_) => {
            let r = (Vec::new(), Vec::new());
            proof {
                assert(names_view(r.0@) =~= Seq::<Seq<char>>::empty());
                assert(exprs_view(r.1@) =~= Seq::<ExprView>::empty());
            }
            r
        },
        Pattern::Str(_) => {
            let r = (Vec::new(), Vec::new());
            proof {
                assert(names_view(r.0@) =~= Seq::<Seq<char>>::empty());
                assert(exprs_view(r.1@) =~= Seq::<ExprView>::empty());
            }
            r
        },
    }
}


/// First-match pattern semantics: when a pattern matches the value, the
/// dispatch never picks a later pattern — the first match in list order
/// wins.
pub proof fn lemma_first_match(v: ExprView, pats: Seq<PatternView>, i: int)
    requires
        matchable(v),
        0 <= i < pats.len(),
        spec_matches(v, pats[i]),
    ensures
        match find_match(v, pats) {
            Result::Ok(oi) => match oi {
                Option::Some(k) => k <= i && spec_matches(v, pats[k as int]),
                Option::None => false,
            },
            Result::Err(_) => false,
        },
    decreases pats.len(),
{
    if !spec_matches(v, pats[0]) {
        lemma_first_match(v, pats.drop_first(), i - 1);
    }
}

/// Every constructor and built-in node in the tree holds at most as many
/// fields as its declared arity.
pub open spec fn sat_wf(e: ExprView) -> bool
    decreases e,
{
    match e {
        ExprView::Data { arity, fields, .. } => fields.len() <= arity && sat_wf_seq(fields),
        ExprView::Builtin { arity, fields, .. } => fields.len() <= arity && sat_wf_seq(fields),
        ExprView::Lam { body, .. } => sat_wf(*body),
        ExprView::App { func, arg } => sat_wf(*func) && sat_wf(*arg),
        ExprView::Let { defs, body, .. } => sat_wf_seq(defs) && sat_wf(*body),
        ExprView::LetRec { defs, body, .. } => sat_wf_seq(defs) && sat_wf(*body),
        ExprView::Case { scrutinee, branches, .. } => sat_wf(*scrutinee) && sat_wf_seq(branches),
        ExprView::If { cond, then_branch, else_branch } => sat_wf(*cond) && sat_wf(*then_branch)
            && sat_wf(*else_branch),
        _ => true,
    }
}

/// `sat_wf` over a list of expressions.
pub open spec fn sat_wf_seq(s: Seq<ExprView>) -> bool
    decreases s,
{
    if s.len() == 0 {
        true
    } else {
        sat_wf_seq(s.drop_last()) && sat_wf(s.last())
    }
}

/// `sat_wf` over an environment: every bound definition is well-formed.
pub open spec fn sat_wf_env(env: Seq<FrameView>) -> bool {
    forall|f: int, i: int|
        0 <= f < env.len() && 0 <= i < env[f].len() ==> sat_wf((#[trigger] env[f][i]).1)
}

/// A binding found in one frame is one of its entries.
proof fn lemma_frame_lookup_member(f: FrameView, name: Seq<char>)
    requires
        frame_lookup(f, name) is Some,
    ensures
        exists|i: int| 0 <= i < f.len() && (#[trigger] f[i]).1 == frame_lookup(f, name)->0,
    decreases f.len(),
{
    if f.len() > 0 && f[0].0 != name {
        lemma_frame_lookup_member(f.drop_first(), name);
        let i = choose|i: int|
            0 <= i < f.drop_first().len() && (#[trigger] f.drop_first()[i]).1 == frame_lookup(
                f.drop_first(),
                name,
            )->0;
        assert((f[i + 1]).1 == frame_lookup(f, name)->0);
    }
}

/// A definition found in a well-formed environment is well-formed.
proof fn lemma_env_lookup_wf(env: Seq<FrameView>, name: Seq<char>)
    requires
        sat_wf_env(env),
        env_lookup(env, name) is Some,
    ensures
        sat_wf(env_lookup(env, name)->0),
    decreases env.len(),
{
    if env.len() > 0 {
        if frame_lookup(env[0], name) is Some {
            lemma_frame_lookup_member(env[0], name);
        } else {
            assert(sat_wf_env(env.drop_first())) by {
                assert forall|f: int, i: int|
                    0 <= f < env.drop_first().len() && 0 <= i < env.drop_first()[f].len() implies sat_wf(
                    (#[trigger] env.drop_first()[f][i]).1,
                ) by {
                    assert(env.drop_first()[f] == env[f + 1]);
                }
            }
            lemma_env_lookup_wf(env.drop_first(), name);
        }
    }
}

/// Saturation monotonicity, one step: supplying one argument to an
/// unsaturated node grows its field count by exactly one and never past
/// its arity.
pub proof fn lemma_saturation_step(arity: nat, fields: Seq<ExprView>, av: ExprView)
    requires
        fields.len() < arity,
    ensures
        fields.push(av).len() == fields.len() + 1,
        fields.push(av).len() <= arity,
{
}

/// One element of a well-formed list is well-formed.
proof fn lemma_sat_wf_seq_index(s: Seq<ExprView>, i: int)
    requires
        sat_wf_seq(s),
        0 <= i < s.len(),
    ensures
        sat_wf(s[i]),
    decreases s.len(),
{
    if i < s.len() - 1 {
        lemma_sat_wf_seq_index(s.drop_last(), i);
    }
}

/// A well-formed node appended to a well-formed list keeps it so.
proof fn lemma_sat_wf_seq_push(s: Seq<ExprView>, x: ExprView)
    requires
        sat_wf_seq(s),
        sat_wf(x),
    ensures
        sat_wf_seq(s.push(x)),
{
    assert(s.push(x).drop_last() =~= s);
    assert(s.push(x).last() == x);
}

/// A pattern the dispatch picked does match the value.
proof fn lemma_find_match_matches(v: ExprView, pats: Seq<PatternView>)
    ensures
        match find_match(v, pats) {
            Result::Ok(oi) => match oi {
                Option::Some(k) => k < pats.len() && spec_matches(v, pats[k as int]),
                Option::None => true,
            },
            Result::Err(_) => true,
        },
    decreases pats.len(),
{
    if pats.len() > 0 && matchable(v) && !spec_matches(v, pats[0]) {
        lemma_find_match_matches(v, pats.drop_first());
    }
}

/// What a saturated built-in returns is well-formed.
proof fn lemma_apply_op_wf(op: BuiltinOp, fields: Seq<ExprView>)
    ensures
        apply_op_spec(op, fields) matches Result::Ok(v) ==> sat_wf(v),
{
    assert(sat_wf_seq(Seq::<ExprView>::empty()));
    if fields.len() >= 2 {
        match (fields[0], fields[1]) {
            (ExprView::Int { value: a }, ExprView::Int { value: b }) => {
                assert(sat_wf(bool_value(a == b)));
            },
            _ => {},
        }
    }
}

/// Saturation monotonicity, whole reductions: reducing a tree whose
/// constructor and built-in nodes respect their arities, under an
/// environment and spine that do too, yields a value that respects them
/// as well — a field list never outgrows its arity at any step.
pub proof fn lemma_saturation_wf(e: ExprView, env: Seq<FrameView>, spine: Seq<ExprView>, fuel: nat)
    requires
        sat_wf(e),
        sat_wf_env(env),
        sat_wf_seq(spine),
        spec_eval(e, env, spine, fuel) is Ok,
    ensures
        sat_wf(spec_eval(e, env, spine, fuel)->Ok_0),
    decreases fuel,
{
    if fuel > 0 {
        let f2 = (fuel - 1) as nat;
        match e {
            ExprView::If { cond, then_branch, else_branch } => {
                lemma_saturation_wf(*cond, env, spine, f2);
                let cv = spec_eval(*cond, env, spine, f2)->Ok_0;
                match cv {
                    ExprView::Data { tag, fields, .. } => {
                        if tag == "True"@ && fields.len() == 0 {
                            lemma_saturation_wf(*then_branch, env, spine, f2);
                        } else if tag == "False"@ && fields.len() == 0 {
                            lemma_saturation_wf(*else_branch, env, spine, f2);
                        }
                    },
                    _ => {},
                }
            },
            ExprView::Var { name, depth } => {
                let dropped = env_drop(env, depth);
                assert(sat_wf_env(dropped)) by {
                    if depth <= env.len() {
                        assert forall|f: int, i: int|
                            0 <= f < dropped.len() && 0 <= i < dropped[f].len() implies sat_wf(
                            (#[trigger] dropped[f][i]).1,
                        ) by {
                            assert(dropped[f] == env[f + depth]);
                        }
                    }
                }
                lemma_env_lookup_wf(dropped, name);
                let d = env_lookup_in(env, name, depth)->0;
                lemma_saturation_wf(d, env, spine, f2);
            },
            ExprView::App { func, arg } => {
                lemma_sat_wf_seq_push(spine, *arg);
                lemma_saturation_wf(*func, env, spine.push(*arg), f2);
            },
            ExprView::Lam { param, body } => {
                if spine.len() == 0 {
                } else if param == "_"@ {
                    lemma_saturation_wf(*body, env, spine.drop_last(), f2);
                } else {
                    let spine2 = spine.drop_last();
                    lemma_saturation_wf(spine.last(), env, spine2, f2);
                    let av = spec_eval(spine.last(), env, spine2, f2)->Ok_0;
                    let le = ExprView::Let { names: seq![param], defs: seq![av], body: body };
                    assert(sat_wf(le)) by {
                        assert(sat_wf_seq(Seq::<ExprView>::empty()));
                        assert(seq![av].drop_last() =~= Seq::<ExprView>::empty());
                        assert(seq![av].last() == av);
                        assert(sat_wf_seq(seq![av]));
                    }
                    lemma_saturation_wf(le, env, spine2, f2);
                }
            },
            ExprView::Data { arity, ty_name, tag, fields } => {
                if fields.len() < arity {
                    let spine2 = spine.drop_last();
                    lemma_saturation_wf(spine.last(), env, spine2, f2);
                    let av = spec_eval(spine.last(), env, spine2, f2)->Ok_0;
                    let d2 = ExprView::Data { arity, ty_name, tag, fields: fields.push(av) };
                    assert(sat_wf(d2)) by {
                        lemma_sat_wf_seq_push(fields, av);
                    }
                    lemma_saturation_wf(d2, env, spine2, f2);
                }
            },
            ExprView::Builtin { arity, name, op, fields } => {
                if fields.len() == arity {
                    lemma_apply_op_wf(op, fields);
                } else if fields.len() < arity {
                    let spine2 = spine.drop_last();
                    lemma_saturation_wf(spine.last(), env, spine2, f2);
                    let av = spec_eval(spine.last(), env, spine2, f2)->Ok_0;
                    let b2 = ExprView::Builtin { arity, name, op, fields: fields.push(av) };
                    assert(sat_wf(b2)) by {
                        lemma_sat_wf_seq_push(fields, av);
                    }
                    lemma_saturation_wf(b2, env, spine2, f2);
                }
            },
            ExprView::Let { names, defs, body } => {
                if defs.len() >= names.len() {
                    let env2 = seq![mk_frame(names, defs)] + env;
                    assert(sat_wf_env(env2)) by {
                        assert forall|f: int, i: int|
                            0 <= f < env2.len() && 0 <= i < env2[f].len() implies sat_wf(
                            (#[trigger] env2[f][i]).1,
                        ) by {
                            if f == 0 {
                                assert(env2[0] == mk_frame(names, defs));
                                assert(env2[0][i].1 == defs[i]);
                                lemma_sat_wf_seq_index(defs, i);
                            } else {
                                assert(env2[f] == env[f - 1]);
                            }
                        }
                    }
                    lemma_saturation_wf(*body, env2, spine, f2);
                }
            },
            ExprView::LetRec { names, defs, body } => {
                if defs.len() >= names.len() {
                    let env2 = seq![mk_frame(names, defs)] + env;
                    assert(sat_wf_env(env2)) by {
                        assert forall|f: int, i: int|
                            0 <= f < env2.len() && 0 <= i < env2[f].len() implies sat_wf(
                            (#[trigger] env2[f][i]).1,
                        ) by {
                            if f == 0 {
                                assert(env2[0] == mk_frame(names, defs));
                                assert(env2[0][i].1 == defs[i]);
                                lemma_sat_wf_seq_index(defs, i);
                            } else {
                                assert(env2[f] == env[f - 1]);
                            }
                        }
                    }
                    lemma_saturation_wf(*body, env2, spine, f2);
                }
            },
            ExprView::Case { scrutinee, patterns, branches } => {
                lemma_saturation_wf(*scrutinee, env, spine, f2);
                let val = spec_eval(*scrutinee, env, spine, f2)->Ok_0;
                match find_match(val, patterns) {
                    Result::Ok(Option::Some(i)) => {
                        if i < branches.len() {
                            lemma_find_match_matches(val, patterns);
                            let bound = spec_assign(val, patterns[i as int]);
                            let le = ExprView::Let {
                                names: bound.0,
                                defs: bound.1,
                                body: Box::new(branches[i as int]),
                            };
                            lemma_sat_wf_seq_index(branches, i as int);
                            assert(sat_wf(le)) by {
                                match patterns[i as int] {
                                    PatternView::Irrefutable { .. } => {
                                        assert(bound.1 == seq![val]);
                                        assert(sat_wf_seq(Seq::<ExprView>::empty()));
                                        assert(seq![val].drop_last() =~= Seq::<
                                            ExprView,
                                        >::empty());
                                        assert(seq![val].last() == val);
                                        assert(sat_wf_seq(bound.1));
                                    },
                                    PatternView::Construct { .. } => {
                                        assert(val matches ExprView::Data { .. });
                                        assert(sat_wf_seq(bound.1));
                                    },
                                    _ => {
                                        assert(bound.1 =~= Seq::<ExprView>::empty());
                                        assert(sat_wf_seq(bound.1));
                                    },
                                }
                            }
                            lemma_saturation_wf(le, env, spine, f2);
                        }
                    },
                    _ => {},
                }
            },
            _ => {},
        }
    }
}

} // verus!
