use bagl::ast::{BuiltinOp, Expr, Pattern};
use bagl::env::Env;
use bagl::eval::{eval, EvalError};
use bagl::rearrange::change_lets;
use bagl::scan::resolve;
use num::bigint::BigInt;
use std::rc::Rc;

fn var(s: &str) -> Rc<Expr> {
    Rc::new(Expr::Var(s.to_string(), 0))
}

fn num_lit(n: i64) -> Rc<Expr> {
    Rc::new(Expr::Int(BigInt::from(n)))
}

fn app(f: Rc<Expr>, a: Rc<Expr>) -> Rc<Expr> {
    Rc::new(Expr::App(f, a))
}

fn lam(p: &str, b: Rc<Expr>) -> Rc<Expr> {
    Rc::new(Expr::Lam(p.to_string(), b))
}

fn builtin(op: BuiltinOp, name: &str) -> Rc<Expr> {
    Rc::new(Expr::Builtin(2, name.to_string(), op, Vec::new()))
}

fn data(arity: usize, ty: &str, tag: &str) -> Rc<Expr> {
    Rc::new(Expr::Data(arity, ty.to_string(), tag.to_string(), Vec::new()))
}

fn letrec(binds: Vec<(&str, Rc<Expr>)>, body: Rc<Expr>) -> Rc<Expr> {
    let names = binds.iter().map(|(n, _)| n.to_string()).collect();
    let defs = binds.into_iter().map(|(_, d)| d).collect();
    Rc::new(Expr::LetRec(names, defs, body))
}

fn run(e: Rc<Expr>) -> Result<Rc<Expr>, EvalError> {
    let arranged = change_lets(e);
    let resolved = resolve(&arranged, 0).0;
    eval(resolved, Rc::new(Env::Empty), Vec::new(), 10_000)
}

fn expect_int(r: Result<Rc<Expr>, EvalError>, n: i64) {
    match r {
        Ok(v) => match &*v {
            Expr::Int(b) => assert_eq!(*b, BigInt::from(n)),
            other => panic!("expected an integer literal, got {:?}", other),
        },
        Err(e) => panic!("expected a value, got error {:?}", e),
    }
}

fn expect_tag(r: Result<Rc<Expr>, EvalError>, tag: &str) {
    match r {
        Ok(v) => match &*v {
            Expr::Data(_, _, t, _) => assert_eq!(t, tag),
            other => panic!("expected a constructor value, got {:?}", other),
        },
        Err(e) => panic!("expected a value, got error {:?}", e),
    }
}

#[test]
fn example_double_reduces_to_42() {
    // letrec double = \x -> + x x; main = double 21 in main
    let double = lam("x", app(app(builtin(BuiltinOp::Add, "+"), var("x")), var("x")));
    let main_def = app(var("double"), num_lit(21));
    let prog = letrec(vec![("double", double), ("main", main_def)], var("main"));
    expect_int(run(prog), 42);
}

#[test]
fn example_is_even_reduces_to_true() {
    // letrec isEven = \n -> case n of [Zero -> True; Succ m -> case isEven m
    // of [True -> False; False -> True]] in isEven (Succ (Succ Zero))
    let inner_case = Rc::new(Expr::Case(
        app(var("isEven"), var("m")),
        vec![
            Rc::new(Pattern::Construct("True".to_string(), Vec::new())),
            Rc::new(Pattern::Construct("False".to_string(), Vec::new())),
        ],
        vec![var("False"), var("True")],
    ));
    let outer_case = Rc::new(Expr::Case(
        var("n"),
        vec![
            Rc::new(Pattern::Construct("Zero".to_string(), Vec::new())),
            Rc::new(Pattern::Construct("Succ".to_string(), vec!["m".to_string()])),
        ],
        vec![var("True"), inner_case],
    ));
    let is_even = lam("n", outer_case);
    let body = app(var("isEven"), app(var("Succ"), app(var("Succ"), var("Zero"))));
    let prog = letrec(
        vec![
            ("isEven", is_even),
            ("Zero", data(0, "Nat", "Zero")),
            ("Succ", data(1, "Nat", "Succ")),
            ("True", data(0, "Bool", "True")),
            ("False", data(0, "Bool", "False")),
        ],
        body,
    );
    expect_tag(run(prog), "True");
}

#[test]
fn unmatched_constructor_raises_non_exhaustive() {
    // a case whose scrutinee matches no listed pattern
    let scrutinee = data(0, "Shape", "Circle");
    let case = Rc::new(Expr::Case(
        scrutinee,
        vec![Rc::new(Pattern::Construct("Square".to_string(), Vec::new()))],
        vec![num_lit(1)],
    ));
    let r = eval(case, Rc::new(Env::Empty), Vec::new(), 1000);
    assert!(matches!(r, Err(EvalError::NonExhaustiveMatch)));
}

#[test]
fn shadowing_inner_binding_wins() {
    // let x = 1 in let x = 2 in x
    let inner = Rc::new(Expr::Let(
        vec!["x".to_string()],
        vec![num_lit(2)],
        var("x"),
    ));
    let outer = Rc::new(Expr::Let(vec!["x".to_string()], vec![num_lit(1)], inner));
    let resolved = resolve(&outer, 0).0;
    expect_int(eval(resolved, Rc::new(Env::Empty), Vec::new(), 1000), 2);
}

#[test]
fn mutual_recursion_stays_in_one_letrec() {
    // letrec f = \n -> g n; g = \n -> f n in f 0: the cyclic pair must be
    // kept in one recursive group, never split into sequential blocks
    let f = lam("n", app(var("g"), var("n")));
    let g = lam("n", app(var("f"), var("n")));
    let prog = letrec(vec![("f", f), ("g", g)], app(var("f"), num_lit(0)));
    let arranged = change_lets(prog);
    match &*arranged {
        Expr::LetRec(names, defs, _) => {
            assert_eq!(defs.len(), 2);
            let mut sorted = names.clone();
            sorted.sort();
            assert_eq!(sorted, vec!["f".to_string(), "g".to_string()]);
        }
        other => panic!("expected one recursive group, got {:?}", other),
    }
}

#[test]
fn first_matching_pattern_wins() {
    // two patterns match 5: the earlier branch is taken
    let case = Rc::new(Expr::Case(
        num_lit(5),
        vec![
            Rc::new(Pattern::Wildcard),
            Rc::new(Pattern::Irrefutable("x".to_string())),
        ],
        vec![num_lit(10), num_lit(20)],
    ));
    expect_int(eval(case, Rc::new(Env::Empty), Vec::new(), 1000), 10);
}

#[test]
fn literal_patterns_match_by_value() {
    let case = Rc::new(Expr::Case(
        num_lit(2),
        vec![
            Rc::new(Pattern::Int(BigInt::from(1))),
            Rc::new(Pattern::Int(BigInt::from(2))),
            Rc::new(Pattern::Wildcard),
        ],
        vec![num_lit(10), num_lit(20), num_lit(30)],
    ));
    expect_int(eval(case, Rc::new(Env::Empty), Vec::new(), 1000), 20);
}

#[test]
fn saturation_stops_at_arity() {
    // a pair constructor given three arguments keeps exactly two fields
    let pair = data(2, "Pair", "MkPair");
    let e = app(app(app(pair, num_lit(1)), num_lit(2)), num_lit(3));
    let r = eval(e, Rc::new(Env::Empty), Vec::new(), 1000).unwrap();
    match &*r {
        Expr::Data(arity, _, tag, fields) => {
            assert_eq!(*arity, 2);
            assert_eq!(tag, "MkPair");
            assert_eq!(fields.len(), 2);
        }
        other => panic!("expected a saturated constructor, got {:?}", other),
    }
}

#[test]
fn unbound_name_is_reported() {
    let r = eval(var("nowhere"), Rc::new(Env::Empty), Vec::new(), 1000);
    assert!(matches!(r, Err(EvalError::UnboundName)));
}

#[test]
fn lambda_without_argument_is_an_arity_error() {
    let r = eval(lam("x", var("x")), Rc::new(Env::Empty), Vec::new(), 1000);
    assert!(matches!(r, Err(EvalError::ArityError)));
}

#[test]
fn ignore_parameter_consumes_without_binding() {
    // (\_ -> 7) 9 reduces to 7
    let e = app(lam("_", num_lit(7)), num_lit(9));
    expect_int(eval(e, Rc::new(Env::Empty), Vec::new(), 1000), 7);
}

#[test]
fn non_boolean_condition_is_a_type_error() {
    let e = Rc::new(Expr::If(num_lit(1), num_lit(2), num_lit(3)));
    let r = eval(e, Rc::new(Env::Empty), Vec::new(), 1000);
    assert!(matches!(r, Err(EvalError::TypeError)));
}

#[test]
fn non_nullary_boolean_is_a_type_error() {
    // a one-field constructor tagged "True" is not a boolean value
    let cond = Rc::new(Expr::Data(
        1,
        "Bool".to_string(),
        "True".to_string(),
        vec![num_lit(1)],
    ));
    let e = Rc::new(Expr::If(cond, num_lit(2), num_lit(3)));
    let r = eval(e, Rc::new(Env::Empty), Vec::new(), 1000);
    assert!(matches!(r, Err(EvalError::TypeError)));
}

#[test]
fn ignore_parameter_still_requires_an_argument() {
    // \_ -> 7 applied to nothing is an arity error like any lambda
    let r = eval(lam("_", num_lit(7)), Rc::new(Env::Empty), Vec::new(), 1000);
    assert!(matches!(r, Err(EvalError::ArityError)));
}

#[test]
fn if_dispatches_on_boolean_tags() {
    let e = Rc::new(Expr::If(data(0, "Bool", "True"), num_lit(2), num_lit(3)));
    expect_int(eval(e, Rc::new(Env::Empty), Vec::new(), 1000), 2);
    let e2 = Rc::new(Expr::If(data(0, "Bool", "False"), num_lit(2), num_lit(3)));
    expect_int(eval(e2, Rc::new(Env::Empty), Vec::new(), 1000), 3);
}

#[test]
fn user_error_halts_with_its_message() {
    let e = Rc::new(Expr::Error("boom".to_string()));
    match eval(e, Rc::new(Env::Empty), Vec::new(), 1000) {
        Err(EvalError::UserError(s)) => assert_eq!(s, "boom"),
        other => panic!("expected the user error, got {:?}", other),
    }
}

#[test]
fn bottom_halts_as_undefined() {
    let r = eval(Rc::new(Expr::Bottom), Rc::new(Env::Empty), Vec::new(), 1000);
    assert!(matches!(r, Err(EvalError::Undefined)));
}

#[test]
fn divergence_runs_out_of_fuel() {
    // letrec loop = loop in loop
    let prog = letrec(vec![("loop", var("loop"))], var("loop"));
    let arranged = change_lets(prog);
    let resolved = resolve(&arranged, 0).0;
    let r = eval(resolved, Rc::new(Env::Empty), Vec::new(), 50);
    assert!(matches!(r, Err(EvalError::OutOfFuel)));
}

#[test]
fn arithmetic_builtins_compute() {
    let sub = app(app(builtin(BuiltinOp::Sub, "-"), num_lit(5)), num_lit(2));
    expect_int(eval(sub, Rc::new(Env::Empty), Vec::new(), 1000), 3);
    let mul = app(app(builtin(BuiltinOp::Mul, "*"), num_lit(6)), num_lit(7));
    expect_int(eval(mul, Rc::new(Env::Empty), Vec::new(), 1000), 42);
}

#[test]
fn division_truncates_towards_zero() {
    let q = app(app(builtin(BuiltinOp::Div, "/"), num_lit(7)), num_lit(2));
    expect_int(eval(q, Rc::new(Env::Empty), Vec::new(), 1000), 3);
    let qn = app(app(builtin(BuiltinOp::Div, "/"), num_lit(-7)), num_lit(2));
    expect_int(eval(qn, Rc::new(Env::Empty), Vec::new(), 1000), -3);
}

#[test]
fn division_by_zero_is_a_type_error() {
    let q = app(app(builtin(BuiltinOp::Div, "/"), num_lit(7)), num_lit(0));
    let r = eval(q, Rc::new(Env::Empty), Vec::new(), 1000);
    assert!(matches!(r, Err(EvalError::TypeError)));
}

#[test]
fn equality_builtin_yields_boolean_constructors() {
    let e = app(app(builtin(BuiltinOp::Eq, "="), num_lit(2)), num_lit(2));
    expect_tag(eval(e, Rc::new(Env::Empty), Vec::new(), 1000), "True");
    let ne = app(app(builtin(BuiltinOp::Eq, "="), num_lit(2)), num_lit(3));
    expect_tag(eval(ne, Rc::new(Env::Empty), Vec::new(), 1000), "False");
}

#[test]
fn adding_text_is_a_type_error() {
    let e = app(
        app(builtin(BuiltinOp::Add, "+"), Rc::new(Expr::Str("a".to_string()))),
        num_lit(1),
    );
    let r = eval(e, Rc::new(Env::Empty), Vec::new(), 1000);
    assert!(matches!(r, Err(EvalError::TypeError)));
}

#[test]
fn builtin_functions_compute_directly() {
    let args = vec![num_lit(30), num_lit(12)];
    match bagl::builtins::add(args) {
        Ok(v) => match &*v {
            Expr::Int(b) => assert_eq!(*b, BigInt::from(42)),
            other => panic!("expected an integer, got {:?}", other),
        },
        Err(e) => panic!("unexpected error {:?}", e),
    }
    let bad = vec![num_lit(1)];
    assert!(matches!(bagl::builtins::mult(bad), Err(EvalError::TypeError)));
    match bagl::builtins::eq(vec![num_lit(4), num_lit(4)]) {
        Ok(v) => match &*v {
            Expr::Data(_, ty, tag, _) => {
                assert_eq!(ty, "Bool");
                assert_eq!(tag, "True");
            }
            other => panic!("expected a boolean constructor, got {:?}", other),
        },
        Err(e) => panic!("unexpected error {:?}", e),
    }
    assert!(matches!(
        bagl::builtins::div(vec![num_lit(1), num_lit(0)]),
        Err(EvalError::TypeError)
    ));
    match bagl::builtins::sub(vec![num_lit(1), num_lit(3)]) {
        Ok(v) => match &*v {
            Expr::Int(b) => assert_eq!(*b, BigInt::from(-2)),
            other => panic!("expected an integer, got {:?}", other),
        },
        Err(e) => panic!("unexpected error {:?}", e),
    }
}

#[test]
fn pattern_match_and_bind_expose_fields() {
    let val = Rc::new(Expr::Data(
        2,
        "Pair".to_string(),
        "MkPair".to_string(),
        vec![num_lit(1), num_lit(2)],
    ));
    let pat = Pattern::Construct("MkPair".to_string(), vec!["a".to_string(), "b".to_string()]);
    assert_eq!(bagl::eval::pat_match(&val, &pat).unwrap(), true);
    let (vars, defs) = bagl::eval::assign(&val, &pat);
    assert_eq!(vars, vec!["a".to_string(), "b".to_string()]);
    assert_eq!(defs.len(), 2);
    let short = Pattern::Construct("MkPair".to_string(), vec!["a".to_string()]);
    assert_eq!(bagl::eval::pat_match(&val, &short).unwrap(), false);
    let lambda = lam("x", var("x"));
    assert!(matches!(
        bagl::eval::pat_match(&lambda, &Pattern::Wildcard),
        Err(EvalError::TypeError)
    ));
}

#[test]
fn lookup_re_reduces_the_definition() {
    // main = double 3 where double doubles via the environment each time
    let double = lam("x", app(app(builtin(BuiltinOp::Add, "+"), var("x")), var("x")));
    let prog = letrec(
        vec![("double", double), ("main", app(var("double"), num_lit(3)))],
        var("main"),
    );
    expect_int(run(prog), 6);
}

#[test]
fn depth_resolution_is_approximate_under_reapplied_definitions() {
    // let z = 1 in let x = z in (\z -> (\b -> x)) 9 8
    //
    // The resolver threads one integer through a structurally non-linear
    // walk, and a looked-up definition is re-reduced under the environment
    // at the occurrence, not at the binding.  Dropping x's resolved depth
    // here lands on the inner z-frame instead of the outer one, so the
    // program reduces to 9 rather than 1.  This pins down the known
    // approximation rather than silently relying on it.
    let inner_lam = lam("z", lam("b", var("x")));
    let applied = app(app(inner_lam, num_lit(9)), num_lit(8));
    let bind_x = Rc::new(Expr::Let(
        vec!["x".to_string()],
        vec![var("z")],
        applied,
    ));
    let bind_z = Rc::new(Expr::Let(vec!["z".to_string()], vec![num_lit(1)], bind_x));
    let resolved = resolve(&bind_z, 0).0;
    expect_int(eval(resolved, Rc::new(Env::Empty), Vec::new(), 1000), 9);
}

#[test]
fn rearrangement_preserves_reduction_results() {
    // reducing the resolved original block and the resolved rearranged
    // block gives the same value on concrete programs
    let make_double = || {
        letrec(
            vec![
                (
                    "double",
                    lam("x", app(app(builtin(BuiltinOp::Add, "+"), var("x")), var("x"))),
                ),
                ("main", app(var("double"), num_lit(21))),
            ],
            var("main"),
        )
    };
    let make_chain = || {
        // letrec a = 1; b = + a 2; c = * b b in c
        letrec(
            vec![
                ("a", num_lit(1)),
                ("b", app(app(builtin(BuiltinOp::Add, "+"), var("a")), num_lit(2))),
                ("c", app(app(builtin(BuiltinOp::Mul, "*"), var("b")), var("b"))),
            ],
            var("c"),
        )
    };
    let make_parity = || {
        letrec(
            vec![
                (
                    "flip",
                    lam(
                        "b",
                        Rc::new(Expr::If(var("b"), var("False"), var("True"))),
                    ),
                ),
                ("True", data(0, "Bool", "True")),
                ("False", data(0, "Bool", "False")),
                ("main", app(var("flip"), var("False"))),
            ],
            var("main"),
        )
    };
    for (prog, direct) in [
        (make_double(), make_double()),
        (make_chain(), make_chain()),
        (make_parity(), make_parity()),
    ] {
        let rearranged = resolve(&change_lets(prog), 0).0;
        let untouched = resolve(&direct, 0).0;
        let via_groups = eval(rearranged, Rc::new(Env::Empty), Vec::new(), 10_000).unwrap();
        let flat = eval(untouched, Rc::new(Env::Empty), Vec::new(), 10_000).unwrap();
        assert_eq!(via_groups.render(), flat.render());
    }
}
