use bagl::ast::{BuiltinOp, Definition, Expr, Pattern, Toplevel};
use bagl::either::{is_left, is_right, Either};
use bagl::env::Env;
use bagl::info::{create_data_info, ProdInfo, SumInfo};
use bagl::pretty::{Pretty, Printer};
use bagl::rearrange::{change_lets, dependencies};
use bagl::scan::resolve;
use num::bigint::BigInt;
use std::rc::Rc;

fn var(s: &str) -> Rc<Expr> {
    Rc::new(Expr::Var(s.to_string(), 0))
}

fn num_lit(n: i64) -> Rc<Expr> {
    Rc::new(Expr::Int(BigInt::from(n)))
}

fn app(f: Rc<Expr>, a: Rc<Expr>) -> Rc<Expr> {
    Rc::new(Expr::App(f, a))
}

fn lam(p: &str, b: Rc<Expr>) -> Rc<Expr> {
    Rc::new(Expr::Lam(p.to_string(), b))
}

fn frame(binds: Vec<(&str, Rc<Expr>)>) -> Vec<(String, Rc<Expr>)> {
    binds.into_iter().map(|(n, d)| (n.to_string(), d)).collect()
}

#[test]
fn env_lookup_searches_innermost_first() {
    let outer = Rc::new(Env::Context(frame(vec![("x", num_lit(1)), ("y", num_lit(9))]), Rc::new(Env::Empty)));
    let inner = Env::Context(frame(vec![("x", num_lit(2))]), outer);
    match inner.lookup(&"x".to_string()) {
        Some(d) => match &**d {
            Expr::Int(b) => assert_eq!(*b, BigInt::from(2)),
            other => panic!("expected an integer, got {:?}", other),
        },
        None => panic!("expected a binding"),
    }
    match inner.lookup(&"y".to_string()) {
        Some(d) => match &**d {
            Expr::Int(b) => assert_eq!(*b, BigInt::from(9)),
            other => panic!("expected an integer, got {:?}", other),
        },
        None => panic!("expected a binding"),
    }
    assert!(inner.lookup(&"z".to_string()).is_none());
}

#[test]
fn env_depth_drop_and_sub_env() {
    let outer = Rc::new(Env::Context(frame(vec![("x", num_lit(1))]), Rc::new(Env::Empty)));
    let inner = Env::Context(frame(vec![("y", num_lit(2))]), outer);
    assert_eq!(inner.depth(), 2);
    let dropped = inner.drop(1);
    assert_eq!(dropped.depth(), 1);
    assert!(dropped.lookup(&"y".to_string()).is_none());
    assert!(dropped.lookup(&"x".to_string()).is_some());
    let past = inner.drop(5);
    assert_eq!(past.depth(), 0);
    let sub = inner.sub_env(1);
    assert!(sub.lookup(&"x".to_string()).is_some());
    assert!(inner.lookup_at(&"x".to_string(), 1).is_some());
    assert!(inner.lookup_in(&"y".to_string(), 1).is_none());
    assert!(inner.lookup_top(&"y".to_string()).is_some());
    assert!(inner.lookup_top(&"x".to_string()).is_none());
}

#[test]
fn non_recursive_bindings_become_sequential_lets() {
    // letrec a = 1; b = a in b: b depends on a, so a is bound outside b
    let prog = Rc::new(Expr::LetRec(
        vec!["a".to_string(), "b".to_string()],
        vec![num_lit(1), var("a")],
        var("b"),
    ));
    let arranged = change_lets(prog);
    match &*arranged {
        Expr::Let(names_a, _, inner) => {
            assert_eq!(names_a, &vec!["a".to_string()]);
            match &**inner {
                Expr::Let(names_b, defs_b, body) => {
                    assert_eq!(names_b, &vec!["b".to_string()]);
                    assert!(matches!(&**body, Expr::Var(n, _) if n == "b"));
                    assert!(matches!(&*defs_b[0], Expr::Var(n, _) if n == "a"));
                }
                other => panic!("expected the dependent binding inside, got {:?}", other),
            }
        }
        other => panic!("expected two nested non-recursive blocks, got {:?}", other),
    }
}

#[test]
fn self_recursive_singleton_stays_a_letrec() {
    let prog = Rc::new(Expr::LetRec(
        vec!["r".to_string()],
        vec![app(var("r"), num_lit(1))],
        var("r"),
    ));
    let arranged = change_lets(prog);
    assert!(matches!(&*arranged, Expr::LetRec(..)));

    let plain = Rc::new(Expr::LetRec(
        vec!["k".to_string()],
        vec![num_lit(5)],
        var("k"),
    ));
    let arranged2 = change_lets(plain);
    assert!(matches!(&*arranged2, Expr::Let(..)));
}

#[test]
fn empty_block_vanishes() {
    let prog = Rc::new(Expr::LetRec(Vec::new(), Vec::new(), num_lit(3)));
    let arranged = change_lets(prog);
    assert!(matches!(&*arranged, Expr::Int(_)));
}

#[test]
fn dependency_scan_sees_through_inner_binders() {
    // the scan matches names textually, even under a rebinding lambda
    let names = vec!["f".to_string()];
    let def = lam("f", app(var("f"), num_lit(1)));
    let deps = dependencies(&names, &def, Vec::new());
    assert_eq!(deps, vec!["f".to_string()]);
}

#[test]
fn dependency_scan_collects_in_order() {
    let names = vec!["a".to_string(), "b".to_string()];
    let def = app(var("b"), app(var("a"), var("c")));
    let deps = dependencies(&names, &def, Vec::new());
    assert_eq!(deps, vec!["b".to_string(), "a".to_string()]);
}

#[test]
fn cycles_group_together_and_the_rest_stays_apart() {
    // letrec a = b; b = a; c = 1 in c: the cycle {a, b} must come out as
    // one recursive group and c as its own non-recursive block
    let prog = Rc::new(Expr::LetRec(
        vec!["a".to_string(), "b".to_string(), "c".to_string()],
        vec![var("b"), var("a"), num_lit(1)],
        var("c"),
    ));
    let mut blocks: Vec<(bool, Vec<String>)> = Vec::new();
    let mut cursor = change_lets(prog);
    loop {
        cursor = match &*cursor {
            Expr::Let(names, _, body) => {
                blocks.push((false, names.clone()));
                body.clone()
            }
            Expr::LetRec(names, _, body) => {
                blocks.push((true, names.clone()));
                body.clone()
            }
            _ => break,
        };
    }
    assert_eq!(blocks.len(), 2);
    let rec: Vec<&(bool, Vec<String>)> = blocks.iter().filter(|(r, _)| *r).collect();
    let plain: Vec<&(bool, Vec<String>)> = blocks.iter().filter(|(r, _)| !*r).collect();
    assert_eq!(rec.len(), 1);
    let mut cycle = rec[0].1.clone();
    cycle.sort();
    assert_eq!(cycle, vec!["a".to_string(), "b".to_string()]);
    assert_eq!(plain.len(), 1);
    assert_eq!(plain[0].1, vec!["c".to_string()]);
}

#[test]
fn resolver_annotates_depths() {
    // let x = y in x: the definition skips the block's own frame
    let e = Rc::new(Expr::Let(
        vec!["x".to_string()],
        vec![var("y")],
        var("x"),
    ));
    let resolved = resolve(&e, 0).0;
    match &*resolved {
        Expr::Let(_, defs, body) => {
            assert!(matches!(&*defs[0], Expr::Var(n, d) if n == "y" && *d == 1));
            assert!(matches!(&**body, Expr::Var(n, d) if n == "x" && *d == 0));
        }
        other => panic!("expected the block back, got {:?}", other),
    }
}

#[test]
fn resolver_threads_context_through_application() {
    // (\y -> y) z: the lambda body resets to zero, and the argument is
    // resolved with the context the function side produced
    let e = app(lam("y", var("y")), var("z"));
    let resolved = resolve(&e, 3).0;
    match &*resolved {
        Expr::App(f, a) => {
            match &**f {
                Expr::Lam(_, b) => {
                    assert!(matches!(&**b, Expr::Var(n, d) if n == "y" && *d == 0))
                }
                other => panic!("expected the lambda, got {:?}", other),
            }
            assert!(matches!(&**a, Expr::Var(n, d) if n == "z" && *d == 0));
        }
        other => panic!("expected the application back, got {:?}", other),
    }
}

#[test]
fn rendering_matches_the_reference_shapes() {
    let e = app(var("f"), num_lit(1));
    assert_eq!(e.render(), "(f 1)");
    let l = lam("x", var("x"));
    assert_eq!(l.render(), "(\\ x . x)");
    assert_eq!(Rc::new(Expr::Bottom).render(), "_|_");
    assert_eq!(num_lit(-42).render(), "-42");
    assert_eq!(num_lit(0).render(), "0");
    let d = Rc::new(Expr::Data(
        2,
        "Pair".to_string(),
        "MkPair".to_string(),
        vec![num_lit(1), num_lit(2)],
    ));
    assert_eq!(d.render(), "(MkPair 1 2)");
    let letb = Rc::new(Expr::Let(
        vec!["x".to_string()],
        vec![num_lit(1)],
        var("x"),
    ));
    assert_eq!(letb.render(), "let x = 1; in x");
    let c = Rc::new(Expr::Case(
        var("n"),
        vec![Rc::new(Pattern::Construct("Succ".to_string(), vec!["m".to_string()]))],
        vec![var("m")],
    ));
    assert_eq!(c.render(), "case n of [Succ m -> m; ]");
    let p = Pattern::Wildcard;
    assert_eq!(p.render(), "_");
    let iff = Rc::new(Expr::If(var("c"), num_lit(1), num_lit(2)));
    assert_eq!(iff.render(), "if c 1 2");
    let err = Rc::new(Expr::Error("bad".to_string()));
    assert_eq!(err.render(), "Error bad");
    let b = Rc::new(Expr::Builtin(2, "+".to_string(), BuiltinOp::Add, vec![num_lit(1)]));
    assert_eq!(b.render(), "(+ 1)");
}

#[test]
fn pretty_documents_render() {
    let d = Pretty::append(Pretty::str("ab"), Pretty::str("cd"));
    assert_eq!(d.display(), "abcd");
    assert_eq!(Pretty::nil().display(), "");
    let joined = Pretty::interleave(
        Pretty::str(", "),
        vec![Pretty::str("a"), Pretty::str("b"), Pretty::str("c")],
    );
    assert_eq!(joined.display(), "a, b, c");
    let cat = Pretty::concat(vec![Pretty::str("x"), Pretty::str("y")]);
    assert_eq!(cat.display(), "xy");
    assert_eq!(Pretty::newline().display(), "\n");
    let ind = Pretty::indent(Pretty::str("z"));
    assert_eq!(ind.display(), "z");
    let with_break = Pretty::append(
        Pretty::append(Pretty::str("ab"), Pretty::Newline),
        Pretty::str("cd"),
    );
    assert_eq!(with_break.display(), "ab\ncd");
    let indented = Pretty::append(
        Pretty::str("ab"),
        Pretty::Indent(Box::new(Pretty::append(Pretty::Newline, Pretty::str("cd")))),
    );
    assert_eq!(indented.display(), "ab\n  cd");
}

#[test]
fn printer_walks_a_document() {
    let doc = Pretty::append(Pretty::str("hi"), Pretty::str("!"));
    let mut p = Printer::new(doc);
    let mut out = String::new();
    while let Some(step) = p.next() {
        out += &step.render();
    }
    assert_eq!(out, "hi!");
}

#[test]
fn either_sides_are_told_apart() {
    let l: Either<i64, bool> = Either::Left(1);
    let r: Either<i64, bool> = Either::Right(true);
    assert!(is_left(&l));
    assert!(!is_right(&l));
    assert!(is_right(&r));
    assert!(!is_left(&r));
}

#[test]
fn data_info_packages_constructors() {
    // List a = Cons a (List a) | Nil
    let lhs = vec!["List".to_string(), "a".to_string()];
    let rhs = vec![
        vec![
            vec!["Cons".to_string()],
            vec!["a".to_string()],
            vec!["List".to_string(), "a".to_string()],
        ],
        vec![vec!["Nil".to_string()]],
    ];
    let info = create_data_info(lhs, rhs);
    assert_eq!(info.type_info.get_name(), Some("List".to_string()));
    assert_eq!(info.data_info.alts.len(), 2);
    assert_eq!(info.data_info.alts[0].name, "Cons");
    assert_eq!(info.data_info.alts[0].args.len(), 2);
    assert_eq!(info.data_info.alts[1].name, "Nil");
    let nodes = info.to_data();
    match &*nodes[0] {
        Expr::Data(arity, ty, tag, fields) => {
            assert_eq!(*arity, 2);
            assert_eq!(ty, "List");
            assert_eq!(tag, "Cons");
            assert!(fields.is_empty());
        }
        other => panic!("expected a constructor node, got {:?}", other),
    }
    let defs = info.to_definitions();
    assert_eq!(defs.len(), 2);
    assert_eq!(defs[1].assign, "Nil");
}

#[test]
fn prod_and_sum_info_package_their_parts() {
    let prod = ProdInfo::new("Pair".to_string(), Vec::new());
    assert_eq!(prod.name, "Pair");
    let sum = SumInfo::new(vec![prod]);
    assert_eq!(sum.alts.len(), 1);
}

#[test]
fn toplevel_wraps_the_program_in_one_block() {
    let top = Toplevel {
        data: vec![Definition::new(
            "True".to_string(),
            Rc::new(Expr::Data(0, "Bool".to_string(), "True".to_string(), Vec::new())),
        )],
        defs: vec![Definition::new("main".to_string(), num_lit(7))],
    };
    let prog = top.to_let();
    match &*prog {
        Expr::LetRec(names, defs, body) => {
            assert_eq!(names, &vec!["True".to_string(), "main".to_string()]);
            assert_eq!(defs.len(), 2);
            assert!(matches!(&**body, Expr::Var(n, _) if n == "main"));
        }
        other => panic!("expected one recursive block, got {:?}", other),
    }
    let env = top.to_env();
    assert!(env.lookup(&"main".to_string()).is_some());
    assert!(env.lookup(&"True".to_string()).is_some());
    assert!(env.lookup(&"absent".to_string()).is_none());
}

#[test]
fn check_cases_flags_repeated_pattern_names() {
    let bad = Rc::new(Expr::Case(
        var("v"),
        vec![Rc::new(Pattern::Construct(
            "Pair".to_string(),
            vec!["a".to_string(), "a".to_string()],
        ))],
        vec![num_lit(1)],
    ));
    assert!(!bagl::check::check_cases(&bad));
    let good = Rc::new(Expr::Case(
        var("v"),
        vec![Rc::new(Pattern::Construct(
            "Pair".to_string(),
            vec!["a".to_string(), "b".to_string()],
        ))],
        vec![num_lit(1)],
    ));
    assert!(bagl::check::check_cases(&good));
}

#[test]
fn shadowing_flags_rebinding_binders_only() {
    // a lambda that rebinds a name already in scope
    let e = lam("x", lam("x", num_lit(1)));
    assert!(bagl::check::shadowing(&e, Vec::new()));
    let clean = lam("x", lam("y", num_lit(1)));
    assert!(!bagl::check::shadowing(&clean, Vec::new()));
    // a plain use of a bound name is not a binder and is not flagged
    let use_of_bound = lam("x", var("x"));
    assert!(!bagl::check::shadowing(&use_of_bound, Vec::new()));
    // a block binding a name already in scope is flagged
    let block = lam(
        "x",
        Rc::new(Expr::Let(vec!["x".to_string()], vec![num_lit(1)], num_lit(2))),
    );
    assert!(bagl::check::shadowing(&block, Vec::new()));
}

#[test]
fn check_cases_descends_into_scrutinees() {
    let bad_pattern = Rc::new(Pattern::Construct(
        "Pair".to_string(),
        vec!["a".to_string(), "a".to_string()],
    ));
    let bad_inner = Rc::new(Expr::Case(var("v"), vec![bad_pattern], vec![num_lit(1)]));
    let outer = Rc::new(Expr::Case(
        bad_inner,
        vec![Rc::new(Pattern::Wildcard)],
        vec![num_lit(2)],
    ));
    assert!(!bagl::check::check_cases(&outer));
}

#[test]
fn ordinary_definitions_take_precedence_in_the_environment() {
    // a name bound both as a data constructor and as an ordinary
    // definition resolves to the ordinary definition, the later binding
    let top = Toplevel {
        data: vec![Definition::new(
            "x".to_string(),
            Rc::new(Expr::Data(0, "T".to_string(), "x".to_string(), Vec::new())),
        )],
        defs: vec![Definition::new("x".to_string(), num_lit(7))],
    };
    let env = top.to_env();
    match env.lookup(&"x".to_string()) {
        Some(d) => match &**d {
            Expr::Int(b) => assert_eq!(*b, BigInt::from(7)),
            other => panic!("expected the ordinary definition, got {:?}", other),
        },
        None => panic!("expected a binding"),
    }
}

#[test]
fn whole_pipeline_runs_a_program_with_data() {
    // letrec Pair = <constructor>; swap = \p -> case p of [Pair a b ->
    // ((Pair b) a)]; main = swap ((Pair 1) 2) in main
    let pair = Rc::new(Expr::Data(2, "Pair".to_string(), "Pair".to_string(), Vec::new()));
    let swap_body = Rc::new(Expr::Case(
        var("p"),
        vec![Rc::new(Pattern::Construct(
            "Pair".to_string(),
            vec!["a".to_string(), "b".to_string()],
        ))],
        vec![app(app(var("Pair"), var("b")), var("a"))],
    ));
    let prog = Rc::new(Expr::LetRec(
        vec!["Pair".to_string(), "swap".to_string(), "main".to_string()],
        vec![
            pair,
            lam("p", swap_body),
            app(var("swap"), app(app(var("Pair"), num_lit(1)), num_lit(2))),
        ],
        var("main"),
    ));
    let arranged = change_lets(prog);
    let resolved = resolve(&arranged, 0).0;
    let r = bagl::eval::eval(resolved, Rc::new(Env::Empty), Vec::new(), 100_000).unwrap();
    assert_eq!(r.render(), "(Pair 2 1)");
}
