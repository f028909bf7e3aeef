//! The native functions behind `Builtin` nodes: integer arithmetic and an
//! equality test that yields a boolean constructor value.
//!
//! Each function receives the saturated field list, reads its first two
//! entries, and either returns the combined value or reports an operand
//! error instead of halting the process.

use crate::ast::{expr_view, exprs_view, lemma_exprs_view_index, lemma_exprs_view_len, BuiltinOp, Expr, ExprView};
use crate::bignum::{big_add, big_div, big_eq, big_is_zero, big_mul, big_sub};
use crate::eval::{apply_op_spec, error_view, EvalError, ErrorView};
use std::rc::Rc;
use vstd::prelude::*;

verus! {

/// What a run of one builtin must return.
pub open spec fn op_result_matches(
    op: BuiltinOp,
    args: Seq<ExprView>,
    r: Result<Rc<Expr>, EvalError>,
) -> bool {
    match r {
        Result::Ok(v) => apply_op_spec(op, args) == Result::<ExprView, ErrorView>::Ok(
            expr_view(*v),
        ),
        Result::Err(e) => apply_op_spec(op, args) == Result::<ExprView, ErrorView>::Err(
            error_view(e),
        ),
    }
}

/// Apply the named operation to a saturated field list.
pub fn apply_op(op: BuiltinOp, args: Vec<Rc<Expr>>) -> (r: Result<Rc<Expr>, EvalError>)
    ensures
        op_result_matches(op, exprs_view(args@), r),
{
    match op {
        BuiltinOp::Add => crate::builtins::add(args),
        BuiltinOp::Sub => crate::builtins::sub(args),
        BuiltinOp::Mul => crate::builtins::mult(args),
        BuiltinOp::Div => crate::builtins::div(args),
        BuiltinOp::Eq => crate::builtins::eq(args),
    }
}

/// Add two integer literals.
pub fn add(args: Vec<Rc<Expr>>) -> (r: Result<Rc<Expr>, EvalError>)
    ensures
        op_result_matches(BuiltinOp::Add, exprs_view(args@), r),
{
    proof {
        lemma_exprs_view_len(args@);
    }
    if args.len() < 2 {
        return Result::Err(EvalError::TypeError);
    }
    proof {
        lemma_exprs_view_index(args@, 0);
        lemma_exprs_view_index(args@, 1);
    }
    match (&*args[0], &*args[1]) {
        (Expr::Int(a), Expr::Int(b)) => Result::Ok(Rc::new(Expr::Int(big_add(a, b)))),
        _ => Result::Err(EvalError::TypeError),
    }
}

/// Subtract the second integer literal from the first.
pub fn sub(args: Vec<Rc<Expr>>) -> (r: Result<Rc<Expr>, EvalError>)
    ensures
        op_result_matches(BuiltinOp::Sub, exprs_view(args@), r),
{
    proof {
        lemma_exprs_view_len(args@);
    }
    if args.len() < 2 {
        return Result::Err(EvalError::TypeError);
    }
    proof {
        lemma_exprs_view_index(args@, 0);
        lemma_exprs_view_index(args@, 1);
    }
    match (&*args[0], &*args[1]) {
        (Expr::Int(a), Expr::Int(b)) => Result::Ok(Rc::new(Expr::Int(big_sub(a, b)))),
        _ => Result::Err(EvalError::TypeError),
    }
}

/// Multiply two integer literals.
pub fn mult(args: Vec<Rc<Expr>>) -> (r: Result<Rc<Expr>, EvalError>)
    ensures
        op_result_matches(BuiltinOp::Mul, exprs_view(args@), r),
{
    proof {
        lemma_exprs_view_len(args@);
    }
    if args.len() < 2 {
        return Result::Err(EvalError::TypeError);
    }
    proof {
        lemma_exprs_view_index(args@, 0);
        lemma_exprs_view_index(args@, 1);
    }
    match (&*args[0], &*args[1]) {
        (Expr::Int(a), Expr::Int(b)) => Result::Ok(Rc::new(Expr::Int(big_mul(a, b)))),
        _ => Result::Err(EvalError::TypeError),
    }
}

/// Divide the first integer literal by the second, truncating towards
/// zero; a zero divisor is an operand error.
pub fn div(args: Vec<Rc<Expr>>) -> (r: Result<Rc<Expr>, EvalError>)
    ensures
        op_result_matches(BuiltinOp::Div, exprs_view(args@), r),
{
    proof {
        lemma_exprs_view_len(args@);
    }
    if args.len() < 2 {
        return Result::Err(EvalError::TypeError);
    }
    proof {
        lemma_exprs_view_index(args@, 0);
        lemma_exprs_view_index(args@, 1);
    }
    match (&*args[0], &*args[1]) {
        (Expr::Int(a), Expr::Int(b)) => {
            if big_is_zero(b) {
                Result::Err(EvalError::TypeError)
            } else {
                Result::Ok(Rc::new(Expr::Int(big_div(a, b))))
            }
        },
        _ => Result::Err(EvalError::TypeError),
    }
}

/// Compare two integer literals, yielding the boolean constructor value.
pub fn eq(args: Vec<Rc<Expr>>) -> (r: Result<Rc<Expr>, EvalError>)
    ensures
        op_result_matches(BuiltinOp::Eq, exprs_view(args@), r),
{
    proof {
        lemma_exprs_view_len(args@);
    }
    if args.len() < 2 {
        return Result::Err(EvalError::TypeError);
    }
    proof {
        lemma_exprs_view_index(args@, 0);
        lemma_exprs_view_index(args@, 1);
    }
    match (&*args[0], &*args[1]) {
        (Expr::Int(a), Expr::Int(b)) => {
            let tag = if big_eq(a, b) {
                "True".to_owned()
            } else {
                "False".to_owned()
            };
            let v = Rc::new(Expr::Data(0, "Bool".to_owned(), tag, Vec::new()));
            proof {
                assert(exprs_view(Seq::<Rc<Expr>>::empty()) =~= Seq::<ExprView>::empty());
            }
            Result::Ok(v)
        },
        _ => Result::Err(EvalError::TypeError),
    }
}

} // verus!
