//! A minimal sum type used to tag values that can take one of two shapes.

use vstd::prelude::*;

verus! {

#[derive(Debug, Copy, Clone)]
pub enum Either<A, B> {
    Left(A),
    Right(B),
}

/// Holds exactly when the value lies in the right branch.
pub fn is_right<A, B>(val: &Either<A, B>) -> (r: bool)
    ensures
        r == (val matches Either::Right(_)),
{
    match val {
        Either::Right(_) => true,
        _ => false,
    }
}

/// Holds exactly when the value lies in the left branch.
pub fn is_left<A, B>(val: &Either<A, B>) -> (r: bool)
    ensures
        r == (val matches Either::Left(_)),
{
    !is_right(val)
}

} // verus!
