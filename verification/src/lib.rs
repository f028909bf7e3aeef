//! Evaluation core of a small eager functional language: an expression tree,
//! a persistent environment of binding frames, a dependency rearranger that
//! splits recursive blocks into minimal `Let`/`LetRec` nestings, a static
//! pass that precomputes every variable's environment skip depth, and a
//! strict spine-based reducer with first-match pattern dispatch.

pub mod ast;
pub mod bignum;
pub mod builtins;
pub mod check;
pub mod either;
pub mod env;
pub mod eval;
pub mod info;
pub mod pretty;
pub mod rearrange;
pub mod render;
pub mod scan;
