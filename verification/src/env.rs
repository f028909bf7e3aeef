//! The environment: a persistent chain of binding frames.
//!
//! Each frame maps names to unevaluated definitions and links to the
//! enclosing frame.  Lookup searches the chain from the innermost frame
//! outward, so the first binding found wins (shadowing); `drop` discards
//! innermost frames to realise a variable's precomputed skip depth.

use crate::ast::{expr_view, Expr, ExprView};
use std::rc::Rc;
use vstd::prelude::*;

verus! {

/// One binding frame and the chain above it.
#[derive(Debug)]
pub enum Env {
    /// The empty environment.
    Empty,
    /// The innermost frame's bindings and the next environment out.
    Context(Vec<(String, Rc<Expr>)>, Rc<Env>),
}

/// The model of one frame: its bindings in search order.
pub type FrameView = Seq<(Seq<char>, ExprView)>;

/// The model of one frame.
pub open spec fn frame_view(f: Seq<(String, Rc<Expr>)>) -> FrameView {
    f.map_values(|p: (String, Rc<Expr>)| (p.0@, expr_view(*p.1)))
}

/// The model of an environment: frames from innermost (index 0) outward.
pub open spec fn env_view(e: Env) -> Seq<FrameView>
    decreases e,
{
    match e {
        Env::Empty => Seq::empty(),
        Env::Context(f, next) => seq![frame_view(f@)] + env_view(*next),
    }
}

impl View for Env {
    type V = Seq<FrameView>;

    open spec fn view(&self) -> Seq<FrameView> {
        env_view(*self)
    }
}

/// The first binding of `name` within one frame.
pub open spec fn frame_lookup(f: FrameView, name: Seq<char>) -> Option<ExprView>
    decreases f.len(),
{
    if f.len() == 0 {
        None
    } else if f[0].0 == name {
        Some(f[0].1)
    } else {
        frame_lookup(f.drop_first(), name)
    }
}

/// The first binding of `name` in the innermost frame that holds one.
pub open spec fn env_lookup(env: Seq<FrameView>, name: Seq<char>) -> Option<ExprView>
    decreases env.len(),
{
    if env.len() == 0 {
        None
    } else {
        match frame_lookup(env[0], name) {
            Option::Some(d) => Option::Some(d),
            Option::None => env_lookup(env.drop_first(), name),
        }
    }
}

/// The environment left after discarding the `n` innermost frames;
/// discarding more frames than exist leaves the empty environment.
pub open spec fn env_drop(env: Seq<FrameView>, n: nat) -> Seq<FrameView> {
    if n <= env.len() {
        env.skip(n as int)
    } else {
        Seq::empty()
    }
}

/// Lookup after discarding the `n` innermost frames.
pub open spec fn env_lookup_in(env: Seq<FrameView>, name: Seq<char>, n: nat) -> Option<ExprView> {
    env_lookup(env_drop(env, n), name)
}

/// Bindings that precede a miss do not affect a frame's lookup result.
proof fn lemma_frame_lookup_skip(f: FrameView, name: Seq<char>, i: int)
    requires
        0 <= i <= f.len(),
        forall|j: int| 0 <= j < i ==> f[j].0 != name,
    ensures
        frame_lookup(f, name) == frame_lookup(f.skip(i), name),
    decreases i,
{
    if i > 0 {
        lemma_frame_lookup_skip(f.drop_first(), name, i - 1);
        assert(f.drop_first().skip(i - 1) =~= f.skip(i));
    } else {
        assert(f.skip(0) =~= f);
    }
}

/// Scan one frame's bindings in order for the first binding of `s`.
fn frame_find<'a>(defs: &'a Vec<(String, Rc<Expr>)>, s: &String) -> (r: Option<&'a Rc<Expr>>)
    ensures
        match r {
            Option::Some(e) => frame_lookup(frame_view(defs@), s@) == Option::Some(
                expr_view(**e),
            ),
            Option::None => frame_lookup(frame_view(defs@), s@) is None,
        },
{
    let ghost fv = frame_view(defs@);
    let n = defs.len();
    let mut i: usize = 0;
    while i < n
        invariant
            n == defs.len(),
            fv == frame_view(defs@),
            0 <= i <= n,
            forall|j: int| 0 <= j < i ==> fv[j].0 != s@,
        decreases n - i,
    {
        proof {
            assert(fv[i as int] == (defs@[i as int].0@, expr_view(*defs@[i as int].1)));
        }
        if defs[i].0 == *s {
            proof {
                lemma_frame_lookup_skip(fv, s@, i as int);
                assert(fv.skip(i as int)[0] == fv[i as int]);
            }
            return Option::Some(&defs[i].1);
        }
        i = i + 1;
    }
    proof {
        lemma_frame_lookup_skip(fv, s@, n as int);
        assert(fv.skip(n as int).len() == 0);
    }
    Option::None
}

impl Env {
    /// The empty environment.
    pub fn new() -> (r: Env)
        ensures
            env_view(r) == Seq::<FrameView>::empty(),
    {
        Env::Empty
    }

    /// Search the chain from the innermost frame outward and return the
    /// first binding of `s`, or nothing when every frame misses.
    pub fn lookup(&self, s: &String) -> (r: Option<&Rc<Expr>>)
        ensures
            match r {
                Option::Some(e) => env_lookup(env_view(*self), s@) == Option::Some(
                    expr_view(**e),
                ),
                Option::None => env_lookup(env_view(*self), s@) is None,
            },
        decreases *self,
    {
        match self {
            Env::Empty => Option::None,
            Env::Context(defs, next) => {
                let ghost fv = frame_view(defs@);
                proof {
                    assert(env_view(*self) == seq![fv] + env_view(**next));
                    assert(env_view(*self)[0] == fv);
                }
                match frame_find(defs, s) {
                    Option::Some(e) => Option::Some(e),
                    Option::None => {
                        proof {
                            assert(env_view(*self).drop_first() =~= env_view(**next));
                        }
                        next.lookup(s)
                    },
                }
            },
        }
    }

    /// Search only the innermost frame.
    pub fn lookup_top(&self, s: &String) -> (r: Option<&Rc<Expr>>)
        ensures
            env_view(*self).len() == 0 ==> r is None,
            env_view(*self).len() > 0 ==> match r {
                Option::Some(e) => frame_lookup(env_view(*self)[0], s@) == Option::Some(
                    expr_view(**e),
                ),
                Option::None => frame_lookup(env_view(*self)[0], s@) is None,
            },
    {
        match self {
            Env::Empty => Option::None,
            Env::Context(defs, next) => {
                proof {
                    assert(env_view(*self) == seq![frame_view(defs@)] + env_view(**next));
                    assert(env_view(*self)[0] == frame_view(defs@));
                }
                frame_find(defs, s)
            },
        }
    }

    /// The number of frames from the current point to the root.
    pub fn depth(&self) -> (r: usize)
        requires
            env_view(*self).len() <= usize::MAX,
        ensures
            r == env_view(*self).len(),
        decreases *self,
    {
        match self {
            Env::Empty => 0,
            Env::Context(_, next) => 1 + next.depth(),
        }
    }

    /// Discard the `n` innermost frames; running past the root stops at
    /// the empty environment.
    pub fn drop(&self, n: usize) -> (r: &Env)
        ensures
            env_view(*r) == env_drop(env_view(*self), n as nat),
        decreases *self,
    {
        if n == 0 {
            self
        } else {
            match self {
                Env::Empty => self,
                Env::Context(_, next) => {
                    proof {
                        assert(env_view(*self).drop_first() =~= env_view(**next));
                        if n <= env_view(*self).len() {
                            assert(env_view(*self).skip(n as int) =~= env_view(**next).skip(
                                n - 1,
                            ));
                        }
                    }
                    Env::drop(next, n - 1)
                },
            }
        }
    }

    /// The sub-environment that keeps only the `i` outermost frames.
    pub fn sub_env(&self, i: usize) -> (r: &Env)
        requires
            env_view(*self).len() <= usize::MAX,
            i <= env_view(*self).len(),
        ensures
            env_view(*r) == env_view(*self).skip(env_view(*self).len() - i),
    {
        Env::drop(self, self.depth() - i)
    }

    /// Look `s` up in the sub-environment of the `i` outermost frames.
    pub fn lookup_at(&self, s: &String, i: usize) -> (r: Option<&Rc<Expr>>)
        requires
            env_view(*self).len() <= usize::MAX,
            i <= env_view(*self).len(),
        ensures
            match r {
                Option::Some(e) => env_lookup(
                    env_view(*self).skip(env_view(*self).len() - i),
                    s@,
                ) == Option::Some(expr_view(**e)),
                Option::None => env_lookup(
                    env_view(*self).skip(env_view(*self).len() - i),
                    s@,
                ) is None,
            },
    {
        self.sub_env(i).lookup(s)
    }

    /// Discard the `i` innermost frames, then look `s` up.
    pub fn lookup_in(&self, s: &String, i: usize) -> (r: Option<&Rc<Expr>>)
        ensures
            match r {
                Option::Some(e) => env_lookup_in(env_view(*self), s@, i as nat) == Option::Some(
                    expr_view(**e),
                ),
                Option::None => env_lookup_in(env_view(*self), s@, i as nat) is None,
            },
    {
        Env::drop(self, i).lookup(s)
    }
}

} // verus!
