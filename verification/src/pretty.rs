//! A small pretty-printing document algebra and its printer.
//!
//! A document is built from text pieces, concatenation, an indentation
//! marker and a newline; rendering walks the document left to right,
//! tracking the output column (in bytes) and the indentation to emit after
//! a newline.  Columns saturate at the machine limit instead of wrapping.

use vstd::prelude::*;
use vstd::string::StrSliceExecFns;
use vstd::string::StringExecFns;
use vstd::utf8::encode_utf8;

verus! {

/// One pretty-printing document.
#[derive(Debug)]
pub enum Pretty {
    /// The empty document.
    Nil,
    /// A piece of text.
    Str(String),
    /// One document followed by another.
    Append(Box<Pretty>, Box<Pretty>),
    /// A document whose newlines indent to the current column.
    Indent(Box<Pretty>),
    /// A line break followed by the current indentation.
    Newline,
}

/// Mathematical model of a document.
pub enum PrettyView {
    Nil,
    Str { text: Seq<char> },
    Append { left: Box<PrettyView>, right: Box<PrettyView> },
    Indent { doc: Box<PrettyView> },
    Newline,
}

/// The model of a document.
pub open spec fn pretty_view(p: Pretty) -> PrettyView
    decreases p,
{
    match p {
        Pretty::Nil => PrettyView::Nil,
        Pretty::Str(s) => PrettyView::Str { text: s@ },
        Pretty::Append(l, r) => PrettyView::Append {
            left: Box::new(pretty_view(*l)),
            right: Box::new(pretty_view(*r)),
        },
        Pretty::Indent(d) => PrettyView::Indent { doc: Box::new(pretty_view(*d)) },
        Pretty::Newline => PrettyView::Newline,
    }
}

impl View for Pretty {
    type V = PrettyView;

    open spec fn view(&self) -> PrettyView {
        pretty_view(*self)
    }
}

/// Addition that stops at the machine limit.
pub open spec fn sat_add(a: nat, b: nat) -> nat {
    if a + b > usize::MAX {
        usize::MAX as nat
    } else {
        a + b
    }
}

/// `n` spaces.
pub open spec fn spaces(n: nat) -> Seq<char>
    decreases n,
{
    if n == 0 {
        Seq::empty()
    } else {
        spaces((n - 1) as nat).push(' ')
    }
}

/// The byte length of a piece of text, as a machine word.
pub open spec fn byte_len(text: Seq<char>) -> nat {
    (encode_utf8(text).len() as usize) as nat
}

/// The text a document renders to from a given column and indentation,
/// and the column it leaves the output at.  Text advances the column by
/// its byte length; a newline emits the indentation and resets the column
/// to it; an indentation marker fixes the indentation of its document at
/// the current column.
pub open spec fn render_doc(p: PrettyView, col: nat, indent: nat) -> (Seq<char>, nat)
    decreases p,
{
    match p {
        PrettyView::Nil => (Seq::empty(), col),
        PrettyView::Str { text } => (text, sat_add(col, byte_len(text))),
        PrettyView::Newline => (seq!['\n'] + spaces(indent), indent),
        PrettyView::Append { left, right } => {
            let l = render_doc(*left, col, indent);
            let r = render_doc(*right, l.1, indent);
            (l.0 + r.0, r.1)
        },
        PrettyView::Indent { doc } => render_doc(*doc, col, col),
    }
}

impl Pretty {
    /// The empty document.
    pub fn nil() -> (r: Pretty)
        ensures
            r@ == PrettyView::Nil,
    {
        Pretty::Nil
    }

    /// One document followed by another.
    pub fn append(left: Pretty, right: Pretty) -> (r: Pretty)
        ensures
            r@ == (PrettyView::Append { left: Box::new(left@), right: Box::new(right@) }),
    {
        Pretty::Append(Box::new(left), Box::new(right))
    }

    /// All the documents in order, folded to the left onto the empty
    /// document.
    pub fn concat(vals: Vec<Pretty>) -> (r: Pretty)
        ensures
            r@ == Self::spec_concat(vals@.map_values(|p: Pretty| pretty_view(p))),
    {
        let ghost pv = vals@.map_values(|p: Pretty| pretty_view(p));
        let mut acc = Pretty::Nil;
        let n = vals.len();
        let mut i: usize = 0;
        let mut vals = vals;
        proof {
            assert(pv.take(0) =~= Seq::<PrettyView>::empty());
        }
        let mut iter: usize = 0;
        while iter < n
            invariant
                0 <= iter <= n,
                vals@.len() == n - iter,
                n == pv.len(),
                forall|m: int|
                    0 <= m < vals@.len() ==> pretty_view(#[trigger] vals@[m]) == pv[m + iter],
                acc@ == Self::spec_concat(pv.take(iter as int)),
            decreases n - iter,
        {
            let ghost vs0 = vals@;
            let x = vals.remove(0);
            let ghost xg = x;
            acc = Pretty::Append(Box::new(acc), Box::new(x));
            proof {
                assert(vals@ =~= vs0.drop_first());
                assert(pretty_view(xg) == pv[iter as int]);
                assert(forall|m: int|
                    0 <= m < vals@.len() ==> (#[trigger] vals@[m]) == vs0[m + 1]);
                assert(pv.take(iter + 1).drop_last() =~= pv.take(iter as int));
                assert(pv.take(iter + 1).last() == pv[iter as int]);
            }
            iter = iter + 1;
        }
        proof {
            assert(pv.take(n as int) =~= pv);
        }
        acc
    }

    /// The fold that `concat` builds.
    pub open spec fn spec_concat(vals: Seq<PrettyView>) -> PrettyView
        decreases vals.len(),
    {
        if vals.len() == 0 {
            PrettyView::Nil
        } else {
            PrettyView::Append {
                left: Box::new(Self::spec_concat(vals.drop_last())),
                right: Box::new(vals.last()),
            }
        }
    }

    /// The documents joined by a separator: the first document, then each
    /// following one preceded by a copy of the separator; no documents
    /// give the empty document.
    pub fn interleave(sep: Pretty, vals: Vec<Pretty>) -> (r: Pretty)
        ensures
            r@ == Self::spec_interleave(sep@, vals@.map_values(|p: Pretty| pretty_view(p))),
    {
        let ghost pv = vals@.map_values(|p: Pretty| pretty_view(p));
        if vals.len() == 0 {
            return Pretty::Nil;
        }
        let mut vals = vals;
        let ghost vs0 = vals@;
        let start = vals.remove(0);
        proof {
            assert(vals@ =~= vs0.drop_first());
            assert(pretty_view(start) == pv[0]);
            assert(forall|m: int| 0 <= m < vals@.len() ==> (#[trigger] vals@[m]) == vs0[m + 1]);
        }
        let r = Self::inter(start, sep, vals, Ghost(pv));
        proof {
            assert(pv.drop_first() =~= pv.drop_first());
        }
        r
    }

    /// The fold that `interleave` builds.
    pub open spec fn spec_interleave(sep: PrettyView, vals: Seq<PrettyView>) -> PrettyView {
        if vals.len() == 0 {
            PrettyView::Nil
        } else {
            Self::spec_inter(vals[0], sep, vals.drop_first())
        }
    }

    /// The fold that `inter` builds: each value appended after a copy of
    /// the separator.
    pub open spec fn spec_inter(
        start: PrettyView,
        sep: PrettyView,
        vals: Seq<PrettyView>,
    ) -> PrettyView
        decreases vals.len(),
    {
        if vals.len() == 0 {
            start
        } else {
            PrettyView::Append {
                left: Box::new(Self::spec_inter(start, sep, vals.drop_last())),
                right: Box::new(
                    PrettyView::Append {
                        left: Box::new(sep),
                        right: Box::new(vals.last()),
                    },
                ),
            }
        }
    }

    /// Fold the values onto `start`, separating neighbours with `sep`.
    fn inter(start: Pretty, sep: Pretty, vals: Vec<Pretty>, full: Ghost<Seq<PrettyView>>) -> (r:
        Pretty)
        requires
            full@.len() == vals@.len() + 1,
            full@[0] == pretty_view(start),
            forall|m: int|
                0 <= m < vals@.len() ==> pretty_view(#[trigger] vals@[m]) == full@[m + 1],
        ensures
            r@ == Self::spec_inter(full@[0], sep@, full@.drop_first()),
    {
        let ghost fv = full@;
        let ghost sv = sep@;
        let mut acc = start;
        let n = vals.len();
        let mut vals = vals;
        let mut i: usize = 0;
        proof {
            assert(fv.drop_first().take(0) =~= Seq::<PrettyView>::empty());
        }
        while i < n
            invariant
                0 <= i <= n,
                vals@.len() == n - i,
                fv.len() == n + 1,
                sv == sep@,
                forall|m: int|
                    0 <= m < vals@.len() ==> pretty_view(#[trigger] vals@[m]) == fv[m + 1 + i],
                acc@ == Self::spec_inter(fv[0], sv, fv.drop_first().take(i as int)),
            decreases n - i,
        {
            let ghost vs0 = vals@;
            let ghost acc0 = pretty_view(acc);
            let x = vals.remove(0);
            let ghost xg = x;
            let sep2 = clone_pretty(&sep);
            let ghost s2g = sep2;
            let inner = Pretty::Append(Box::new(sep2), Box::new(x));
            let ghost ig = inner;
            proof {
                assert(pretty_view(ig) == (PrettyView::Append {
                    left: Box::new(pretty_view(s2g)),
                    right: Box::new(pretty_view(xg)),
                }));
            }
            acc = Pretty::Append(Box::new(acc), Box::new(inner));
            proof {
                assert(vals@ =~= vs0.drop_first());
                assert(pretty_view(xg) == fv[1 + i]);
                assert(pretty_view(s2g) == sv);
                assert(forall|m: int|
                    0 <= m < vals@.len() ==> (#[trigger] vals@[m]) == vs0[m + 1]);
                assert(acc@ == (PrettyView::Append {
                    left: Box::new(acc0),
                    right: Box::new(
                        PrettyView::Append {
                            left: Box::new(sv),
                            right: Box::new(pretty_view(xg)),
                        },
                    ),
                }));
                let rest = fv.drop_first();
                assert(rest.take(i + 1).drop_last() =~= rest.take(i as int));
                assert(rest.take(i + 1).last() == rest[i as int]);
                assert(rest[i as int] == fv[i + 1]);
                assert(Self::spec_inter(fv[0], sv, rest.take(i + 1)) == (PrettyView::Append {
                    left: Box::new(Self::spec_inter(fv[0], sv, rest.take(i as int))),
                    right: Box::new(
                        PrettyView::Append {
                            left: Box::new(sv),
                            right: Box::new(rest.take(i + 1).last()),
                        },
                    ),
                }));
                assert(acc@ == Self::spec_inter(fv[0], sv, rest.take(i + 1)));
            }
            i = i + 1;
        }
        proof {
            assert(fv.drop_first().take(n as int) =~= fv.drop_first());
        }
        acc
    }

    /// A text document.
    pub fn str(s: &str) -> (r: Pretty)
        ensures
            r@ == (PrettyView::Str { text: s@ }),
    {
        Pretty::Str(String::from_str(s))
    }

    /// Indentation control; the plain printer renders a document as it
    /// stands, so this returns its argument unchanged.
    pub fn indent(seq2: Pretty) -> (r: Pretty)
        ensures
            r == seq2,
    {
        seq2
    }

    /// A literal line break (with no indentation of its own).
    pub fn newline() -> (r: Pretty)
        ensures
            r@ == (PrettyView::Str { text: "\n"@ }),
    {
        Pretty::str("\n")
    }

    /// The text this document renders to from column zero.
    pub fn display(&self) -> (r: String)
        ensures
            r@ == render_doc(self@, 0, 0).0,
    {
        let out = render_exec(self, 0, 0);
        out.0
    }
}

/// A structurally equal copy of a document.
fn clone_pretty(p: &Pretty) -> (r: Pretty)
    ensures
        r@ == p@,
    decreases *p,
{
    match p {
        Pretty::Nil => Pretty::Nil,
        Pretty::Str(s) => Pretty::Str(s.clone()),
        Pretty::Append(l, r) => Pretty::Append(
            Box::new(clone_pretty(l)),
            Box::new(clone_pretty(r)),
        ),
        Pretty::Indent(d) => Pretty::Indent(Box::new(clone_pretty(d))),
        Pretty::Newline => Pretty::Newline,
    }
}

/// `n` spaces, as text.
fn spaces_exec(n: usize) -> (r: String)
    ensures
        r@ == spaces(n as nat),
{
    let mut out = String::new();
    let mut i: usize = 0;
    while i < n
        invariant
            0 <= i <= n,
            out@ == spaces(i as nat),
        decreases n - i,
    {
        out.append(" ");
        proof {
            assert(" "@ =~= seq![' ']) by {
                reveal_strlit(" ");
            }
            assert(spaces((i + 1) as nat).drop_last() =~= spaces(i as nat));
            assert(out@ =~= spaces((i + 1) as nat));
        }
        i = i + 1;
    }
    out
}

/// Render a document from the given column and indentation.
fn render_exec(p: &Pretty, col: usize, indent: usize) -> (r: (String, usize))
    ensures
        r.0@ == render_doc(p@, col as nat, indent as nat).0,
        r.1 == render_doc(p@, col as nat, indent as nat).1,
    decreases *p,
{
    let ghost pvv = p@;
    match p {
        Pretty::Nil => {
            proof {
                assert(render_doc(pvv, col as nat, indent as nat).1 == col as nat);
            }
            (String::new(), col)
        },
        Pretty::Str(s) => {
            let blen = s.as_str().len();
            let newcol = if col > usize::MAX - blen {
                usize::MAX
            } else {
                col + blen
            };
            proof {
                assert(blen as nat == byte_len(s@));
                assert(newcol as nat == sat_add(col as nat, byte_len(s@)));
            }
            (s.clone(), newcol)
        },
        Pretty::Newline => {
            let mut out = String::from_str("\n");
            let sp = spaces_exec(indent);
            out.append(sp.as_str());
            proof {
                assert("\n"@ =~= seq!['\n']) by {
                    reveal_strlit("\n");
                }
                assert(out@ =~= seq!['\n'] + spaces(indent as nat));
            }
            (out, indent)
        },
        Pretty::Append(l, r) => {
            let lres = render_exec(l, col, indent);
            let rres = render_exec(r, lres.1, indent);
            let mut out = lres.0;
            out.append(rres.0.as_str());
            (out, rres.1)
        },
        Pretty::Indent(d) => render_exec(d, col, col),
    }
}

/// One unit of printer work: a document piece and the indentation its
/// newlines take.
#[derive(Debug)]
pub struct PrinterStep {
    pub indent: usize,
    pub step: Pretty,
}

/// The model of one printer step.
pub open spec fn step_view(s: PrinterStep) -> (nat, PrettyView) {
    (s.indent as nat, pretty_view(s.step))
}

impl PrinterStep {
    /// The text this step prints: a text piece prints itself, a line break
    /// prints itself and its indentation, and the structural pieces print
    /// nothing.
    pub fn render(&self) -> (r: String)
        ensures
            r@ == match step_view(*self).1 {
                PrettyView::Str { text } => text,
                PrettyView::Newline => seq!['\n'] + spaces(step_view(*self).0),
                _ => Seq::<char>::empty(),
            },
    {
        match &self.step {
            Pretty::Str(s) => s.clone(),
            Pretty::Newline => {
                let mut out = String::from_str("\n");
                let sp = spaces_exec(self.indent);
                out.append(sp.as_str());
                proof {
                    assert("\n"@ =~= seq!['\n']) by {
                        reveal_strlit("\n");
                    }
                    assert(out@ =~= seq!['\n'] + spaces(self.indent as nat));
                }
                out
            },
            _ => String::new(),
        }
    }
}

/// An incremental printer: a queue of pending steps and the current
/// output column.
#[derive(Debug)]
pub struct Printer {
    pub column: usize,
    pub steps: std::collections::VecDeque<PrinterStep>,
}

/// The model of a printer: its column and its pending steps, front first.
pub open spec fn printer_view(p: Printer) -> (nat, Seq<(nat, PrettyView)>) {
    (p.column as nat, p.steps@.map_values(|s: PrinterStep| step_view(s)))
}

/// One transition of the printer: what it hands out next, and the column
/// and queue it leaves behind.
pub open spec fn printer_next(column: nat, steps: Seq<(nat, PrettyView)>) -> (
    Option<(nat, PrettyView)>,
    nat,
    Seq<(nat, PrettyView)>,
) {
    if steps.len() == 0 {
        (Option::None, column, steps)
    } else {
        let v = steps[0];
        let rest = steps.drop_first();
        match v.1 {
            PrettyView::Nil => (Option::None, column, rest),
            PrettyView::Str { text } => (
                Option::Some(v),
                sat_add(column, byte_len(text)),
                rest,
            ),
            PrettyView::Append { left, right } => (
                Option::Some((v.0, *left)),
                column,
                seq![(v.0, *right)] + rest,
            ),
            PrettyView::Indent { doc } => (Option::Some((column, *doc)), column, rest),
            PrettyView::Newline => (Option::Some(v), column, rest),
        }
    }
}

impl Printer {
    /// The printer over a whole document, starting at column zero.
    pub fn new(doc: Pretty) -> (r: Printer)
        ensures
            printer_view(r).0 == 0,
            printer_view(r).1 =~= seq![(0nat, pretty_view(doc))],
    {
        let first = PrinterStep { indent: 0, step: doc };
        let mut steps: std::collections::VecDeque<PrinterStep> =
            std::collections::VecDeque::new();
        steps.push_back(first);
        Printer { column: 0, steps }
    }

    /// Hand out the next printable step, unfolding concatenations onto the
    /// queue, fixing indentation markers at the current column, and
    /// advancing the column past text; an empty queue or an empty document
    /// ends the run.
    pub fn next(&mut self) -> (r: Option<PrinterStep>)
        ensures
            ({
                let t = printer_next(printer_view(*old(self)).0, printer_view(*old(self)).1);
                &&& (match r {
                    Option::Some(st) => Option::Some(step_view(st)),
                    Option::None => Option::None,
                }) == t.0
                &&& printer_view(*final(self)).0 == t.1
                &&& printer_view(*final(self)).1 == t.2
            }),
    {
        let ghost sv0 = printer_view(*self).1;
        let nextstep = self.steps.pop_front();
        proof {
            if sv0.len() > 0 {
                assert(printer_view(*self).1 =~= sv0.drop_first());
            }
        }
        match nextstep {
            Option::None => {
                proof {
                    assert(sv0.len() == 0);
                }
                Option::None
            },
            Option::Some(v) => {
                proof {
                    assert(sv0[0] == step_view(v));
                }
                match v.step {
                    Pretty::Nil => Option::None,
                    Pretty::Str(s) => {
                        let blen = s.as_str().len();
                        self.column = if self.column > usize::MAX - blen {
                            usize::MAX
                        } else {
                            self.column + blen
                        };
                        Option::Some(PrinterStep { indent: v.indent, step: Pretty::Str(s) })
                    },
                    Pretty::Append(left, right) => {
                        let ghost svmid = printer_view(*self).1;
                        let right_new = PrinterStep { indent: v.indent, step: *right };
                        let left_new = PrinterStep { indent: v.indent, step: *left };
                        self.steps.push_front(right_new);
                        proof {
                            assert(printer_view(*self).1 =~= seq![
                                (v.indent as nat, *pretty_view(v.step)->Append_right),
                            ] + svmid);
                        }
                        Option::Some(left_new)
                    },
                    Pretty::Indent(step2) => {
                        let step_new = PrinterStep { indent: self.column, step: *step2 };
                        Option::Some(step_new)
                    },
                    Pretty::Newline => {
                        Option::Some(PrinterStep { indent: v.indent, step: Pretty::Newline })
                    },
                }
            },
        }
    }
}

} // verus!
