//! Type and data-constructor metadata: the shapes that data-type
//! declarations compile to, and their packaging into constructor nodes and
//! top-level definitions.

use crate::ast::{exprs_view, lemma_exprs_view_index, lemma_exprs_view_len, Definition, Expr,
    ExprView};
use std::rc::Rc;
use vstd::prelude::*;
use vstd::string::StrSliceExecFns;

verus! {

/// Whether a character has the Unicode uppercase property.
pub uninterp spec fn is_upper_char(c: char) -> bool;

/// Relies on `char::is_uppercase`: the result depends on the character
/// alone.
#[verifier::external_body]
fn char_is_uppercase(c: char) -> (r: bool)
    ensures
        r == is_upper_char(c),
{
    c.is_uppercase()
}

/// A type expression: a constructor, an application, or a variable.
#[derive(Debug)]
pub enum TypeInfo {
    /// A type constructor, named with an initial uppercase letter.
    TConstructor(String),
    /// A type application.
    TApp(Box<TypeInfo>, Box<TypeInfo>),
    /// A type variable, named with an initial lowercase letter.
    TVar(String),
}

/// Mathematical model of a type expression.
pub enum TypeInfoView {
    TConstructor { name: Seq<char> },
    TApp { left: Box<TypeInfoView>, right: Box<TypeInfoView> },
    TVar { name: Seq<char> },
}

/// The model of a type expression.
pub open spec fn type_info_view(t: TypeInfo) -> TypeInfoView
    decreases t,
{
    match t {
        TypeInfo::TConstructor(s) => TypeInfoView::TConstructor { name: s@ },
        TypeInfo::TApp(l, r) => TypeInfoView::TApp {
            left: Box::new(type_info_view(*l)),
            right: Box::new(type_info_view(*r)),
        },
        TypeInfo::TVar(s) => TypeInfoView::TVar { name: s@ },
    }
}

impl View for TypeInfo {
    type V = TypeInfoView;

    open spec fn view(&self) -> TypeInfoView {
        type_info_view(*self)
    }
}

/// The type expression a list of words denotes: one capitalised word is a
/// constructor, one lowercase word a variable, several words a
/// left-nested application.
pub open spec fn spec_type_info(input: Seq<Seq<char>>) -> TypeInfoView
    recommends
        input.len() > 0,
        forall|i: int| 0 <= i < input.len() ==> (#[trigger] input[i]).len() > 0,
    decreases input.len(),
{
    if input.len() <= 1 {
        if is_upper_char(input[0][0]) {
            TypeInfoView::TConstructor { name: input[0] }
        } else {
            TypeInfoView::TVar { name: input[0] }
        }
    } else {
        TypeInfoView::TApp {
            left: Box::new(spec_type_info(input.drop_last())),
            right: Box::new(spec_type_info(seq![input.last()])),
        }
    }
}

/// The head constructor's name of a type expression, where one exists.
pub open spec fn spec_get_name(t: TypeInfoView) -> Option<Seq<char>>
    decreases t,
{
    match t {
        TypeInfoView::TConstructor { name } => Option::Some(name),
        TypeInfoView::TApp { left, .. } => spec_get_name(*left),
        TypeInfoView::TVar { .. } => Option::None,
    }
}

impl TypeInfo {
    /// Build the type expression a list of words denotes.
    fn new_range(input: &Vec<String>, from: usize, to: usize) -> (r: TypeInfo)
        requires
            0 <= from < to <= input@.len(),
            forall|i: int| 0 <= i < input@.len() ==> (#[trigger] input@[i])@.len() > 0,
        ensures
            r@ == spec_type_info(input@.subrange(from as int, to as int).map_values(
                |s: String| s@,
            )),
        decreases to - from,
    {
        let ghost words = input@.subrange(from as int, to as int).map_values(|s: String| s@);
        if to - from == 1 {
            let item = &input[from];
            proof {
                assert(words[0] == input@[from as int]@);
            }
            let c = item.as_str().get_char(0);
            if char_is_uppercase(c) {
                TypeInfo::TConstructor(item.clone())
            } else {
                TypeInfo::TVar(item.clone())
            }
        } else {
            let right = TypeInfo::new_range(input, to - 1, to);
            let left = TypeInfo::new_range(input, from, to - 1);
            proof {
                assert(words.drop_last() =~= input@.subrange(from as int, to - 1).map_values(
                    |s: String| s@,
                ));
                assert(input@.subrange(to - 1, to as int).map_values(|s: String| s@) =~= seq![
                    words.last(),
                ]);
            }
            TypeInfo::TApp(Box::new(left), Box::new(right))
        }
    }

    /// The head constructor's name; a bare type variable has none.
    pub fn get_name(&self) -> (r: Option<String>)
        ensures
            match r {
                Option::Some(s) => spec_get_name(self@) == Option::Some(s@),
                Option::None => spec_get_name(self@) is None,
            },
        decreases *self,
    {
        match self {
            TypeInfo::TConstructor(s) => Option::Some(s.clone()),
            TypeInfo::TApp(left, _) => left.get_name(),
            TypeInfo::TVar(_) => Option::None,
        }
    }
}

/// One product: a data constructor's name and argument types.
#[derive(Debug)]
pub struct ProdInfo {
    pub name: String,
    pub args: Vec<TypeInfo>,
}

impl ProdInfo {
    /// Package a constructor's name and argument types.
    pub fn new(name: String, args: Vec<TypeInfo>) -> (r: ProdInfo)
        ensures
            r.name == name,
            r.args == args,
    {
        ProdInfo { name, args }
    }
}

/// One sum: the alternative products of a data type.
#[derive(Debug)]
pub struct SumInfo {
    pub alts: Vec<ProdInfo>,
}

impl SumInfo {
    /// Package the alternatives of a data type.
    pub fn new(alts: Vec<ProdInfo>) -> (r: SumInfo)
        ensures
            r.alts == alts,
    {
        SumInfo { alts }
    }
}

/// The full declaration of one data type.
#[derive(Debug)]
pub struct DataInfo {
    pub type_info: TypeInfo,
    pub data_info: SumInfo,
}

impl DataInfo {
    /// Package a type declaration and its alternatives.
    pub fn new(type_info: TypeInfo, d_info: Vec<ProdInfo>) -> (r: DataInfo)
        ensures
            r.type_info == type_info,
            r.data_info.alts == d_info,
    {
        DataInfo { type_info, data_info: SumInfo::new(d_info) }
    }

    /// One empty constructor node per alternative, carrying its arity, the
    /// type's name and its own tag.
    pub fn to_data(&self) -> (r: Vec<Rc<Expr>>)
        requires
            spec_get_name(self.type_info@) is Some,
        ensures
            exprs_view(r@).len() == self.data_info.alts@.len(),
            forall|i: int|
                0 <= i < self.data_info.alts@.len() ==> exprs_view(r@)[i] == (ExprView::Data {
                    arity: (#[trigger] self.data_info.alts@[i]).args@.len(),
                    ty_name: spec_get_name(self.type_info@)->0,
                    tag: self.data_info.alts@[i].name@,
                    fields: Seq::empty(),
                }),
    {
        let mut exprs: Vec<Rc<Expr>> = Vec::new();
        let tyname = match self.type_info.get_name() {
            Option::Some(s) => s,
            Option::None => {
                proof {
                    assert(false);
                }
                String::new()
            },
        };
        let n = self.data_info.alts.len();
        let mut i: usize = 0;
        while i < n
            invariant
                n == self.data_info.alts@.len(),
                0 <= i <= n,
                tyname@ == spec_get_name(self.type_info@)->0,
                exprs@.len() == i,
                forall|j: int|
                    0 <= j < i ==> #[trigger] exprs_view(exprs@)[j] == (ExprView::Data {
                        arity: self.data_info.alts@[j].args@.len(),
                        ty_name: spec_get_name(self.type_info@)->0,
                        tag: self.data_info.alts@[j].name@,
                        fields: Seq::empty(),
                    }),
            decreases n - i,
        {
            let item = &self.data_info.alts[i];
            let ghost e0 = exprs@;
            let d = Rc::new(
                Expr::Data(item.args.len(), tyname.clone(), item.name.clone(), Vec::new()),
            );
            let ghost dg = d;
            exprs.push(d);
            proof {
                crate::ast::lemma_exprs_view_push(e0, dg);
                assert(exprs_view(Seq::<Rc<Expr>>::empty()) =~= Seq::<ExprView>::empty());
                assert forall|j: int|
                    0 <= j < i + 1 implies #[trigger] exprs_view(exprs@)[j] == (ExprView::Data {
                    arity: self.data_info.alts@[j].args@.len(),
                    ty_name: spec_get_name(self.type_info@)->0,
                    tag: self.data_info.alts@[j].name@,
                    fields: Seq::empty(),
                }) by {
                    lemma_exprs_view_index(exprs@, j);
                    if j < i {
                        lemma_exprs_view_index(e0, j);
                    }
                }
            }
            i = i + 1;
        }
        proof {
            lemma_exprs_view_len(exprs@);
        }
        exprs
    }

    /// One top-level definition per alternative, binding the constructor's
    /// name to its empty constructor node.
    pub fn to_definitions(&self) -> (r: Vec<Definition>)
        requires
            spec_get_name(self.type_info@) is Some,
        ensures
            r@.len() == self.data_info.alts@.len(),
            forall|i: int|
                0 <= i < r@.len() ==> (#[trigger] r@[i]).assign@ == self.data_info.alts@[i].name@
                    && r@[i].def@ == (ExprView::Data {
                    arity: self.data_info.alts@[i].args@.len(),
                    ty_name: spec_get_name(self.type_info@)->0,
                    tag: self.data_info.alts@[i].name@,
                    fields: Seq::empty(),
                }),
    {
        let mut defs: Vec<Definition> = Vec::new();
        let tyname = match self.type_info.get_name() {
            Option::Some(s) => s,
            Option::None => {
                proof {
                    assert(false);
                }
                String::new()
            },
        };
        let n = self.data_info.alts.len();
        let mut i: usize = 0;
        while i < n
            invariant
                n == self.data_info.alts@.len(),
                0 <= i <= n,
                tyname@ == spec_get_name(self.type_info@)->0,
                defs@.len() == i,
                forall|j: int|
                    0 <= j < i ==> (#[trigger] defs@[j]).assign@ == self.data_info.alts@[j].name@
                        && defs@[j].def@ == (ExprView::Data {
                        arity: self.data_info.alts@[j].args@.len(),
                        ty_name: spec_get_name(self.type_info@)->0,
                        tag: self.data_info.alts@[j].name@,
                        fields: Seq::empty(),
                    }),
            decreases n - i,
        {
            let item = &self.data_info.alts[i];
            let def = Definition::new(
                item.name.clone(),
                Rc::new(
                    Expr::Data(
                        item.args.len(),
                        tyname.clone(),
                        item.name.clone(),
                        Vec::new(),
                    ),
                ),
            );
            defs.push(def);
            proof {
                assert(exprs_view(Seq::<Rc<Expr>>::empty()) =~= Seq::<ExprView>::empty());
            }
            i = i + 1;
        }
        defs
    }
}

/// Build the metadata of one data declaration from its collected words:
/// the type's words on the left, each alternative's words on the right
/// (its constructor's name first, then each argument type's words).
#[verifier::loop_isolation(false)]
pub fn create_data_info(lhs: Vec<String>, rhs: Vec<Vec<Vec<String>>>) -> (r: DataInfo)
    requires
        lhs@.len() > 0,
        forall|i: int| 0 <= i < lhs@.len() ==> (#[trigger] lhs@[i])@.len() > 0,
        forall|a: int|
            0 <= a < rhs@.len() ==> (#[trigger] rhs@[a])@.len() > 0 && rhs@[a]@[0]@.len() > 0
                && rhs@[a]@[0]@[0]@.len() > 0,
        forall|a: int, t: int|
            0 <= a < rhs@.len() && 1 <= t < rhs@[a]@.len() ==> (#[trigger] rhs@[a]@[t])@.len() > 0
                && forall|w: int|
                0 <= w < rhs@[a]@[t]@.len() ==> (#[trigger] rhs@[a]@[t]@[w])@.len() > 0,
    ensures
        r.type_info@ == spec_type_info(lhs@.map_values(|s: String| s@)),
        r.data_info.alts@.len() == rhs@.len(),
        forall|a: int|
            0 <= a < rhs@.len() ==> (#[trigger] r.data_info.alts@[a]).name@ == rhs@[a]@[0]@[0]@
                && r.data_info.alts@[a].args@.len() == rhs@[a]@.len() - 1,
        forall|a: int, t: int|
            0 <= a < rhs@.len() && 1 <= t < rhs@[a]@.len()
                ==> (#[trigger] r.data_info.alts@[a].args@[t - 1])@ == spec_type_info(
                (#[trigger] rhs@[a]@[t])@.map_values(|w: String| w@),
            ),
{
    let ghost lv = lhs@.map_values(|s: String| s@);
    proof {
        assert(lhs@.subrange(0, lhs@.len() as int) =~= lhs@);
        assert(lhs@.subrange(0, lhs@.len() as int).map_values(|s: String| s@) =~= lv);
    }
    let type_info = TypeInfo::new_range(&lhs, 0, lhs.len());
    let mut data_info: Vec<ProdInfo> = Vec::new();
    let an = rhs.len();
    let mut a: usize = 0;
    while a < an
        invariant
            an == rhs@.len(),
            0 <= a <= an,
            data_info@.len() == a,
            forall|b: int|
                0 <= b < a ==> (#[trigger] data_info@[b]).name@ == rhs@[b]@[0]@[0]@
                    && data_info@[b].args@.len() == rhs@[b]@.len() - 1,
            forall|b: int, t: int|
                0 <= b < a && 1 <= t < rhs@[b]@.len() ==> (#[trigger] data_info@[b].args@[t
                    - 1])@ == spec_type_info((#[trigger] rhs@[b]@[t])@.map_values(|w: String| w@)),
        decreases an - a,
    {
        let item = &rhs[a];
        proof {
            assert((rhs@[a as int])@.len() > 0);
        }
        let mut type_data: Vec<TypeInfo> = Vec::new();
        let tn = item.len();
        let mut t: usize = 1;
        while t < tn
            invariant
                tn == item@.len(),
                1 <= t <= tn,
                type_data@.len() == t - 1,
                forall|t2: int|
                    1 <= t2 < t ==> (#[trigger] type_data@[t2 - 1])@ == spec_type_info(
                        item@[t2]@.map_values(|w2: String| w2@),
                    ),
            decreases tn - t,
        {
            proof {
                assert((rhs@[a as int])@[t as int] == item@[t as int]);
                assert((rhs@[a as int]@[t as int])@.len() > 0);
                assert(forall|w: int|
                    0 <= w < item@[t as int]@.len() ==> (#[trigger] item@[t as int]@[w])@.len()
                        > 0);
            }
            let words = &item[t];
            let w = TypeInfo::new_range(words, 0, words.len());
            let ghost wg = w;
            let ghost td0 = type_data@;
            proof {
                assert(words@.subrange(0, words@.len() as int) =~= words@);
                assert(words@.subrange(0, words@.len() as int).map_values(|s2: String| s2@)
                    =~= words@.map_values(|s2: String| s2@));
            }
            type_data.push(w);
            proof {
                assert(type_data@[t - 1] == wg);
                assert(forall|t2: int|
                    1 <= t2 < t ==> (#[trigger] type_data@[t2 - 1]) == td0[t2 - 1]);
            }
            t = t + 1;
        }
        proof {
            assert((rhs@[a as int])@[0] == item@[0]);
            assert forall|t2: int| 1 <= t2 < rhs@[a as int]@.len() implies (#[trigger] type_data@[
                t2 - 1
            ])@ == spec_type_info((rhs@[a as int]@[t2])@.map_values(|w: String| w@)) by {
                assert(item@[t2] == rhs@[a as int]@[t2]);
                assert((type_data@[t2 - 1])@ == spec_type_info(
                    item@[t2]@.map_values(|w: String| w@),
                ));
            }
        }
        let ghost td = type_data@;
        let ghost di0 = data_info@;
        data_info.push(ProdInfo::new(item[0][0].clone(), type_data));
        proof {
            assert(forall|b: int| 0 <= b < a ==> (#[trigger] data_info@[b]) == di0[b]);
            assert(data_info@[a as int].args@ == td);
            assert forall|t: int| 1 <= t < rhs@[a as int]@.len() implies (#[trigger] data_info@[
                a as int
            ].args@[t - 1])@ == spec_type_info(
                (rhs@[a as int]@[t])@.map_values(|w: String| w@),
            ) by {
                assert(data_info@[a as int].args@[t - 1] == td[t - 1]);
            }
        }
        a = a + 1;
    }
    DataInfo::new(type_info, data_info)
}

} // verus!
