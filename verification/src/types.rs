//! The language of types: the types themselves, and schemes that quantify a
//! type over a set of binders.

use crate::store::{binders, binders_from, clone_binders, no_binders, union_binders};
use crate::text;
use im_rc::HashSet;
use vstd::prelude::*;

verus! {

/// The name of a type variable.
pub type Binder = String;

/// A type.
#[derive(Debug, PartialEq)]
pub enum Type {
    Unit,
    Int,
    Var(Binder),
    Func(Box<Type>, Box<Type>),
}

/// A type as a mathematical value.
pub enum TypeView {
    Unit,
    Int,
    Var(Seq<char>),
    Func(Box<TypeView>, Box<TypeView>),
}

/// The mathematical value of a type.
pub open spec fn type_view(t: Type) -> TypeView
    decreases t,
{
    match t {
        Type::Unit => TypeView::Unit,
        Type::Int => TypeView::Int,
        Type::Var(binder) => TypeView::Var(binder@),
        Type::Func(arg, res) => TypeView::Func(
            Box::new(type_view(*arg)),
            Box::new(type_view(*res)),
        ),
    }
}

impl View for Type {
    type V = TypeView;

    open spec fn view(&self) -> TypeView {
        type_view(*self)
    }
}

impl Clone for Type {
    fn clone(&self) -> (copy: Self)
        ensures
            copy@ == self@,
        decreases self,
    {
        match self {
            Type::Unit => Type::Unit,
            Type::Int => Type::Int,
            Type::Var(binder) => Type::Var(binder.clone()),
            Type::Func(arg, res) => Type::Func(
                Box::new((&**arg).clone()),
                Box::new((&**res).clone()),
            ),
        }
    }
}

/// The views of a run of types.
pub open spec fn type_views(types: Seq<Type>) -> Seq<TypeView> {
    Seq::new(types.len(), |i: int| types[i]@)
}

/// The variables that occur in a type.
pub open spec fn free_vars(t: TypeView) -> Set<Seq<char>>
    decreases t,
{
    match t {
        TypeView::Var(binder) => set![binder],
        TypeView::Func(arg, res) => free_vars(*arg).union(free_vars(*res)),
        _ => Set::empty(),
    }
}

/// The type of a curried function: from the first parameter to the function of
/// the others, and at last to the result.
pub open spec fn arrow(params: Seq<TypeView>, result: TypeView) -> TypeView
    decreases params.len(),
{
    if params.len() == 0 {
        result
    } else {
        arrow(params.drop_last(), TypeView::Func(Box::new(params.last()), Box::new(result)))
    }
}

impl Type {
    /// The variables that occur in the type.
    pub fn free_type_vars(&self) -> (vars: HashSet<Binder>)
        ensures
            binders(vars) == free_vars(self@),
        decreases self,
    {
        match self {
            Type::Var(binder) => {
                let mut names: Vec<Binder> = Vec::new();
                names.push(binder.clone());
                let vars = binders_from(names);
                assert(text::views(names@) =~= seq![binder@]);
                assert(seq![binder@].to_set() =~= set![binder@]) by {
                    assert(seq![binder@][0] == binder@);
                }
                vars
            },
            Type::Func(arg, res) => union_binders(
                (&**arg).free_type_vars(),
                (&**res).free_type_vars(),
            ),
            _ => no_binders(),
        }
    }

    /// The type of a curried function of the given parameters and result.
    pub fn func(params: Vec<Self>, result: Self) -> (t: Self)
        ensures
            t@ == arrow(type_views(params@), result@),
    {
        let mut params = params;
        let mut t = result;
        let ghost all = type_views(params@);
        while params.len() > 0
            invariant
                params@.len() <= all.len(),
                type_views(params@) == all.take(params@.len() as int),
                arrow(type_views(params@), t@) == arrow(all, result@),
            decreases params.len(),
        {
            let ghost before = type_views(params@);
            let next = params.pop().unwrap();
            proof {
                assert(before.drop_last() =~= type_views(params@));
                assert(before.last() == next@);
                assert(before.drop_last() =~= all.take(params@.len() as int)) by {
                    assert(before.len() == params@.len() + 1);
                    assert forall|k: int| 0 <= k < params@.len() implies before[k] == all[k] by {
                        assert(before[k] == all.take(before.len() as int)[k]);
                    }
                }
            }
            t = Type::Func(Box::new(next), Box::new(t));
        }
        t
    }
}

/// A type quantified over the binders that guard it.
pub struct Scheme {
    pub guards: HashSet<Binder>,
    pub body: Type,
}

/// A scheme as a mathematical value.
pub struct SchemeView {
    pub guards: Set<Seq<char>>,
    pub body: TypeView,
}

impl View for Scheme {
    type V = SchemeView;

    open spec fn view(&self) -> SchemeView {
        SchemeView { guards: binders(self.guards), body: self.body@ }
    }
}

impl Clone for Scheme {
    fn clone(&self) -> (copy: Self)
        ensures
            copy@ == self@,
    {
        Scheme { guards: clone_binders(&self.guards), body: self.body.clone() }
    }
}

impl Scheme {
    /// The scheme that quantifies the body over one binder.
    pub fn for_all(guard: Binder, body: Type) -> (scheme: Self)
        ensures
            scheme@ == (SchemeView { guards: set![guard@], body: body@ }),
    {
        let mut guards: Vec<Binder> = Vec::new();
        guards.push(guard);
        proof {
            assert(text::views(guards@) =~= seq![guard@]);
            assert(seq![guard@][0] == guard@);
            assert(seq![guard@].to_set() =~= set![guard@]);
        }
        Self::new(guards, body)
    }

    /// The scheme that quantifies the body over the given binders.
    pub fn new(guards: Vec<Binder>, body: Type) -> (scheme: Self)
        ensures
            scheme@ == (SchemeView { guards: text::views(guards@).to_set(), body: body@ }),
    {
        Scheme { guards: binders_from(guards), body }
    }

    /// The scheme of the given guards and body.
    pub fn from(guards: HashSet<Binder>, body: Type) -> (scheme: Self)
        ensures
            scheme.guards == guards,
            scheme.body == body,
    {
        Scheme { guards, body }
    }

    /// The scheme of the same guards whose body is what `f` makes of a copy of
    /// this body.
    pub fn map_body<F>(&self, f: F) -> (scheme: Self) where F: Fn(Type) -> Type
        requires
            forall|body: Type| body@ == self@.body ==> f.requires((body,)),
        ensures
            scheme@.guards == self@.guards,
            exists|body: Type| body@ == self@.body && f.ensures((body,), scheme.body),
    {
        let copy = self.body.clone();
        let ghost handed = copy;
        let mapped = f(copy);
        let scheme = Self::from(clone_binders(&self.guards), mapped);
        assert(handed@ == self@.body && f.ensures((handed,), scheme.body));
        scheme
    }

    /// The scheme that quantifies the body over nothing.
    pub fn concrete(body: Type) -> (scheme: Self)
        ensures
            scheme@ == (SchemeView { guards: Set::empty(), body: body@ }),
    {
        let guards: Vec<Binder> = Vec::new();
        proof {
            assert(text::views(guards@).to_set() =~= Set::<Seq<char>>::empty());
        }
        Self::new(guards, body)
    }
}

} // verus!
