//! Type inference in the style of Hindley and Milner, on a calculus of
//! one-argument calls and lambdas: substitutions, unification with an occurs
//! check, instantiation of schemes with fresh variables, and the inference
//! itself.

use crate::store::{
    binders, binding, binding_views, bindings, clone_bindings, clone_schemes, has_binder, lists,
    list_binders, list_bindings, list_schemes, no_bindings, no_schemes, scheme_of, scheme_views,
    schemes, union_bindings, union_of, with_binding, with_scheme, without_binding,
};
use crate::text;
use crate::types::{free_vars, Binder, Scheme, SchemeView, Type, TypeView};
use im_rc::HashMap;
use vstd::prelude::*;

verus! {

/// The map that the first `n` entries make when they are bound one after the
/// other, each value changed by `change`.
pub open spec fn collected<V, W>(
    entries: Seq<(Seq<char>, V)>,
    n: nat,
    change: spec_fn(V) -> W,
) -> Map<Seq<char>, W>
    decreases n,
{
    if n == 0 || n > entries.len() {
        Map::empty()
    } else {
        collected(entries, (n - 1) as nat, change).insert(
            entries[n - 1].0,
            change(entries[n - 1].1),
        )
    }
}

/// What the first `n` entries of a listing make: the keys are theirs, and each
/// key is bound to the change of its own value.
pub proof fn lemma_collected_prefix<V, W>(
    entries: Seq<(Seq<char>, V)>,
    map: Map<Seq<char>, V>,
    change: spec_fn(V) -> W,
    n: nat,
)
    requires
        lists(entries, map),
        n <= entries.len(),
    ensures
        forall|key: Seq<char>| #[trigger]
            collected(entries, n, change).contains_key(key) <==> exists|k: int|
                0 <= k < n && entries[k].0 == key,
        forall|k: int|
            0 <= k < n ==> collected(entries, n, change)[(#[trigger] entries[k]).0] == change(
                entries[k].1,
            ),
    decreases n,
{
    if n > 0 {
        lemma_collected_prefix(entries, map, change, (n - 1) as nat);
        let earlier = collected(entries, (n - 1) as nat, change);
        let now = collected(entries, n, change);
        assert forall|key: Seq<char>| #[trigger]
            now.contains_key(key) <==> exists|k: int| 0 <= k < n && entries[k].0 == key by {
            if now.contains_key(key) {
                if key == entries[n - 1].0 {
                    assert(entries[n - 1].0 == key);
                } else {
                    assert(earlier.contains_key(key));
                    let k = choose|k: int| 0 <= k < n - 1 && entries[k].0 == key;
                    assert(entries[k].0 == key);
                }
            }
            if exists|k: int| 0 <= k < n && entries[k].0 == key {
                let k = choose|k: int| 0 <= k < n && entries[k].0 == key;
                if k < n - 1 {
                    assert(earlier.contains_key(key));
                }
            }
        }
        assert forall|k: int| 0 <= k < n implies now[(#[trigger] entries[k]).0] == change(
            entries[k].1,
        ) by {
            if k < n - 1 {
                assert(entries[k].0 != entries[n - 1].0);
            }
        }
    }
}

/// What a listing of a map makes: the map with each value changed.
pub proof fn lemma_collected<V, W>(
    entries: Seq<(Seq<char>, V)>,
    map: Map<Seq<char>, V>,
    change: spec_fn(V) -> W,
)
    requires
        lists(entries, map),
    ensures
        collected(entries, entries.len(), change) == Map::new(
            |key: Seq<char>| map.contains_key(key),
            |key: Seq<char>| change(map[key]),
        ),
{
    let made = collected(entries, entries.len(), change);
    let wanted = Map::new(
        |key: Seq<char>| map.contains_key(key),
        |key: Seq<char>| change(map[key]),
    );
    lemma_collected_prefix(entries, map, change, entries.len());
    assert forall|key: Seq<char>| made.contains_key(key) <==> wanted.contains_key(key) by {
        if made.contains_key(key) {
            let k = choose|k: int| 0 <= k < entries.len() && entries[k].0 == key;
            assert(map.contains_key(entries[k].0));
        }
        if map.contains_key(key) {
            let k = choose|k: int| 0 <= k < entries.len() && entries[k].0 == key;
            assert(entries[k].0 == key);
        }
    }
    assert forall|key: Seq<char>| made.contains_key(key) implies made[key] == wanted[key] by {
        let k = choose|k: int| 0 <= k < entries.len() && entries[k].0 == key;
        assert(made[entries[k].0] == change(entries[k].1));
        assert(map[entries[k].0] == entries[k].1);
    }
    assert(made =~= wanted);
}

/// An expression of the calculus.
#[derive(Debug, PartialEq)]
pub enum Expr {
    /// `()`
    Unit,
    /// `42`
    Int(i32),
    /// `x`
    Name(Binder),
    /// `e e`
    Call(Box<Self>, Box<Self>),
    /// `a -> e`
    Func(Binder, Box<Self>),
}

/// An expression of the calculus as a mathematical value.
pub enum ExprView {
    Unit,
    Int(i32),
    Name(Seq<char>),
    Call(Box<ExprView>, Box<ExprView>),
    Func(Seq<char>, Box<ExprView>),
}

/// The mathematical value of an expression.
pub open spec fn expr_view(expr: Expr) -> ExprView
    decreases expr,
{
    match expr {
        Expr::Unit => ExprView::Unit,
        Expr::Int(i) => ExprView::Int(i),
        Expr::Name(binder) => ExprView::Name(binder@),
        Expr::Call(f, arg) => ExprView::Call(
            Box::new(expr_view(*f)),
            Box::new(expr_view(*arg)),
        ),
        Expr::Func(binder, body) => ExprView::Func(binder@, Box::new(expr_view(*body))),
    }
}

impl View for Expr {
    type V = ExprView;

    open spec fn view(&self) -> ExprView {
        expr_view(*self)
    }
}

impl Clone for Expr {
    fn clone(&self) -> (copy: Self)
        ensures
            copy@ == self@,
        decreases self,
    {
        match self {
            Expr::Unit => Expr::Unit,
            Expr::Int(i) => Expr::Int(*i),
            Expr::Name(binder) => Expr::Name(binder.clone()),
            Expr::Call(f, arg) => Expr::Call(
                Box::new((&**f).clone()),
                Box::new((&**arg).clone()),
            ),
            Expr::Func(binder, body) => Expr::Func(binder.clone(), Box::new((&**body).clone())),
        }
    }
}

/// The views of a run of expressions.
pub open spec fn expr_views(exprs: Seq<Expr>) -> Seq<ExprView> {
    Seq::new(exprs.len(), |i: int| exprs[i]@)
}

/// The call of `f` on the first `n` arguments, one after the other.
pub open spec fn curried(f: ExprView, args: Seq<ExprView>, n: nat) -> ExprView
    decreases n,
{
    if n == 0 || n > args.len() {
        f
    } else {
        ExprView::Call(Box::new(curried(f, args, (n - 1) as nat)), Box::new(args[n - 1]))
    }
}

impl Expr {
    /// The call of `f` on the arguments, one after the other.
    pub fn call(f: Self, args: Vec<Self>) -> (expr: Self)
        ensures
            expr@ == curried(f@, expr_views(args@), args@.len()),
    {
        let mut expr = f;
        let mut i: usize = 0;
        while i < args.len()
            invariant
                i <= args.len(),
                expr@ == curried(f@, expr_views(args@), i as nat),
            decreases args.len() - i,
        {
            expr = Expr::Call(Box::new(expr), Box::new(args[i].clone()));
            i += 1;
        }
        expr
    }
}

/// The type with each variable that the substitution binds replaced by what it
/// is bound to; what is put in is not substituted again.
pub open spec fn applied(sub: Map<Seq<char>, TypeView>, t: TypeView) -> TypeView
    decreases t,
{
    match t {
        TypeView::Var(binder) => if sub.contains_key(binder) {
            sub[binder]
        } else {
            t
        },
        TypeView::Func(arg, res) => TypeView::Func(
            Box::new(applied(sub, *arg)),
            Box::new(applied(sub, *res)),
        ),
        _ => t,
    }
}

/// The substitution that binds the variable to the type: nothing if the type is
/// that variable itself, and no substitution at all if the variable occurs in
/// the type.
pub open spec fn bound(binder: Seq<char>, t: TypeView) -> Option<Map<Seq<char>, TypeView>> {
    if t == TypeView::Var(binder) {
        Some(Map::empty())
    } else if free_vars(t).contains(binder) {
        None
    } else {
        Some(Map::<Seq<char>, TypeView>::empty().insert(binder, t))
    }
}

/// The bindings of `other`, each with `sub` applied to its type.
pub open spec fn applied_to_all(
    sub: Map<Seq<char>, TypeView>,
    other: Map<Seq<char>, TypeView>,
) -> Map<Seq<char>, TypeView> {
    Map::new(|key: Seq<char>| other.contains_key(key), |key: Seq<char>| applied(sub, other[key]))
}

/// The composition of two substitutions: the bindings of `other` with `sub`
/// applied to them, united with those of `sub`.
pub open spec fn composed(
    sub: Map<Seq<char>, TypeView>,
    other: Map<Seq<char>, TypeView>,
) -> Map<Seq<char>, TypeView> {
    union_of(applied_to_all(sub, other), sub)
}

/// A substitution of types for type variables.
pub struct Substitution(HashMap<Binder, Type>);

impl View for Substitution {
    type V = Map<Seq<char>, TypeView>;

    closed spec fn view(&self) -> Map<Seq<char>, TypeView> {
        bindings(self.0)
    }
}

impl Clone for Substitution {
    fn clone(&self) -> (copy: Self)
        ensures
            copy@ == self@,
    {
        Substitution(clone_bindings(&self.0))
    }
}

impl Default for Substitution {
    fn default() -> (sub: Self)
        ensures
            sub@ == Map::<Seq<char>, TypeView>::empty(),
    {
        Substitution(no_bindings())
    }
}

/// The map that the first `n` pairs make when they are bound one after the
/// other: a later pair replaces an earlier one of the same binder.
pub open spec fn paired(pairs: Seq<(Seq<char>, TypeView)>, n: nat) -> Map<Seq<char>, TypeView>
    decreases n,
{
    if n == 0 || n > pairs.len() {
        Map::empty()
    } else {
        paired(pairs, (n - 1) as nat).insert(pairs[n - 1].0, pairs[n - 1].1)
    }
}

impl Substitution {
    /// The substitution that the pairs make when they are bound one after the
    /// other.
    pub fn from(value: Vec<(Binder, Type)>) -> (sub: Self)
        ensures
            sub@ == paired(binding_views(value@), value@.len()),
    {
        let mut map = no_bindings();
        let mut i: usize = 0;
        while i < value.len()
            invariant
                i <= value.len(),
                bindings(map) == paired(binding_views(value@), i as nat),
            decreases value.len() - i,
        {
            map = with_binding(&map, value[i].0.clone(), value[i].1.clone());
            i += 1;
        }
        Substitution(map)
    }

    /// The substitution that binds the variable to the type, if there is one.
    pub fn bind(binder: String, t: Type) -> (sub: Option<Substitution>)
        ensures
            sub is Some <==> bound(binder@, t@) is Some,
            sub matches Some(s) ==> s@ == bound(binder@, t@)->0,
    {
        let same = match &t {
            Type::Var(name) => *name == binder,
            _ => false,
        };
        if same {
            return Some(Substitution::default());
        }
        if has_binder(&t.free_type_vars(), &binder) {
            return None;
        }
        Some(Substitution(with_binding(&no_bindings(), binder, t)))
    }

    /// The composition with another substitution: its bindings with this
    /// substitution applied to them, united with the bindings of this one.
    pub fn union(&self, other: &Substitution) -> (sub: Self)
        ensures
            sub@ == composed(self@, other@),
    {
        let entries = list_bindings(&other.0);
        let ghost listed = binding_views(entries@);
        let ghost change = |t: TypeView| applied(self@, t);
        let mut new = no_bindings();
        let mut i: usize = 0;
        while i < entries.len()
            invariant
                i <= entries.len(),
                listed == binding_views(entries@),
                change == |t: TypeView| applied(self@, t),
                bindings(new) == collected(listed, i as nat, change),
            decreases entries.len() - i,
        {
            assert(listed[i as int] == (entries@[i as int].0@, entries@[i as int].1@));
            let binder = entries[i].0.clone();
            let t = self.apply(entries[i].1.clone());
            new = with_binding(&new, binder, t);
            i += 1;
        }
        proof {
            lemma_collected(listed, other@, change);
            assert(bindings(new) =~= applied_to_all(self@, other@));
        }
        Substitution(union_bindings(new, clone_bindings(&self.0)))
    }

    /// The type with each variable that the substitution binds replaced by what
    /// it is bound to.
    pub fn apply(&self, t: Type) -> (changed: Type)
        ensures
            changed@ == applied(self@, t@),
        decreases t,
    {
        match t {
            Type::Var(binder) => match binding(&self.0, &binder) {
                Some(got) => got.clone(),
                None => Type::Var(binder),
            },
            Type::Func(arg, res) => Type::Func(
                Box::new(self.apply(*arg)),
                Box::new(self.apply(*res)),
            ),
            other => other,
        }
    }

    /// The substitution without the bindings of the given binders.
    pub fn without(&self, keys: &im_rc::HashSet<Binder>) -> (sub: Self)
        ensures
            sub@ == self@.remove_keys(binders(*keys)),
    {
        let items = list_binders(keys);
        let mut map = clone_bindings(&self.0);
        let mut i: usize = 0;
        assert(bindings(map) =~= self@.remove_keys(text::views(items@).take(0).to_set()));
        while i < items.len()
            invariant
                i <= items.len(),
                bindings(map) == self@.remove_keys(text::views(items@).take(i as int).to_set()),
            decreases items.len() - i,
        {
            map = without_binding(&map, &items[i]);
            proof {
                let shorter = text::views(items@).take(i as int);
                let longer = text::views(items@).take(i + 1);
                assert(longer =~= shorter.push(items@[i as int]@));
                assert(longer.to_set() =~= shorter.to_set().insert(items@[i as int]@)) by {
                    assert forall|key: Seq<char>| longer.to_set().contains(key) implies (
                    shorter.to_set().insert(items@[i as int]@).contains(key)) by {
                        let k = choose|k: int| 0 <= k < longer.len() && longer[k] == key;
                        if k < i {
                            assert(shorter[k] == key);
                        }
                    }
                    assert forall|key: Seq<char>|
                        shorter.to_set().insert(items@[i as int]@).contains(
                            key,
                        ) implies longer.to_set().contains(key) by {
                        if key == items@[i as int]@ {
                            assert(longer[i as int] == key);
                        } else {
                            let k = choose|k: int| 0 <= k < shorter.len() && shorter[k] == key;
                            assert(longer[k] == key);
                        }
                    }
                }
                assert(bindings(map) =~= self@.remove_keys(longer.to_set()));
            }
            i += 1;
        }
        proof {
            assert(text::views(items@).take(i as int) =~= text::views(items@));
        }
        Substitution(map)
    }
}

/// The scheme with the substitution applied to its body, but for the bindings of
/// the scheme's own guards.
pub open spec fn applied_scheme(sub: Map<Seq<char>, TypeView>, scheme: SchemeView) -> SchemeView {
    SchemeView { guards: scheme.guards, body: applied(sub.remove_keys(scheme.guards), scheme.body) }
}

/// The context with the substitution applied to each of its schemes.
pub open spec fn applied_context(
    sub: Map<Seq<char>, TypeView>,
    ctx: Map<Seq<char>, SchemeView>,
) -> Map<Seq<char>, SchemeView> {
    Map::new(
        |key: Seq<char>| ctx.contains_key(key),
        |key: Seq<char>| applied_scheme(sub, ctx[key]),
    )
}

/// The schemes of the names in scope.
pub struct Context(HashMap<Binder, Scheme>);

impl View for Context {
    type V = Map<Seq<char>, SchemeView>;

    closed spec fn view(&self) -> Map<Seq<char>, SchemeView> {
        schemes(self.0)
    }
}

impl Clone for Context {
    fn clone(&self) -> (copy: Self)
        ensures
            copy@ == self@,
    {
        Context(clone_schemes(&self.0))
    }
}

impl Default for Context {
    fn default() -> (ctx: Self)
        ensures
            ctx@ == Map::<Seq<char>, SchemeView>::empty(),
    {
        Context(no_schemes())
    }
}

impl Context {
    /// The scheme of the name, if the name is in scope.
    pub fn lookup(&self, binder: &Binder) -> (found: Option<Scheme>)
        ensures
            found is Some <==> self@.contains_key(binder@),
            found matches Some(scheme) ==> scheme@ == self@[binder@],
    {
        match scheme_of(&self.0, binder) {
            Some(scheme) => Some(scheme.clone()),
            None => None,
        }
    }

    /// The context with the name bound to the scheme.
    pub fn update(&self, binder: Binder, scheme: Scheme) -> (ctx: Self)
        ensures
            ctx@ == self@.insert(binder@, scheme@),
    {
        Context(with_scheme(&self.0, binder, scheme))
    }
}

impl Substitution {
    /// The scheme with the substitution applied to its body, but for the
    /// bindings of the scheme's own guards.
    pub fn apply_scheme(&self, scheme: Scheme) -> (changed: Scheme)
        ensures
            changed@ == applied_scheme(self@, scheme@),
    {
        let body = self.without(&scheme.guards).apply(scheme.body);
        Scheme::from(scheme.guards, body)
    }

    /// The context with the substitution applied to each of its schemes.
    pub fn apply_context(&self, ctx: Context) -> (changed: Context)
        ensures
            changed@ == applied_context(self@, ctx@),
    {
        let entries = list_schemes(&ctx.0);
        let ghost listed = scheme_views(entries@);
        let ghost change = |scheme: SchemeView| applied_scheme(self@, scheme);
        let mut new = no_schemes();
        let mut i: usize = 0;
        while i < entries.len()
            invariant
                i <= entries.len(),
                listed == scheme_views(entries@),
                change == |scheme: SchemeView| applied_scheme(self@, scheme),
                schemes(new) == collected(listed, i as nat, change),
            decreases entries.len() - i,
        {
            assert(listed[i as int] == (entries@[i as int].0@, entries@[i as int].1@));
            let binder = entries[i].0.clone();
            let scheme = self.apply_scheme(entries[i].1.clone());
            new = with_scheme(&new, binder, scheme);
            i += 1;
        }
        proof {
            lemma_collected(listed, ctx@, change);
            assert(schemes(new) =~= applied_context(self@, ctx@));
        }
        Context(new)
    }
}

/// The name of the fresh type variable of the given number.
pub open spec fn fresh_name(n: nat) -> Seq<char> {
    "t"@ + text::decimal_digits(n)
}

/// The fresh type variable of the given number.
pub open spec fn fresh_var(n: nat) -> TypeView {
    TypeView::Var(fresh_name(n))
}

/// A supply of fresh type variables: the next one is numbered `count`.
pub struct Fresh {
    pub count: usize,
}

impl Default for Fresh {
    fn default() -> (fresh: Self)
        ensures
            fresh.count == 0,
    {
        Fresh { count: 0 }
    }
}

impl Fresh {
    /// The next fresh type variable.
    pub fn next(&mut self) -> (t: Type)
        requires
            old(self).count < usize::MAX,
        ensures
            final(self).count == old(self).count + 1,
            t@ == fresh_var(old(self).count as nat),
    {
        self.count += 1;
        let mut name = String::from_str("t");
        let digits = text::natural_to_string((self.count - 1) as u64);
        name.append(digits.as_str());
        Type::Var(name)
    }

    /// The next `n` fresh type variables.
    pub fn take(&mut self, n: usize) -> (types: Vec<Type>)
        requires
            old(self).count + n <= usize::MAX,
        ensures
            final(self).count == old(self).count + n,
            types@.len() == n,
            forall|i: int| 0 <= i < n ==> (#[trigger] types@[i])@ == fresh_var((old(self).count + i) as nat),
    {
        let mut types: Vec<Type> = Vec::new();
        let ghost start = self.count;
        let mut i: usize = 0;
        while i < n
            invariant
                i <= n,
                start + n <= usize::MAX,
                self.count == start + i,
                types@.len() == i,
                forall|k: int| 0 <= k < i ==> (#[trigger] types@[k])@ == fresh_var((start + k) as nat),
            decreases n - i,
        {
            let t = self.next();
            types.push(t);
            i += 1;
        }
        types
    }
}

/// The depth to which function types are unified: results nested deeper than
/// this are not looked into.
pub const DEPTH: usize = 1024;

/// The substitution that unifies two types, looking at most `depth` results
/// deep. Equal base types unify under the empty substitution; a variable is
/// bound to the other type; two function types unify if their arguments do and,
/// under that, their results do. Nothing else unifies.
pub open spec fn unified(t1: TypeView, t2: TypeView, depth: nat) -> Option<
    Map<Seq<char>, TypeView>,
>
    decreases depth,
{
    match (t1, t2) {
        (TypeView::Unit, TypeView::Unit) => Some(Map::empty()),
        (TypeView::Int, TypeView::Int) => Some(Map::empty()),
        (TypeView::Var(binder), t) => bound(binder, t),
        (t, TypeView::Var(binder)) => bound(binder, t),
        (TypeView::Func(arg1, res1), TypeView::Func(arg2, res2)) => if depth == 0 {
            None
        } else {
            match unified(*arg1, *arg2, (depth - 1) as nat) {
                None => None,
                Some(s1) => match unified(
                    applied(s1, *res1),
                    applied(s1, *res2),
                    (depth - 1) as nat,
                ) {
                    None => None,
                    Some(s2) => Some(composed(s2, s1)),
                },
            }
        },
        _ => None,
    }
}

impl Substitution {
    /// The substitution that unifies two types, if there is one within the
    /// depth to which function types are looked into.
    pub fn unify(t1: &Type, t2: &Type) -> (sub: Option<Substitution>)
        ensures
            sub is Some <==> unified(t1@, t2@, DEPTH as nat) is Some,
            sub matches Some(s) ==> s@ == unified(t1@, t2@, DEPTH as nat)->0,
    {
        Self::unify_within(t1, t2, DEPTH)
    }

    /// The substitution that unifies two types, if there is one within the given
    /// depth.
    pub fn unify_within(t1: &Type, t2: &Type, depth: usize) -> (sub: Option<Substitution>)
        ensures
            sub is Some <==> unified(t1@, t2@, depth as nat) is Some,
            sub matches Some(s) ==> s@ == unified(t1@, t2@, depth as nat)->0,
        decreases depth,
    {
        match t1 {
            Type::Var(binder) => Self::bind(binder.clone(), t2.clone()),
            Type::Unit => match t2 {
                Type::Unit => Some(Substitution::default()),
                Type::Var(binder) => Self::bind(binder.clone(), t1.clone()),
                _ => None,
            },
            Type::Int => match t2 {
                Type::Int => Some(Substitution::default()),
                Type::Var(binder) => Self::bind(binder.clone(), t1.clone()),
                _ => None,
            },
            Type::Func(arg1, res1) => match t2 {
                Type::Var(binder) => Self::bind(binder.clone(), t1.clone()),
                Type::Func(arg2, res2) => {
                    if depth == 0 {
                        return None;
                    }
                    let s1 = match Self::unify_within(&**arg1, &**arg2, depth - 1) {
                        None => {
                            return None;
                        },
                        Some(s1) => s1,
                    };
                    let left = s1.apply((&**res1).clone());
                    let right = s1.apply((&**res2).clone());
                    match Self::unify_within(&left, &right, depth - 1) {
                        None => None,
                        Some(s2) => Some(s2.union(&s1)),
                    }
                },
                _ => None,
            },
        }
    }
}

/// How far the renaming of a scheme's guarded variables has got: the fresh
/// variable of each guard met so far, and the number of fresh variables used.
pub struct Renaming {
    pub done: Map<Seq<char>, TypeView>,
    pub used: nat,
}

/// The type with its guarded variables renamed, from left to right: a guard that
/// was met before is given the same fresh variable again, and one that is met
/// for the first time is given the next, counted from `base`.
pub open spec fn renamed(guards: Set<Seq<char>>, t: TypeView, base: nat, state: Renaming) -> (
    TypeView,
    Renaming,
)
    decreases t,
{
    match t {
        TypeView::Var(binder) => if !guards.contains(binder) {
            (t, state)
        } else if state.done.contains_key(binder) {
            (state.done[binder], state)
        } else {
            (
                fresh_var(base + state.used),
                Renaming {
                    done: state.done.insert(binder, fresh_var(base + state.used)),
                    used: state.used + 1,
                },
            )
        },
        TypeView::Func(arg, res) => {
            let first = renamed(guards, *arg, base, state);
            let second = renamed(guards, *res, base, first.1);
            (TypeView::Func(Box::new(first.0), Box::new(second.0)), second.1)
        },
        _ => (t, state),
    }
}

/// The instance of a scheme when the next fresh variable is numbered `n`, and
/// the number of the next fresh variable after it: as many fresh variables are
/// taken as the scheme has guards, and the guards that occur in the body are
/// given them in the order in which they first occur.
pub open spec fn instantiated(scheme: SchemeView, n: nat) -> (TypeView, nat) {
    (
        renamed(scheme.guards, scheme.body, n, Renaming { done: Map::empty(), used: 0 }).0,
        n + scheme.guards.len(),
    )
}

/// Whether a renaming is under way in good order: only guards are renamed, one
/// fresh variable has been used for each, and the guards are finitely many.
pub open spec fn in_order(guards: Set<Seq<char>>, state: Renaming) -> bool {
    &&& guards.finite()
    &&& state.done.dom().finite()
    &&& state.done.dom().subset_of(guards)
    &&& state.done.dom().len() == state.used
}

/// A renaming in good order stays so, and never uses more fresh variables than
/// there are guards.
pub proof fn lemma_renamed_in_order(guards: Set<Seq<char>>, t: TypeView, base: nat, state: Renaming)
    requires
        in_order(guards, state),
    ensures
        in_order(guards, renamed(guards, t, base, state).1),
        state.used <= renamed(guards, t, base, state).1.used <= guards.len(),
    decreases t,
{
    vstd::set_lib::lemma_len_subset(state.done.dom(), guards);
    match t {
        TypeView::Var(binder) => {
            if guards.contains(binder) && !state.done.contains_key(binder) {
                let after = renamed(guards, t, base, state).1;
                assert(after.done.dom() =~= state.done.dom().insert(binder));
                vstd::set_lib::lemma_len_subset(after.done.dom(), guards);
            }
        },
        TypeView::Func(arg, res) => {
            lemma_renamed_in_order(guards, *arg, base, state);
            lemma_renamed_in_order(guards, *res, base, renamed(guards, *arg, base, state).1);
        },
        _ => {},
    }
}

fn rename(
    guards: &im_rc::HashSet<Binder>,
    t: &Type,
    base: usize,
    fresh: &Vec<Type>,
    done: &mut HashMap<Binder, Type>,
    used: &mut usize,
) -> (changed: Type)
    requires
        in_order(binders(*guards), Renaming { done: bindings(*old(done)), used: *old(used) as nat }),
        fresh@.len() == binders(*guards).len(),
        forall|i: int| 0 <= i < fresh@.len() ==> (#[trigger] fresh@[i])@ == fresh_var((base + i) as nat),
    ensures
        (changed@, Renaming { done: bindings(*final(done)), used: *final(used) as nat }) == renamed(
            binders(*guards),
            t@,
            base as nat,
            Renaming { done: bindings(*old(done)), used: *old(used) as nat },
        ),
        in_order(
            binders(*guards),
            Renaming { done: bindings(*final(done)), used: *final(used) as nat },
        ),
    decreases t,
{
    let ghost state = Renaming { done: bindings(*done), used: *used as nat };
    proof {
        lemma_renamed_in_order(binders(*guards), t@, base as nat, state);
    }
    match t {
        Type::Var(binder) => {
            if !has_binder(guards, binder) {
                Type::Var(binder.clone())
            } else {
                match binding(done, binder) {
                    Some(got) => got.clone(),
                    None => {
                        let index = *used;
                        let room = fresh.len();
                        assert(renamed(binders(*guards), t@, base as nat, state).1.used == index
                            + 1);
                        assert(index + 1 <= room);
                        let t = fresh[index].clone();
                        *done = with_binding(done, binder.clone(), t.clone());
                        *used = index + 1;
                        t
                    },
                }
            }
        },
        Type::Func(arg, res) => {
            let first = rename(guards, &**arg, base, fresh, done, used);
            let second = rename(guards, &**res, base, fresh, done, used);
            Type::Func(Box::new(first), Box::new(second))
        },
        Type::Unit => Type::Unit,
        Type::Int => Type::Int,
    }
}

/// What inference makes of an expression in a context when the next fresh
/// variable is numbered `n`: the substitution found, the type, and the number of
/// the next fresh variable after it; or nothing, where a name is not in scope or
/// two types do not unify.
pub open spec fn inferred(ctx: Map<Seq<char>, SchemeView>, expr: ExprView, n: nat) -> Option<
    (Map<Seq<char>, TypeView>, TypeView, nat),
>
    decreases expr,
{
    match expr {
        ExprView::Unit => Some((Map::empty(), TypeView::Unit, n)),
        ExprView::Int(_) => Some((Map::empty(), TypeView::Int, n)),
        ExprView::Name(binder) => if ctx.contains_key(binder) {
            Some((Map::empty(), instantiated(ctx[binder], n).0, instantiated(ctx[binder], n).1))
        } else {
            None
        },
        ExprView::Call(f, arg) => match inferred(ctx, *f, n + 1) {
            None => None,
            Some((s1, f_type, n1)) => match inferred(applied_context(s1, ctx), *arg, n1) {
                None => None,
                Some((s2, arg_type, n2)) => match unified(
                    applied(s2, f_type),
                    TypeView::Func(Box::new(arg_type), Box::new(fresh_var(n))),
                    DEPTH as nat,
                ) {
                    None => None,
                    Some(s3) => Some(
                        (composed(composed(s3, s2), s1), applied(s3, fresh_var(n)), n2),
                    ),
                },
            },
        },
        ExprView::Func(binder, body) => match inferred(
            ctx.insert(binder, SchemeView { guards: Set::empty(), body: fresh_var(n) }),
            *body,
            n + 1,
        ) {
            None => None,
            Some((subs, body_type, m)) => Some(
                (
                    subs,
                    TypeView::Func(Box::new(applied(subs, fresh_var(n))), Box::new(body_type)),
                    m,
                ),
            ),
        },
    }
}

/// The type of an expression in a context, where inference finds one and has
/// fresh variables enough: the type found, with the substitution found applied
/// to it.
pub open spec fn type_of(ctx: Map<Seq<char>, SchemeView>, expr: ExprView) -> Option<TypeView> {
    match inferred(ctx, expr, 0) {
        Some((sub, t, n)) => if n <= usize::MAX {
            Some(applied(sub, t))
        } else {
            None
        },
        None => None,
    }
}

/// Inference never gives a fresh variable back: the number of the next one does
/// not go down.
pub proof fn lemma_inferred_counts(ctx: Map<Seq<char>, SchemeView>, expr: ExprView, n: nat)
    ensures
        inferred(ctx, expr, n) matches Some(found) ==> found.2 >= n,
    decreases expr,
{
    match expr {
        ExprView::Call(f, arg) => {
            lemma_inferred_counts(ctx, *f, n + 1);
            if let Some((s1, f_type, n1)) = inferred(ctx, *f, n + 1) {
                lemma_inferred_counts(applied_context(s1, ctx), *arg, n1);
            }
        },
        ExprView::Func(binder, body) => {
            lemma_inferred_counts(
                ctx.insert(binder, SchemeView { guards: Set::empty(), body: fresh_var(n) }),
                *body,
                n + 1,
            );
        },
        _ => {},
    }
}

/// The number of nodes of an expression.
pub open spec fn size(expr: Expr) -> nat
    decreases expr,
{
    match expr {
        Expr::Call(f, arg) => 1 + size(*f) + size(*arg),
        Expr::Func(_, body) => 1 + size(*body),
        _ => 1,
    }
}

/// The state of an inference: its supply of fresh type variables.
pub struct HindleyMilner {
    pub var: Fresh,
}

impl Default for HindleyMilner {
    fn default() -> (state: Self)
        ensures
            state.var.count == 0,
    {
        HindleyMilner { var: Fresh::default() }
    }
}

/// Whether an outcome of inference is what is owed when the next fresh variable
/// was numbered `before` and is numbered `after` now: the outcome that
/// `inferred` states, or none where there is none or the fresh variables ran
/// out.
pub open spec fn owed(
    ctx: Map<Seq<char>, SchemeView>,
    expr: ExprView,
    before: nat,
    after: nat,
    outcome: Option<(Substitution, Type)>,
) -> bool {
    match outcome {
        Some((sub, t)) => inferred(ctx, expr, before) == Some((sub@, t@, after)),
        None => inferred(ctx, expr, before) matches Some(found) ==> found.2 > usize::MAX,
    }
}

impl HindleyMilner {
    /// The instance of a scheme: a concrete type in which fresh variables stand
    /// for the guards. None where the fresh variables run out.
    pub fn instantiate(&mut self, scheme: Scheme) -> (instance: Option<Type>)
        ensures
            instance matches Some(t) ==> (t@, final(self).var.count as nat) == instantiated(
                scheme@,
                old(self).var.count as nat,
            ),
            instance is None ==> instantiated(scheme@, old(self).var.count as nat).1 > usize::MAX,
    {
        let items = list_binders(&scheme.guards);
        let n = items.len();
        proof {
            vstd::seq_lib::seq_to_set_is_finite(text::views(items@));
            text::views(items@).unique_seq_to_set();
        }
        if n > usize::MAX - self.var.count {
            return None;
        }
        let base = self.var.count;
        let fresh = self.var.take(n);
        let mut done = no_bindings();
        let mut used: usize = 0;
        Some(rename(&scheme.guards, &scheme.body, base, &fresh, &mut done, &mut used))
    }

    /// Infers the type of an expression in a context.
    pub fn infer(&mut self, ctx: Context, expr: Expr) -> (outcome: Option<(Substitution, Type)>)
        ensures
            owed(ctx@, expr@, old(self).var.count as nat, final(self).var.count as nat, outcome),
        decreases 2 * size(expr) + 1,
    {
        match expr {
            Expr::Unit => Some((Substitution::default(), Type::Unit)),
            Expr::Int(_) => Some((Substitution::default(), Type::Int)),
            Expr::Name(binder) => match ctx.lookup(&binder) {
                None => None,
                Some(scheme) => match self.instantiate(scheme) {
                    None => None,
                    Some(t) => Some((Substitution::default(), t)),
                },
            },
            Expr::Call(f, arg) => self.infer_call(ctx, *f, *arg),
            Expr::Func(binder, body) => self.infer_func(ctx, binder, *body),
        }
    }

    /// Infers the type of a call.
    pub fn infer_call(&mut self, ctx: Context, f: Expr, arg: Expr) -> (outcome: Option<
        (Substitution, Type),
    >)
        ensures
            owed(
                ctx@,
                ExprView::Call(Box::new(f@), Box::new(arg@)),
                old(self).var.count as nat,
                final(self).var.count as nat,
                outcome,
            ),
        decreases 2 * (1 + size(f) + size(arg)),
    {
        let ghost n = self.var.count as nat;
        proof {
            lemma_inferred_counts(ctx@, f@, n + 1);
            if let Some((s1, f_type, n1)) = inferred(ctx@, f@, n + 1) {
                lemma_inferred_counts(applied_context(s1, ctx@), arg@, n1);
            }
        }
        if self.var.count == usize::MAX {
            return None;
        }
        let result_type = self.var.next();
        let (s1, f_type) = match self.infer(ctx.clone(), f) {
            None => {
                return None;
            },
            Some(found) => found,
        };
        let (s2, arg_type) = match self.infer(s1.apply_context(ctx), arg) {
            None => {
                return None;
            },
            Some(found) => found,
        };
        let f1 = s2.apply(f_type.clone());
        let f2 = Type::Func(Box::new(arg_type), Box::new(result_type.clone()));
        let s3 = match Substitution::unify(&f1, &f2) {
            None => {
                return None;
            },
            Some(s3) => s3,
        };
        let t = s3.apply(result_type);
        Some((s3.union(&s2).union(&s1), t))
    }

    /// Infers the type of a lambda.
    pub fn infer_func(&mut self, ctx: Context, binder: Binder, body: Expr) -> (outcome: Option<
        (Substitution, Type),
    >)
        ensures
            owed(
                ctx@,
                ExprView::Func(binder@, Box::new(body@)),
                old(self).var.count as nat,
                final(self).var.count as nat,
                outcome,
            ),
        decreases 2 * (1 + size(body)),
    {
        let ghost n = self.var.count as nat;
        proof {
            lemma_inferred_counts(
                ctx@.insert(binder@, SchemeView { guards: Set::empty(), body: fresh_var(n) }),
                body@,
                n + 1,
            );
        }
        if self.var.count == usize::MAX {
            return None;
        }
        let binder_type = self.var.next();
        let ctx_ = ctx.update(binder, Scheme::concrete(binder_type.clone()));
        let (subs, body_type) = match self.infer(ctx_, body) {
            None => {
                return None;
            },
            Some(found) => found,
        };
        let t = Type::Func(Box::new(subs.apply(binder_type)), Box::new(body_type));
        Some((subs.clone(), t))
    }
}

/// The type of an expression in a context, where inference finds one.
pub fn try_infer(ctx: Context, expr: Expr) -> (found: Option<Type>)
    ensures
        found is Some <==> type_of(ctx@, expr@) is Some,
        found matches Some(t) ==> t@ == type_of(ctx@, expr@)->0,
{
    let mut state = HindleyMilner::default();
    match state.infer(ctx, expr) {
        None => None,
        Some((sub, t)) => Some(sub.apply(t)),
    }
}

/// The type of an expression in a context in which inference finds one.
pub fn infer(ctx: Context, expr: Expr) -> (t: Type)
    requires
        type_of(ctx@, expr@) is Some,
    ensures
        t@ == type_of(ctx@, expr@)->0,
{
    try_infer(ctx, expr).unwrap()
}

} // verus!
