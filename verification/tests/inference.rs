use pure_lang::infer::{infer, try_infer, Context, Expr, Fresh, HindleyMilner, Substitution};
use pure_lang::stdlib;
use pure_lang::types::{Scheme, Type};

fn var(name: &str) -> Type {
    Type::Var(name.to_string())
}

fn arrow(arg: Type, res: Type) -> Type {
    Type::Func(Box::new(arg), Box::new(res))
}

fn name(binder: &str) -> Expr {
    Expr::Name(binder.to_string())
}

fn lambda(binder: &str, body: Expr) -> Expr {
    Expr::Func(binder.to_string(), Box::new(body))
}

fn apply(f: Expr, arg: Expr) -> Expr {
    Expr::Call(Box::new(f), Box::new(arg))
}

fn bind(binder: &str, t: Type) -> Substitution {
    Substitution::bind(binder.to_string(), t).unwrap()
}

fn context() -> Context {
    let id = Scheme::for_all("a".to_string(), arrow(var("a"), var("a")));
    let add = Scheme::concrete(Type::func(vec![Type::Int, Type::Int], Type::Int));
    Context::default().update("id".to_string(), id).update("add".to_string(), add)
}

#[test]
fn it_works() {
    let id = Scheme::for_all(
        "a".to_string(),
        Type::Func(Type::Var("a".to_string()).into(), Type::Var("a".to_string()).into()),
    );
    let add = Scheme::concrete(Type::func(vec![Type::Int, Type::Int], Type::Int));
    let ctx = Context::default().update("id".to_string(), id).update("add".to_string(), add);

    let expr = Expr::Call(Expr::Name("id".to_string()).into(), Expr::Int(42).into());
    let t = infer(ctx.clone(), expr);
    assert_eq!(t, Type::Int);

    let expr = Expr::call(Expr::Name("add".to_string()), vec![Expr::Int(1)]);
    let t = infer(ctx.clone(), expr);
    assert_eq!(t, Type::Func(Type::Int.into(), Type::Int.into()));
}

#[test]
fn literals_and_lambdas_have_their_types() {
    assert_eq!(infer(Context::default(), Expr::Unit), Type::Unit);
    assert_eq!(infer(Context::default(), Expr::Int(3)), Type::Int);
    assert_eq!(infer(Context::default(), lambda("x", name("x"))), arrow(var("t0"), var("t0")));
    assert_eq!(infer(Context::default(), lambda("x", Expr::Int(1))), arrow(var("t0"), Type::Int));
    assert_eq!(
        infer(Context::default(), lambda("x", lambda("y", name("x")))),
        arrow(var("t0"), arrow(var("t1"), var("t0")))
    );
    assert_eq!(
        infer(context(), lambda("x", apply(apply(name("add"), name("x")), Expr::Int(1)))),
        arrow(Type::Int, Type::Int)
    );
    assert_eq!(
        infer(context(), apply(apply(name("add"), Expr::Int(1)), Expr::Int(2))),
        Type::Int
    );
    assert_eq!(infer(context(), name("id")), arrow(var("t0"), var("t0")));
    assert_eq!(infer(context(), apply(name("id"), name("id"))), arrow(var("t2"), var("t2")));
}

#[test]
fn inference_fails_where_there_is_no_type() {
    assert_eq!(try_infer(Context::default(), name("nowhere")), None);
    assert_eq!(try_infer(context(), apply(Expr::Int(1), Expr::Int(2))), None);
    assert_eq!(try_infer(context(), apply(name("add"), Expr::Unit)), None);
    assert_eq!(try_infer(context(), lambda("x", apply(name("x"), name("x")))), None);
    assert_eq!(try_infer(context(), apply(name("id"), Expr::Unit)), Some(Type::Unit));
}

#[test]
fn calls_are_curried() {
    assert_eq!(Expr::call(name("f"), vec![]), name("f"));
    assert_eq!(
        Expr::call(name("f"), vec![Expr::Int(1), Expr::Unit, name("x")]),
        apply(apply(apply(name("f"), Expr::Int(1)), Expr::Unit), name("x"))
    );
}

#[test]
fn function_types_are_curried() {
    assert_eq!(Type::func(vec![], Type::Int), Type::Int);
    assert_eq!(Type::func(vec![Type::Unit], Type::Int), arrow(Type::Unit, Type::Int));
    assert_eq!(
        Type::func(vec![var("a"), Type::Unit, Type::Int], var("b")),
        arrow(var("a"), arrow(Type::Unit, arrow(Type::Int, var("b"))))
    );
}

#[test]
fn free_type_variables_are_collected() {
    let t = arrow(var("a"), arrow(Type::Int, arrow(var("b"), var("a"))));
    let vars = t.free_type_vars();
    assert_eq!(vars.len(), 2);
    assert!(vars.contains("a"));
    assert!(vars.contains("b"));
    assert!(!vars.contains("c"));
    assert!(Type::Int.free_type_vars().is_empty());
    assert!(Type::Unit.free_type_vars().is_empty());
    assert_eq!(var("x").free_type_vars().len(), 1);
}

#[test]
fn schemes_hold_their_guards() {
    let scheme = Scheme::new(vec!["a".to_string(), "b".to_string(), "a".to_string()], var("a"));
    assert_eq!(scheme.guards.len(), 2);
    assert!(scheme.guards.contains("a") && scheme.guards.contains("b"));
    assert_eq!(scheme.body, var("a"));
    let one = Scheme::for_all("x".to_string(), Type::Int);
    assert_eq!(one.guards.len(), 1);
    assert!(one.guards.contains("x"));
    let none = Scheme::concrete(Type::Unit);
    assert!(none.guards.is_empty());
    assert_eq!(none.body, Type::Unit);
    let copy = scheme.clone();
    assert_eq!(copy.guards, scheme.guards);
    assert_eq!(copy.body, scheme.body);
    let same = Scheme::from(copy.guards.clone(), Type::Int);
    assert_eq!(same.guards, scheme.guards);
    let mapped = scheme.map_body(|body| arrow(body, Type::Int));
    assert_eq!(mapped.body, arrow(var("a"), Type::Int));
    assert_eq!(mapped.guards, scheme.guards);
}

#[test]
fn substitutions_replace_bound_variables_once() {
    let sub = bind("a", arrow(var("b"), Type::Int));
    assert_eq!(sub.apply(var("a")), arrow(var("b"), Type::Int));
    assert_eq!(sub.apply(var("b")), var("b"));
    assert_eq!(sub.apply(Type::Int), Type::Int);
    assert_eq!(sub.apply(Type::Unit), Type::Unit);
    assert_eq!(
        sub.apply(arrow(var("a"), var("c"))),
        arrow(arrow(var("b"), Type::Int), var("c"))
    );
    assert_eq!(Substitution::default().apply(var("a")), var("a"));
    assert_eq!(sub.clone().apply(var("a")), arrow(var("b"), Type::Int));
}

#[test]
fn binding_checks_for_occurrence() {
    assert!(Substitution::bind("a".to_string(), arrow(var("a"), Type::Int)).is_none());
    assert!(Substitution::bind("a".to_string(), arrow(Type::Int, var("a"))).is_none());
    let same = bind("a", var("a"));
    assert_eq!(same.apply(var("a")), var("a"));
    let other = bind("a", var("b"));
    assert_eq!(other.apply(var("a")), var("b"));
}

#[test]
fn composition_applies_this_to_the_other() {
    let this = bind("a", Type::Int);
    let other = bind("b", arrow(var("a"), var("c")));
    let both = this.union(&other);
    assert_eq!(both.apply(var("b")), arrow(Type::Int, var("c")));
    assert_eq!(both.apply(var("a")), Type::Int);
    assert_eq!(both.apply(var("c")), var("c"));
}

#[test]
fn composition_keeps_the_value_of_the_larger_side() {
    // as many bindings on each side: the other's binding, with this applied, stays
    let this = bind("a", Type::Int);
    let other = bind("a", Type::Unit);
    assert_eq!(this.union(&other).apply(var("a")), Type::Unit);
    // this side holds more bindings: its own binding stays
    let this = bind("a", Type::Int).union(&bind("b", Type::Int)).union(&bind("c", Type::Int));
    assert_eq!(this.apply(var("b")), Type::Int);
    let other = bind("a", Type::Unit);
    let both = this.union(&other);
    assert_eq!(both.apply(var("a")), Type::Int);
    assert_eq!(both.apply(var("c")), Type::Int);
}

#[test]
fn bindings_can_be_left_out() {
    let sub = bind("a", Type::Int).union(&bind("b", Type::Unit));
    let guards = Scheme::new(vec!["a".to_string(), "z".to_string()], Type::Unit).guards;
    let rest = sub.without(&guards);
    assert_eq!(rest.apply(var("a")), var("a"));
    assert_eq!(rest.apply(var("b")), Type::Unit);
    assert_eq!(sub.apply(var("a")), Type::Int);
    let none = Scheme::concrete(Type::Unit).guards;
    assert_eq!(sub.without(&none).apply(var("a")), Type::Int);
}

#[test]
fn schemes_shield_their_guards() {
    let sub = bind("a", Type::Int).union(&bind("b", Type::Unit));
    let scheme = Scheme::for_all("a".to_string(), arrow(var("a"), var("b")));
    let changed = sub.apply_scheme(scheme);
    assert_eq!(changed.body, arrow(var("a"), Type::Unit));
    assert!(changed.guards.contains("a"));
    assert_eq!(changed.guards.len(), 1);
}

#[test]
fn contexts_bind_names_to_schemes() {
    let ctx = context();
    assert!(ctx.lookup(&"nowhere".to_string()).is_none());
    assert!(Context::default().lookup(&"id".to_string()).is_none());
    let id = ctx.lookup(&"id".to_string()).unwrap();
    assert_eq!(id.body, arrow(var("a"), var("a")));
    assert!(id.guards.contains("a"));
    let add = ctx.clone().lookup(&"add".to_string()).unwrap();
    assert_eq!(add.body, arrow(Type::Int, arrow(Type::Int, Type::Int)));
    let shadowed = ctx.update("id".to_string(), Scheme::concrete(Type::Unit));
    assert_eq!(shadowed.lookup(&"id".to_string()).unwrap().body, Type::Unit);
    assert_eq!(ctx.lookup(&"id".to_string()).unwrap().body, arrow(var("a"), var("a")));
}

#[test]
fn substitutions_apply_to_every_scheme_of_a_context() {
    let ctx = Context::default()
        .update("x".to_string(), Scheme::concrete(var("a")))
        .update("y".to_string(), Scheme::for_all("a".to_string(), arrow(var("a"), var("b"))))
        .update("z".to_string(), Scheme::concrete(Type::Int));
    let sub = bind("a", Type::Int).union(&bind("b", Type::Unit));
    let changed = sub.apply_context(ctx);
    assert_eq!(changed.lookup(&"x".to_string()).unwrap().body, Type::Int);
    assert_eq!(changed.lookup(&"y".to_string()).unwrap().body, arrow(var("a"), Type::Unit));
    assert_eq!(changed.lookup(&"z".to_string()).unwrap().body, Type::Int);
    assert!(changed.lookup(&"w".to_string()).is_none());
}

#[test]
fn unification_binds_variables() {
    let unify = |a: &Type, b: &Type| Substitution::unify(a, b);
    assert!(unify(&Type::Int, &Type::Int).is_some());
    assert!(unify(&Type::Unit, &Type::Unit).is_some());
    assert!(unify(&Type::Int, &Type::Unit).is_none());
    assert!(unify(&Type::Unit, &arrow(Type::Unit, Type::Unit)).is_none());
    assert!(unify(&arrow(Type::Int, Type::Int), &Type::Int).is_none());
    assert_eq!(unify(&var("a"), &Type::Int).unwrap().apply(var("a")), Type::Int);
    assert_eq!(unify(&Type::Unit, &var("a")).unwrap().apply(var("a")), Type::Unit);
    assert_eq!(unify(&var("a"), &var("b")).unwrap().apply(var("a")), var("b"));
    assert_eq!(unify(&var("a"), &var("b")).unwrap().apply(var("b")), var("b"));
    assert!(unify(&var("a"), &arrow(var("a"), Type::Int)).is_none());
    let sub = unify(&arrow(var("a"), var("b")), &arrow(Type::Int, arrow(var("a"), Type::Unit)))
        .unwrap();
    assert_eq!(sub.apply(var("a")), Type::Int);
    assert_eq!(sub.apply(var("b")), arrow(Type::Int, Type::Unit));
    assert!(unify(&arrow(var("a"), var("a")), &arrow(Type::Int, Type::Unit)).is_none());
}

#[test]
fn unification_stops_at_its_depth() {
    let left = arrow(Type::Int, arrow(Type::Int, var("a")));
    let right = arrow(Type::Int, arrow(Type::Int, Type::Unit));
    assert!(Substitution::unify_within(&left, &right, 1).is_none());
    assert!(Substitution::unify_within(&left, &right, 0).is_none());
    assert_eq!(Substitution::unify_within(&left, &right, 2).unwrap().apply(var("a")), Type::Unit);
    assert!(Substitution::unify_within(&var("z"), &left, 0).is_some());
    assert_eq!(Substitution::unify(&left, &right).unwrap().apply(var("a")), Type::Unit);
    let mut deep = Type::Int;
    let mut other = Type::Int;
    for _ in 0..1024 {
        deep = arrow(Type::Int, deep);
        other = arrow(Type::Int, other);
    }
    assert!(Substitution::unify(&deep, &other).is_some());
    deep = arrow(Type::Int, deep);
    other = arrow(Type::Int, other);
    assert!(Substitution::unify(&deep, &other).is_none());
}

#[test]
fn fresh_variables_are_numbered() {
    let mut fresh = Fresh::default();
    assert_eq!(fresh.next(), var("t0"));
    assert_eq!(fresh.next(), var("t1"));
    assert_eq!(fresh.take(3), vec![var("t2"), var("t3"), var("t4")]);
    assert_eq!(fresh.count, 5);
    let mut late = Fresh { count: 10 };
    assert_eq!(late.next(), var("t10"));
    assert_eq!(late.take(0), vec![]);
}

#[test]
fn instantiation_renames_guards_in_order_of_occurrence() {
    let scheme = Scheme::new(
        vec!["a".to_string(), "b".to_string(), "c".to_string()],
        arrow(var("b"), arrow(var("a"), arrow(var("b"), var("free")))),
    );
    let mut state = HindleyMilner { var: Fresh { count: 4 } };
    assert_eq!(
        state.instantiate(scheme),
        Some(arrow(var("t4"), arrow(var("t5"), arrow(var("t4"), var("free")))))
    );
    assert_eq!(state.var.count, 7);
    let mut state = HindleyMilner::default();
    assert_eq!(state.instantiate(Scheme::concrete(var("a"))), Some(var("a")));
    assert_eq!(state.var.count, 0);
    let mut full = HindleyMilner { var: Fresh { count: usize::MAX } };
    assert_eq!(full.instantiate(Scheme::for_all("a".to_string(), var("a"))), None);
}

#[test]
fn inference_is_deterministic() {
    let expr = || lambda("f", apply(apply(name("add"), apply(name("id"), name("f"))), Expr::Int(1)));
    let first = try_infer(context(), expr());
    assert_eq!(first, Some(arrow(Type::Int, Type::Int)));
    for _ in 0..5 {
        assert_eq!(try_infer(context(), expr()), first);
    }
}

#[test]
fn the_registry_states_the_types_it_can() {
    let id = stdlib::function("std.id").unwrap();
    assert_eq!(id.index, 0);
    assert_eq!(id.t.body, arrow(var("a"), var("a")));
    assert!(id.t.guards.contains("a"));
    assert_eq!(id.t.guards.len(), 1);
    for (name, index) in [("std.add", 2usize), ("std.sub", 3), ("std.mul", 4), ("std.div", 5)] {
        let f = stdlib::function(name).unwrap();
        assert_eq!(f.index, index);
        assert_eq!(f.t.body, arrow(Type::Int, arrow(Type::Int, Type::Int)));
        assert!(f.t.guards.is_empty());
    }
    let prints = stdlib::function("std.prints").unwrap();
    assert_eq!(prints.index, 6);
    assert_eq!(prints.t.body, arrow(var("a"), Type::Unit));
    assert!(prints.t.guards.contains("a"));
    assert!(stdlib::function("std.iff").is_none());
    assert!(stdlib::function("std.unknown").is_none());
    assert!(stdlib::function("main").is_none());
}

#[test]
fn substitutions_are_made_from_pairs() {
    let sub = Substitution::from(vec![
        ("a".to_string(), Type::Int),
        ("b".to_string(), var("a")),
        ("a".to_string(), Type::Unit),
    ]);
    assert_eq!(sub.apply(var("a")), Type::Unit);
    assert_eq!(sub.apply(var("b")), var("a"));
    assert_eq!(sub.apply(var("c")), var("c"));
    assert_eq!(Substitution::from(vec![]).apply(var("a")), var("a"));
}
