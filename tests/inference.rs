use hm_infer::expr::{Annot, Expr, ExprKind, Lit};
use hm_infer::infer::Context;
use hm_infer::types::{self, need_parens, Hole, HoleKind, Holes, Scheme, Type, TypeKind};
use hm_infer::unification::{occurs_check, unify, unify_hole, TypeError};

fn var(name: &str) -> Expr {
    Box::new(ExprKind::Var { name: name.to_string() })
}

fn lam(v: &str, body: Expr) -> Expr {
    Box::new(ExprKind::Lam { var: v.to_string(), body })
}

fn app(fun: Expr, arg: Expr) -> Expr {
    Box::new(ExprKind::App { fun, arg })
}

fn let_in(binding: &str, val: Expr, next: Expr) -> Expr {
    Box::new(ExprKind::Let { binding: binding.to_string(), val, next })
}

fn lit(val: Lit) -> Expr {
    Box::new(ExprKind::Lit { val })
}

fn identity() -> Expr {
    lam("x", var("x"))
}

fn tvar(name: &str) -> Type {
    Box::new(TypeKind::Var(name.to_string()))
}

fn thole(i: usize) -> Type {
    Box::new(TypeKind::Hole(Hole(i)))
}

fn arrow(a: Type, b: Type) -> Type {
    Box::new(TypeKind::Arrow(a, b))
}

/// Renders a type, following filled holes.
fn show(t: &TypeKind, holes: &Holes) -> String {
    match t {
        TypeKind::Var(name) => name.clone(),
        TypeKind::Generalized(n) => format!("gen_{n}"),
        TypeKind::Hole(h) => match &holes.cells[h.0] {
            HoleKind::Filled(c) => show(c, holes),
            HoleKind::Empty(name, _) => name.clone(),
        },
        TypeKind::Arrow(a, b) => {
            if need_parens(a, holes) {
                format!("({}) -> {}", show(a, holes), show(b, holes))
            } else {
                format!("{} -> {}", show(a, holes), show(b, holes))
            }
        }
    }
}

fn infer_shown(e: Expr) -> Result<String, TypeError> {
    let mut ctx = Context::new();
    let (_, t) = ctx.infer(e)?;
    Ok(show(&t, &ctx.holes))
}

fn is_var(t: &TypeKind, name: &str) -> bool {
    matches!(t, TypeKind::Var(n) if n == name)
}

#[test]
fn literal_int_has_int_type() {
    let mut ctx = Context::new();
    let (_, t) = ctx.infer(lit(Lit::Int(42))).unwrap();
    assert!(is_var(&t, "Int"));
    assert_eq!(ctx.holes.cells.len(), 0);
}

#[test]
fn literal_bool_has_bool_type() {
    let mut ctx = Context::new();
    let (_, t) = ctx.infer(lit(Lit::Bool(true))).unwrap();
    assert!(is_var(&t, "Bool"));
    assert_eq!(ctx.holes.cells.len(), 0);
}

#[test]
fn literal_string_has_string_type() {
    let mut ctx = Context::new();
    let (_, t) = ctx.infer(lit(Lit::String("hey!".to_string()))).unwrap();
    assert!(is_var(&t, "String"));
    assert_eq!(ctx.holes.cells.len(), 0);
}

#[test]
fn identity_is_arrow_from_a_hole_to_itself() {
    let mut ctx = Context::new();
    let (_, t) = ctx.infer(identity()).unwrap();
    match *t {
        TypeKind::Arrow(d, c) => match (*d, *c) {
            (TypeKind::Hole(a), TypeKind::Hole(b)) => {
                assert!(a == b);
                assert!(matches!(ctx.holes.cells[a.0], HoleKind::Empty(_, _)));
            }
            _ => panic!("expected holes on both sides"),
        },
        _ => panic!("expected an arrow"),
    }
}

#[test]
fn let_bound_identity_applies_to_itself() {
    let e = let_in("id", identity(), app(var("id"), var("id")));
    let mut ctx = Context::new();
    let (_, t) = ctx.infer(e).unwrap();
    let forced = t.instantiate(&[], &ctx.holes);
    match *forced {
        TypeKind::Arrow(d, c) => match (*d, *c) {
            (TypeKind::Hole(a), TypeKind::Hole(b)) => assert!(a == b),
            _ => panic!("expected holes on both sides"),
        },
        _ => panic!("expected an arrow"),
    }
}

#[test]
fn lambda_bound_identity_does_not_apply_to_itself() {
    let e = app(lam("id", app(var("id"), var("id"))), identity());
    let r = Context::new().infer(e);
    assert!(matches!(r, Err(TypeError::OccursCheckFailure(_, _))));
}

#[test]
fn let_generalizes_local_holes_only() {
    // λy. let f = λx. y in f
    let e = lam("y", let_in("f", lam("x", var("y")), var("f")));
    let mut ctx = Context::new();
    let (_, t) = ctx.infer(e).unwrap();
    // the hole of y was born outside the let: it stays free
    assert!(matches!(ctx.holes.cells[0], HoleKind::Empty(_, 0)));
    // the hole of x was born inside: it is quantified
    match &ctx.holes.cells[1] {
        HoleKind::Filled(g) => assert!(matches!(**g, TypeKind::Generalized(0))),
        _ => panic!("expected a generalized hole"),
    }
    assert_eq!(show(&t, &ctx.holes), "t_0 -> t_3 -> t_0");
}

#[test]
fn generalize_numbers_holes_domain_first() {
    let mut ctx = Context::new();
    ctx.enter_level();
    let a = ctx.new_hole_type();
    let b = ctx.new_hole_type();
    ctx.exit_level();
    let t = arrow(a, arrow(b, thole(0)));
    let scheme = ctx.generalize(t);
    assert_eq!(scheme.binds.len(), 2);
    match &ctx.holes.cells[0] {
        HoleKind::Filled(g) => assert!(matches!(**g, TypeKind::Generalized(0))),
        _ => panic!("expected a generalized hole"),
    }
    match &ctx.holes.cells[1] {
        HoleKind::Filled(g) => assert!(matches!(**g, TypeKind::Generalized(1))),
        _ => panic!("expected a generalized hole"),
    }
    assert_eq!(scheme.binds[0], "t_2");
    assert_eq!(scheme.binds[1], "t_3");
}

#[test]
fn generalize_keeps_holes_of_the_current_level() {
    let mut ctx = Context::new();
    let a = ctx.new_hole_type();
    let scheme = ctx.generalize(a);
    assert_eq!(scheme.binds.len(), 0);
    assert!(matches!(ctx.holes.cells[0], HoleKind::Empty(_, 0)));
}

#[test]
fn occurs_check_fails_on_direct_cycle() {
    let mut holes = Holes::new();
    let h = Hole::new(&mut holes, "a".to_string(), 0);
    let t = arrow(thole(h.0), types::integer());
    let r = unify(&TypeKind::Hole(h), &t, &mut holes);
    assert!(matches!(r, Err(TypeError::OccursCheckFailure(_, _))));
    assert!(matches!(holes.cells[0], HoleKind::Empty(_, _)));
}

#[test]
fn occurs_check_fails_through_filled_hole() {
    let mut holes = Holes::new();
    let a = Hole::new(&mut holes, "a".to_string(), 0);
    let b = Hole::new(&mut holes, "b".to_string(), 0);
    b.fill_with(&mut holes, arrow(thole(a.0), types::bool()));
    assert!(occurs_check(a, &TypeKind::Hole(b), &holes));
    let r = unify(&TypeKind::Hole(a), &TypeKind::Hole(b), &mut holes);
    assert!(matches!(r, Err(TypeError::OccursCheckFailure(_, _))));
    let r = unify(&TypeKind::Hole(b), &TypeKind::Hole(a), &mut holes);
    assert!(matches!(r, Err(TypeError::OccursCheckFailure(_, _))));
}

#[test]
fn occurs_check_is_false_for_other_holes() {
    let mut holes = Holes::new();
    let a = Hole::new(&mut holes, "a".to_string(), 0);
    let b = Hole::new(&mut holes, "b".to_string(), 0);
    assert!(!occurs_check(a, &TypeKind::Hole(b), &holes));
    assert!(!occurs_check(a, &types::integer(), &holes));
    assert!(occurs_check(a, &arrow(types::integer(), thole(a.0)), &holes));
}

#[test]
fn annotated_let_rejects_wrong_value() {
    let e = Box::new(ExprKind::LetTyp {
        annot: Annot { var: "batata".to_string(), t: types::string() },
        val: lit(Lit::Int(42)),
        next: var("batata"),
    });
    match Context::new().infer(e) {
        Err(TypeError::UnificationMismatch(a, b)) => {
            assert!(is_var(&a, "Int"));
            assert!(is_var(&b, "String"));
        }
        _ => panic!("expected a mismatch"),
    }
}

#[test]
fn annotated_let_accepts_matching_value() {
    let e = Box::new(ExprKind::LetTyp {
        annot: Annot { var: "batata".to_string(), t: types::string() },
        val: lit(Lit::String("pure de batata".to_string())),
        next: var("batata"),
    });
    assert_eq!(infer_shown(e).ok().unwrap(), "String");
}

#[test]
fn applying_string_function_to_int_fails() {
    let f = Box::new(ExprKind::LamTyp {
        annot: Annot { var: "s".to_string(), t: types::string() },
        body: var("s"),
    });
    match Context::new().infer(app(f, lit(Lit::Int(1)))) {
        Err(TypeError::UnificationMismatch(a, b)) => {
            assert!(is_var(&a, "String"));
            assert!(is_var(&b, "Int"));
        }
        _ => panic!("expected a mismatch"),
    }
}

#[test]
fn applying_bool_function_to_string_fails() {
    let f = Box::new(ExprKind::LamTyp {
        annot: Annot { var: "b".to_string(), t: types::bool() },
        body: var("b"),
    });
    let r = Context::new().infer(app(f, lit(Lit::String("why?".to_string()))));
    assert!(matches!(r, Err(TypeError::UnificationMismatch(_, _))));
}

#[test]
fn annotated_lambda_has_declared_domain() {
    let f = Box::new(ExprKind::LamTyp {
        annot: Annot { var: "b".to_string(), t: types::bool() },
        body: var("b"),
    });
    assert_eq!(infer_shown(f).ok().unwrap(), "Bool -> Bool");
}

#[test]
fn instantiations_never_share_holes() {
    let mut ctx = Context::new();
    let scheme = Scheme::new(
        vec!["a".to_string()],
        arrow(Box::new(TypeKind::Generalized(0)), Box::new(TypeKind::Generalized(0))),
    );
    let first = ctx.instantiate(scheme.duplicate());
    let second = ctx.instantiate(scheme);
    let holes_of = |t: &TypeKind| match t {
        TypeKind::Arrow(a, b) => match (&**a, &**b) {
            (TypeKind::Hole(x), TypeKind::Hole(y)) => (*x, *y),
            _ => panic!("expected holes"),
        },
        _ => panic!("expected an arrow"),
    };
    let (a1, b1) = holes_of(&first);
    let (a2, b2) = holes_of(&second);
    assert!(a1 == b1);
    assert!(a2 == b2);
    assert!(a1 != a2);
    assert_eq!(ctx.holes.cells.len(), 2);
}

#[test]
fn instantiate_leaves_out_of_range_index() {
    let holes = Holes::new();
    let t = TypeKind::Generalized(3);
    let r = t.instantiate(&[types::integer()], &holes);
    assert!(matches!(*r, TypeKind::Generalized(3)));
    let t = TypeKind::Generalized(0);
    let r = t.instantiate(&[types::integer()], &holes);
    assert!(is_var(&r, "Int"));
}

#[test]
fn unbound_variable_is_reported() {
    match Context::new().infer(var("nope")) {
        Err(TypeError::UnboundVariable(name)) => assert_eq!(name, "nope"),
        _ => panic!("expected an unbound variable"),
    }
}

#[test]
fn lambda_scope_does_not_leak() {
    let e = app(lam("x", var("x")), var("x"));
    assert!(matches!(Context::new().infer(e), Err(TypeError::UnboundVariable(_))));
}

#[test]
fn first_projection_applied_to_int() {
    let fst = lam("a", lam("b", var("a")));
    assert_eq!(infer_shown(app(fst, lit(Lit::Int(1)))).ok().unwrap(), "t_1 -> Int");
}

#[test]
fn apply_combinator_type() {
    let apply = lam("f", lam("arg", app(var("f"), var("arg"))));
    assert_eq!(infer_shown(apply).ok().unwrap(), "(t_1 -> t_2) -> t_1 -> t_2");
}

#[test]
fn identity_applied_to_string() {
    assert_eq!(infer_shown(app(identity(), lit(Lit::String("hey!".to_string())))).ok().unwrap(), "String");
}

#[test]
fn let_bound_identity_is_polymorphic_in_use() {
    let e = let_in("bar", identity(), var("bar"));
    assert_eq!(infer_shown(e).ok().unwrap(), "t_2 -> t_2");
}

#[test]
fn unify_equal_variables_succeeds() {
    let mut holes = Holes::new();
    assert!(unify(&types::integer(), &types::integer(), &mut holes).is_ok());
}

#[test]
fn unify_fills_hole() {
    let mut holes = Holes::new();
    let h = Hole::new(&mut holes, "a".to_string(), 0);
    assert!(unify(&TypeKind::Hole(h), &types::bool(), &mut holes).is_ok());
    match h.get(&holes) {
        HoleKind::Filled(t) => assert!(is_var(&t, "Bool")),
        _ => panic!("expected a filled hole"),
    }
    assert!(unify(&types::bool(), &TypeKind::Hole(h), &mut holes).is_ok());
    assert!(unify(&types::integer(), &TypeKind::Hole(h), &mut holes).is_err());
}

#[test]
fn unify_arrow_mismatch_names_inner_operands() {
    let mut holes = Holes::new();
    let r = unify(
        &arrow(types::integer(), types::bool()),
        &arrow(types::integer(), types::string()),
        &mut holes,
    );
    match r {
        Err(TypeError::UnificationMismatch(a, b)) => {
            assert!(is_var(&a, "Bool"));
            assert!(is_var(&b, "String"));
        }
        _ => panic!("expected a mismatch"),
    }
}

#[test]
fn unify_variable_with_arrow_fails() {
    let mut holes = Holes::new();
    let r = unify(&types::integer(), &arrow(types::integer(), types::integer()), &mut holes);
    assert!(matches!(r, Err(TypeError::UnificationMismatch(_, _))));
}

#[test]
fn unify_generalized_indices() {
    let mut holes = Holes::new();
    assert!(unify(&TypeKind::Generalized(1), &TypeKind::Generalized(1), &mut holes).is_ok());
    assert!(unify(&TypeKind::Generalized(1), &TypeKind::Generalized(2), &mut holes).is_err());
}

#[test]
fn unify_hole_flipped_keeps_operand_order() {
    let mut holes = Holes::new();
    let h = Hole::new(&mut holes, "a".to_string(), 0);
    h.fill_with(&mut holes, types::integer());
    match unify_hole(h, &types::string(), true, &mut holes) {
        Err(TypeError::UnificationMismatch(a, b)) => {
            assert!(is_var(&a, "String"));
            assert!(is_var(&b, "Int"));
        }
        _ => panic!("expected a mismatch"),
    }
}

#[test]
fn new_holes_are_named_in_order() {
    let mut ctx = Context::new();
    ctx.new_hole_type();
    ctx.new_hole_type();
    match (&ctx.holes.cells[0], &ctx.holes.cells[1]) {
        (HoleKind::Empty(a, 0), HoleKind::Empty(b, 0)) => {
            assert_eq!(a, "t_0");
            assert_eq!(b, "t_1");
        }
        _ => panic!("expected empty holes"),
    }
    assert_eq!(ctx.current_id, 2);
}

#[test]
fn levels_go_up_and_down() {
    let mut ctx = Context::default();
    ctx.enter_level();
    ctx.enter_level();
    assert_eq!(ctx.current_level, 2);
    let t = ctx.new_hole_type();
    assert!(matches!(*t, TypeKind::Hole(Hole(0))));
    assert!(matches!(ctx.holes.cells[0], HoleKind::Empty(_, 2)));
    ctx.exit_level();
    assert_eq!(ctx.current_level, 1);
}

#[test]
fn hole_cell_can_be_written_in_place() {
    let mut holes = Holes::new();
    let h = Hole::new(&mut holes, "a".to_string(), 3);
    *h.get_mut(&mut holes) = HoleKind::Empty("b".to_string(), 4);
    assert!(matches!(h.get(&holes), HoleKind::Empty(ref n, 4) if n == "b"));
}

#[test]
fn need_parens_follows_filled_holes() {
    let mut holes = Holes::new();
    let h = Hole::new(&mut holes, "a".to_string(), 0);
    assert!(!need_parens(&TypeKind::Hole(h), &holes));
    h.fill_with(&mut holes, arrow(types::integer(), types::integer()));
    assert!(need_parens(&TypeKind::Hole(h), &holes));
    assert!(!need_parens(&types::integer(), &holes));
}

#[test]
fn duplicate_copies_the_whole_tree() {
    let t = arrow(types::integer(), arrow(thole(0), tvar("X")));
    let holes = Holes { cells: vec![HoleKind::Empty("a".to_string(), 0)], ..Holes::new() };
    assert_eq!(show(&t.duplicate(), &holes), "Int -> a -> X");
}

#[test]
fn generalize_numbers_through_filled_holes() {
    let mut ctx = Context::new();
    ctx.enter_level();
    let a = ctx.new_hole_type();
    let b = ctx.new_hole_type();
    let c = ctx.new_hole_type();
    ctx.exit_level();
    // c stands for b -> a, so the walk meets b before a
    Hole(2).fill_with(&mut ctx.holes, arrow(b, thole(0)));
    let scheme = ctx.generalize(arrow(c, a));
    assert_eq!(scheme.binds.len(), 2);
    match (&ctx.holes.cells[0], &ctx.holes.cells[1]) {
        (HoleKind::Filled(ga), HoleKind::Filled(gb)) => {
            assert!(matches!(**ga, TypeKind::Generalized(1)));
            assert!(matches!(**gb, TypeKind::Generalized(0)));
        }
        _ => panic!("expected generalized holes"),
    }
    let t = scheme.t.instantiate(&[types::integer(), types::bool()], &ctx.holes);
    assert_eq!(show(&t, &ctx.holes), "(Int -> Bool) -> Bool");
}

#[test]
fn annotated_let_binds_the_declared_type() {
    // the declared type, not the value's, is what the variable is bound to;
    // after unification both stand for the same type
    let e = Box::new(ExprKind::LetTyp {
        annot: Annot {
            var: "f".to_string(),
            t: arrow(types::integer(), types::integer()),
        },
        val: identity(),
        next: var("f"),
    });
    assert_eq!(infer_shown(e).ok().unwrap(), "Int -> Int");
}

#[test]
fn unify_hole_with_itself_fills_nothing() {
    let mut holes = Holes::new();
    let a = Hole::new(&mut holes, "a".to_string(), 0);
    assert!(unify(&TypeKind::Hole(a), &TypeKind::Hole(a), &mut holes).is_ok());
    assert!(matches!(holes.cells[0], HoleKind::Empty(_, _)));
}

#[test]
fn hole_met_through_filled_hole_fails_occurs_check() {
    let mut holes = Holes::new();
    let a = Hole::new(&mut holes, "a".to_string(), 0);
    let b = Hole::new(&mut holes, "b".to_string(), 0);
    b.fill_with(&mut holes, thole(a.0));
    let r = unify(&TypeKind::Hole(a), &TypeKind::Hole(b), &mut holes);
    assert!(matches!(r, Err(TypeError::OccursCheckFailure(_, _))));
    assert!(matches!(holes.cells[0], HoleKind::Empty(_, _)));
    let r = unify_hole(a, &TypeKind::Hole(a), false, &mut holes);
    assert!(matches!(r, Err(TypeError::OccursCheckFailure(_, _))));
    // from the filled side the walk reaches the identical cell
    assert!(unify(&TypeKind::Hole(b), &TypeKind::Hole(a), &mut holes).is_ok());
}

#[test]
fn unify_crossed_arrows_of_holes() {
    let mut holes = Holes::new();
    let a = Hole::new(&mut holes, "a".to_string(), 0);
    let b = Hole::new(&mut holes, "b".to_string(), 0);
    let l = arrow(thole(a.0), thole(b.0));
    let r = arrow(thole(b.0), thole(a.0));
    let res = unify(&l, &r, &mut holes);
    assert!(matches!(res, Err(TypeError::OccursCheckFailure(_, _))));
}

#[test]
fn unify_arrow_mismatch_in_domain_fills_nothing() {
    let mut holes = Holes::new();
    let h = Hole::new(&mut holes, "h".to_string(), 0);
    let r = Hole::new(&mut holes, "r".to_string(), 0);
    let res = unify(
        &arrow(types::string(), thole(h.0)),
        &arrow(types::integer(), thole(r.0)),
        &mut holes,
    );
    match res {
        Err(TypeError::UnificationMismatch(a, b)) => {
            assert!(is_var(&a, "String"));
            assert!(is_var(&b, "Int"));
        }
        _ => panic!("expected a mismatch"),
    }
    assert!(matches!(holes.cells[0], HoleKind::Empty(_, _)));
    assert!(matches!(holes.cells[1], HoleKind::Empty(_, _)));
}

#[test]
fn unify_hole_with_type_fills_it() {
    let mut holes = Holes::new();
    let h = Hole::new(&mut holes, "h".to_string(), 0);
    let t = arrow(types::integer(), types::bool());
    assert!(unify(&t, &TypeKind::Hole(h), &mut holes).is_ok());
    assert_eq!(show(&TypeKind::Hole(h), &holes), "Int -> Bool");
}

#[test]
fn unbound_variable_leaves_context_unchanged() {
    let mut ctx = Context::new();
    ctx.new_hole_type();
    let r = ctx.infer(var("z"));
    assert!(matches!(r, Err(TypeError::UnboundVariable(ref n)) if n == "z"));
    assert_eq!(ctx.holes.cells.len(), 1);
    assert_eq!(ctx.current_id, 1);
    assert_eq!(ctx.types.len(), 0);
}

#[test]
fn fresh_id_counter_only_grows() {
    let mut ctx = Context::new();
    let e = let_in("id", identity(), app(var("id"), var("id")));
    ctx.infer(e).unwrap();
    let after_first = ctx.current_id;
    assert!(after_first > 0);
    ctx.infer(lit(Lit::Int(1))).unwrap();
    assert_eq!(ctx.current_id, after_first);
}

#[test]
fn outer_hole_keeps_let_holes_free() {
    // λy. let f = λx. (y x) in f
    let e = lam("y", let_in("f", lam("x", app(var("y"), var("x"))), var("f")));
    let mut ctx = Context::new();
    let (_, t) = ctx.infer(e).unwrap();
    let shown = show(&t, &ctx.holes);
    assert_eq!(shown, "(t_1 -> t_2) -> t_1 -> t_2");
    assert!(!shown.contains("gen_"));
    // x's hole and the result's hole now lead to new holes born at level 0
    assert!(matches!(ctx.holes.cells[3], HoleKind::Empty(_, 0)));
    assert!(matches!(ctx.holes.cells[4], HoleKind::Empty(_, 0)));
}

#[test]
fn filling_lowers_deeper_holes() {
    let mut holes = Holes::new();
    let outer = Hole::new(&mut holes, "o".to_string(), 0);
    let inner = Hole::new(&mut holes, "i".to_string(), 2);
    assert!(unify(&TypeKind::Hole(outer), &arrow(thole(inner.0), types::integer()), &mut holes).is_ok());
    assert_eq!(holes.cells.len(), 3);
    match &holes.cells[1] {
        HoleKind::Filled(c) => assert!(matches!(**c, TypeKind::Hole(Hole(2)))),
        _ => panic!("expected the deeper hole to be filled"),
    }
    assert!(matches!(holes.cells[2], HoleKind::Empty(ref n, 0) if n == "i"));
    assert_eq!(show(&TypeKind::Hole(outer), &holes), "i -> Int");
}
