use lambda_sub::syntax::{Bind, Context, Term, TokenInfo, Type, add_bind, index2name, init_context, pop_bind};
use lambda_sub::ts::{TypeError, contains_arith, sub_type, ty_eq, type_of};

fn ti() -> TokenInfo {
    TokenInfo::default()
}

fn tru() -> Term {
    Term::True(ti())
}

fn fls() -> Term {
    Term::False(ti())
}

fn zero() -> Term {
    Term::Zero(ti())
}

fn var(k: i32, n: i32) -> Term {
    Term::Var(ti(), k, n)
}

fn app(f: Term, a: Term) -> Term {
    Term::App(ti(), Box::new(f), Box::new(a))
}

fn abst(x: &str, ty: Type, body: Term) -> Term {
    Term::Abst(ti(), x.to_string(), ty, Box::new(body))
}

fn ite(c: Term, a: Term, b: Term) -> Term {
    Term::If(ti(), Box::new(c), Box::new(a), Box::new(b))
}

fn record(fields: Vec<(&str, Term)>) -> Term {
    Term::Record(ti(), fields.into_iter().map(|(l, t)| (l.to_string(), t)).collect())
}

fn proj(t: Term, l: &str) -> Term {
    Term::Proj(ti(), Box::new(t), l.to_string())
}

fn rec_ty(fields: Vec<(&str, Type)>) -> Type {
    Type::TyRecord(fields.into_iter().map(|(l, t)| (l.to_string(), t)).collect())
}

fn arr(a: Type, b: Type) -> Type {
    Type::TyArr(Box::new(a), Box::new(b))
}

fn check(t: &Term) -> Result<Type, TypeError> {
    let mut ctx: Context = init_context();
    type_of(t, &mut ctx)
}

#[test]
fn booleans_have_type_bool() {
    assert!(matches!(check(&tru()), Ok(Type::TyBool)));
    assert!(matches!(check(&fls()), Ok(Type::TyBool)));
}

#[test]
fn identity_application_has_type_bool() {
    let t = app(abst("x", Type::TyBool, var(0, 1)), tru());
    assert!(matches!(check(&t), Ok(Type::TyBool)));
}

#[test]
fn abstraction_has_arrow_type() {
    let t = abst("x", Type::TyBool, var(0, 1));
    match check(&t) {
        Ok(Type::TyArr(dom, rng)) => {
            assert!(matches!(*dom, Type::TyBool));
            assert!(matches!(*rng, Type::TyBool));
        },
        other => panic!("expected an arrow type, got {:?}", other),
    }
}

#[test]
fn projection_types_to_the_field_type() {
    let t = proj(record(vec![("a", tru()), ("b", fls())]), "a");
    assert!(matches!(check(&t), Ok(Type::TyBool)));
}

#[test]
fn width_subtyping_accepts_a_wider_argument() {
    // A function over {x:Bool} takes the two-field literal: width
    // subtyping at the application site.
    let dom = rec_ty(vec![("x", Type::TyBool)]);
    let t = app(abst("r", dom, var(0, 1)), record(vec![("x", tru()), ("y", fls())]));
    match check(&t) {
        Ok(Type::TyRecord(fields)) => {
            assert_eq!(fields.len(), 1);
            assert_eq!(fields[0].0, "x");
            assert!(matches!(fields[0].1, Type::TyBool));
        },
        other => panic!("expected a record type, got {:?}", other),
    }
}

#[test]
fn wider_record_is_subtype_of_narrower() {
    let s = rec_ty(vec![("x", Type::TyBool), ("y", Type::TyBool)]);
    let t = rec_ty(vec![("x", Type::TyBool)]);
    assert!(sub_type(&s, &t));
    assert!(!sub_type(&t, &s));
}

#[test]
fn depth_subtyping_goes_through_nested_records() {
    let s = rec_ty(vec![("x", rec_ty(vec![("a", Type::TyBool), ("b", Type::TyBool)]))]);
    let t = rec_ty(vec![("x", rec_ty(vec![("a", Type::TyBool)]))]);
    assert!(sub_type(&s, &t));
    assert!(!sub_type(&t, &s));
}

#[test]
fn every_type_is_below_top() {
    assert!(sub_type(&Type::TyBool, &Type::TyTop));
    assert!(sub_type(&Type::TyTop, &Type::TyTop));
    assert!(sub_type(&rec_ty(vec![]), &Type::TyTop));
    assert!(sub_type(&arr(Type::TyBool, Type::TyBool), &Type::TyTop));
    assert!(!sub_type(&Type::TyTop, &Type::TyBool));
}

#[test]
fn arrow_subtyping_is_contravariant_then_covariant() {
    // {x:Bool} -> {x:Bool,y:Bool}  <:  {x:Bool,y:Bool} -> {x:Bool}
    let narrow = rec_ty(vec![("x", Type::TyBool)]);
    let wide = rec_ty(vec![("x", Type::TyBool), ("y", Type::TyBool)]);
    let s = arr(narrow, rec_ty(vec![("x", Type::TyBool), ("y", Type::TyBool)]));
    let t = arr(wide, rec_ty(vec![("x", Type::TyBool)]));
    assert!(sub_type(&s, &t));
    assert!(!sub_type(&t, &s));
}

#[test]
fn record_types_are_equal_whatever_the_field_order() {
    let mut ctx: Context = init_context();
    let t1 = record(vec![("x", tru()), ("y", fls())]);
    let t2 = record(vec![("y", fls()), ("x", tru())]);
    let ty1 = type_of(&t1, &mut ctx).unwrap();
    let ty2 = type_of(&t2, &mut ctx).unwrap();
    assert!(ty_eq(&ty1, &ty2));
    assert!(ty_eq(&ty2, &ty1));
    assert!(!ty_eq(&ty1, &rec_ty(vec![("x", Type::TyBool)])));
}

#[test]
fn matching_branch_types_take_an_if_through() {
    let t = ite(tru(), record(vec![("a", tru())]), record(vec![("a", fls())]));
    match check(&t) {
        Ok(Type::TyRecord(fields)) => assert_eq!(fields[0].0, "a"),
        other => panic!("expected a record type, got {:?}", other),
    }
}

#[test]
fn branch_type_mismatch_is_reported() {
    let t = ite(tru(), record(vec![("a", tru())]), fls());
    assert!(matches!(check(&t), Err(TypeError::BranchMismatch(_))));
}

#[test]
fn arithmetic_terms_are_outside_the_typed_fragment() {
    // `if true then 0 else false` never reaches the branch comparison:
    // the typing relation has no rule for the numeric fragment at all,
    // and the checker's guard reports that first.
    let t = ite(tru(), zero(), fls());
    assert!(contains_arith(&t));
    assert!(!contains_arith(&ite(tru(), fls(), tru())));
}

#[test]
fn ill_typed_condition_is_reported() {
    let t = ite(record(vec![]), tru(), fls());
    assert!(matches!(check(&t), Err(TypeError::IllTypedCondition(_))));
}

#[test]
fn applying_a_non_function_is_reported() {
    let t = app(tru(), fls());
    assert!(matches!(check(&t), Err(TypeError::NotArrow(_))));
}

#[test]
fn narrower_argument_than_the_domain_is_reported() {
    // The function wants {x:Bool, y:Bool}; the argument has only x.
    let dom = rec_ty(vec![("x", Type::TyBool), ("y", Type::TyBool)]);
    let t = app(abst("r", dom, var(0, 1)), record(vec![("x", tru())]));
    assert!(matches!(check(&t), Err(TypeError::ParameterMismatch(_))));
}

#[test]
fn projecting_a_non_record_is_reported() {
    let t = proj(tru(), "a");
    assert!(matches!(check(&t), Err(TypeError::ExpectedRecordType(_))));
}

#[test]
fn missing_field_in_typing_is_reported() {
    let t = proj(record(vec![("a", tru())]), "b");
    match check(&t) {
        Err(TypeError::MissingField(_, l)) => assert_eq!(l, "b"),
        other => panic!("expected a missing-field error, got {:?}", other),
    }
}

#[test]
fn unbound_variable_is_reported() {
    assert!(matches!(check(&var(0, 0)), Err(TypeError::UnboundVariable(_))));
    assert!(matches!(check(&var(-1, 0)), Err(TypeError::UnboundVariable(_))));
}

#[test]
fn name_binding_carries_no_type_information() {
    let mut ctx: Context = init_context();
    add_bind(&mut ctx, "free", Bind::NameBind);
    let r = type_of(&var(0, 1), &mut ctx);
    assert!(matches!(r, Err(TypeError::NoTypeInfo(_))));
}

#[test]
fn context_is_returned_unchanged_by_type_of() {
    let mut ctx: Context = init_context();
    add_bind(&mut ctx, "outer", Bind::VarBind(Type::TyBool));
    let t = abst("x", rec_ty(vec![("a", Type::TyBool)]), var(1, 2));
    let r = type_of(&t, &mut ctx);
    assert!(r.is_ok());
    assert_eq!(ctx.len(), 1);
    assert_eq!(index2name(&ctx, 0), "outer");
}

#[test]
fn bindings_stack_innermost_first() {
    let mut ctx: Context = init_context();
    add_bind(&mut ctx, "a", Bind::NameBind);
    let idx = add_bind(&mut ctx, "b", Bind::NameBind);
    assert_eq!(idx, 0);
    assert_eq!(index2name(&ctx, 0), "b");
    assert_eq!(index2name(&ctx, 1), "a");
    pop_bind(&mut ctx);
    assert_eq!(index2name(&ctx, 0), "a");
    pop_bind(&mut ctx);
    assert_eq!(ctx.len(), 0);
    pop_bind(&mut ctx);
    assert_eq!(ctx.len(), 0);
}

#[test]
fn the_result_type_may_narrow_under_evaluation() {
    // Static type {x:Bool}; the value that comes out is the wider record,
    // whose type is a subtype of the static one.
    let dom = rec_ty(vec![("x", Type::TyBool)]);
    let t = app(abst("r", dom, var(0, 1)), record(vec![("x", tru()), ("y", fls())]));
    let static_ty = check(&t).unwrap();
    let v = lambda_sub::eval::eval(&init_context(), &t, 1000).unwrap();
    let value_ty = check(&v).unwrap();
    assert!(sub_type(&value_ty, &static_ty));
    assert!(!ty_eq(&value_ty, &static_ty));
}

#[test]
fn subtyping_is_reflexive_and_transitive_on_samples() {
    let a = rec_ty(vec![("x", Type::TyBool), ("y", Type::TyBool), ("z", Type::TyBool)]);
    let b = rec_ty(vec![("x", Type::TyBool), ("y", Type::TyBool)]);
    let c = rec_ty(vec![("x", Type::TyBool)]);
    for t in [&Type::TyBool, &Type::TyTop, &arr(Type::TyBool, Type::TyTop), &a, &b, &c] {
        assert!(sub_type(t, t));
    }
    assert!(sub_type(&a, &b));
    assert!(sub_type(&b, &c));
    assert!(sub_type(&a, &c));
}

#[test]
fn well_typed_non_values_always_take_a_step() {
    // With a step budget of zero, the evaluator reports fuel exhaustion
    // exactly when a reduction rule applies to the term.
    let terms = vec![
        app(abst("x", Type::TyBool, var(0, 1)), tru()),
        ite(tru(), fls(), tru()),
        proj(record(vec![("a", tru())]), "a"),
        record(vec![("a", ite(fls(), tru(), fls()))]),
    ];
    for t in terms {
        assert!(check(&t).is_ok());
        let r = lambda_sub::eval::eval(&init_context(), &t, 0);
        assert!(matches!(r, Err(lambda_sub::eval::EvalError::OutOfFuel)));
    }
}
