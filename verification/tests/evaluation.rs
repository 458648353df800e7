use lambda_sub::eval::{EvalError, eval, is_val, shift, subst, subst_top};
use lambda_sub::syntax::{Context, Term, TokenInfo, Type, init_context};

fn ti() -> TokenInfo {
    TokenInfo::default()
}

fn tru() -> Term {
    Term::True(ti())
}

fn fls() -> Term {
    Term::False(ti())
}

fn zero() -> Term {
    Term::Zero(ti())
}

fn succ(t: Term) -> Term {
    Term::Succ(ti(), Box::new(t))
}

fn pred(t: Term) -> Term {
    Term::Pred(ti(), Box::new(t))
}

fn iszero(t: Term) -> Term {
    Term::IsZero(ti(), Box::new(t))
}

fn var(k: i32, n: i32) -> Term {
    Term::Var(ti(), k, n)
}

fn app(f: Term, a: Term) -> Term {
    Term::App(ti(), Box::new(f), Box::new(a))
}

fn abst(x: &str, ty: Type, body: Term) -> Term {
    Term::Abst(ti(), x.to_string(), ty, Box::new(body))
}

fn ite(c: Term, a: Term, b: Term) -> Term {
    Term::If(ti(), Box::new(c), Box::new(a), Box::new(b))
}

fn record(fields: Vec<(&str, Term)>) -> Term {
    Term::Record(ti(), fields.into_iter().map(|(l, t)| (l.to_string(), t)).collect())
}

fn proj(t: Term, l: &str) -> Term {
    Term::Proj(ti(), Box::new(t), l.to_string())
}

fn ctx() -> Context {
    init_context()
}

fn show(t: &Term) -> String {
    format!("{:?}", t)
}

#[test]
fn identity_applied_to_true_gives_true() {
    let t = app(abst("x", Type::TyBool, var(0, 1)), tru());
    let r = eval(&ctx(), &t, 1000).unwrap();
    assert!(matches!(r, Term::True(_)));
}

#[test]
fn if_false_picks_the_else_branch() {
    let t = ite(fls(), zero(), succ(zero()));
    let r = eval(&ctx(), &t, 1000).unwrap();
    match r {
        Term::Succ(_, inner) => assert!(matches!(*inner, Term::Zero(_))),
        other => panic!("expected succ 0, got {:?}", other),
    }
}

#[test]
fn iszero_pred_succ_zero_gives_true() {
    let t = iszero(pred(succ(zero())));
    let r = eval(&ctx(), &t, 1000).unwrap();
    assert!(matches!(r, Term::True(_)));
}

#[test]
fn projection_picks_the_named_field() {
    let t = proj(record(vec![("a", tru()), ("b", zero())]), "a");
    let r = eval(&ctx(), &t, 1000).unwrap();
    assert!(matches!(r, Term::True(_)));
}

#[test]
fn wider_record_flows_through_a_narrow_function() {
    // A function over {x:Bool} applied to the two-field literal: the body
    // receives the full record.
    let dom = Type::TyRecord(vec![("x".to_string(), Type::TyBool)]);
    let t = app(abst("r", dom, var(0, 1)), record(vec![("x", tru()), ("y", fls())]));
    let r = eval(&ctx(), &t, 1000).unwrap();
    match r {
        Term::Record(_, fields) => {
            assert_eq!(fields.len(), 2);
            assert_eq!(fields[0].0, "x");
            assert!(matches!(fields[0].1, Term::True(_)));
            assert_eq!(fields[1].0, "y");
            assert!(matches!(fields[1].1, Term::False(_)));
        },
        other => panic!("expected a record, got {:?}", other),
    }
}

#[test]
fn record_fields_evaluate_to_values() {
    let t = record(vec![("a", iszero(zero())), ("b", pred(succ(zero())))]);
    let r = eval(&ctx(), &t, 1000).unwrap();
    match r {
        Term::Record(_, fields) => {
            assert!(matches!(fields[0].1, Term::True(_)));
            assert!(matches!(fields[1].1, Term::Zero(_)));
        },
        other => panic!("expected a record, got {:?}", other),
    }
}

#[test]
fn pred_zero_is_zero() {
    let r = eval(&ctx(), &pred(zero()), 1000).unwrap();
    assert!(matches!(r, Term::Zero(_)));
}

#[test]
fn iszero_succ_is_false() {
    let r = eval(&ctx(), &iszero(succ(zero())), 1000).unwrap();
    assert!(matches!(r, Term::False(_)));
}

#[test]
fn stuck_condition_is_a_fatal_error() {
    // A bare variable can never reduce to a boolean.
    let t = ite(var(0, 0), tru(), fls());
    let r = eval(&ctx(), &t, 1000);
    assert!(matches!(r, Err(EvalError::StuckCondition(_))));
}

#[test]
fn missing_field_in_evaluation_is_a_fatal_error() {
    let t = proj(record(vec![("a", tru())]), "b");
    let r = eval(&ctx(), &t, 1000);
    match r {
        Err(EvalError::MissingField(_, l)) => assert_eq!(l, "b"),
        other => panic!("expected a missing-field error, got {:?}", other),
    }
}

#[test]
fn diverging_term_runs_out_of_fuel() {
    // (lambda x:Top. x x) (lambda x:Top. x x) reduces to itself forever.
    let omega_half = abst("x", Type::TyTop, app(var(0, 1), var(0, 1)));
    let omega = app(lambda_sub::syntax::clone_term(&omega_half), omega_half);
    let r = eval(&ctx(), &omega, 50);
    assert!(matches!(r, Err(EvalError::OutOfFuel)));
}

#[test]
fn evaluation_is_deterministic_across_runs() {
    let t = app(abst("x", Type::TyBool, ite(var(0, 1), fls(), tru())), tru());
    let r1 = eval(&ctx(), &t, 1000).unwrap();
    let r2 = eval(&ctx(), &t, 2000).unwrap();
    assert_eq!(show(&r1), show(&r2));
    assert!(matches!(r1, Term::False(_)));
}

#[test]
fn values_are_recognised() {
    let c = ctx();
    assert!(is_val(&c, &tru()));
    assert!(is_val(&c, &zero()));
    assert!(is_val(&c, &succ(succ(zero()))));
    assert!(!is_val(&c, &succ(tru())));
    assert!(is_val(&c, &abst("x", Type::TyBool, var(0, 1))));
    assert!(is_val(&c, &record(vec![("a", tru())])));
    assert!(!is_val(&c, &record(vec![("a", iszero(zero()))])));
    assert!(!is_val(&c, &var(0, 0)));
    assert!(!is_val(&c, &app(tru(), tru())));
}

#[test]
fn shift_adds_to_free_variables_only() {
    // shift 1 over (lambda. 0 1): the bound 0 stays, the free 1 moves.
    let t = abst("x", Type::TyBool, app(var(0, 2), var(1, 2)));
    let r = shift(1, &t);
    match r {
        Term::Abst(_, _, _, body) => match *body {
            Term::App(_, f, a) => {
                assert!(matches!(*f, Term::Var(_, 0, 3)));
                assert!(matches!(*a, Term::Var(_, 2, 3)));
            },
            other => panic!("expected an application, got {:?}", other),
        },
        other => panic!("expected an abstraction, got {:?}", other),
    }
}

#[test]
fn shift_by_zero_is_the_identity() {
    let t = abst("x", Type::TyBool, app(var(0, 2), proj(record(vec![("a", var(1, 2))]), "a")));
    let r = shift(0, &t);
    assert_eq!(show(&r), show(&t));
}

#[test]
fn subst_replaces_the_named_variable() {
    // [1 -> true] (0 1) = (0 true)
    let t = app(var(0, 2), var(1, 2));
    let r = subst(1, &tru(), &t);
    match r {
        Term::App(_, f, a) => {
            assert!(matches!(*f, Term::Var(_, 0, 2)));
            assert!(matches!(*a, Term::True(_)));
        },
        other => panic!("expected an application, got {:?}", other),
    }
}

#[test]
fn subst_top_consumes_the_binder() {
    // beta-substituting v for 0 in (0, 1) yields (v, 0): the dangling
    // reference to the consumed binder is gone.
    let body = app(var(0, 2), var(1, 2));
    let r = subst_top(&tru(), &body);
    match r {
        Term::App(_, f, a) => {
            assert!(matches!(*f, Term::True(_)));
            assert!(matches!(*a, Term::Var(_, 0, _)));
        },
        other => panic!("expected an application, got {:?}", other),
    }
}

#[test]
fn subst_top_shifts_the_inserted_term_under_binders() {
    // beta-substituting the free variable 0 into a body that uses its
    // argument under one more binder: the inserted index is shifted.
    let body = abst("y", Type::TyBool, var(1, 2));
    let r = subst_top(&var(0, 1), &body);
    match r {
        Term::Abst(_, _, _, inner) => assert!(matches!(*inner, Term::Var(_, 1, _))),
        other => panic!("expected an abstraction, got {:?}", other),
    }
}
