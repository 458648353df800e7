//! The laws of the library, stated over the spec functions the public
//! contracts use and proved once and for all: substitution hygiene,
//! determinism of evaluation, and the order laws of the subtype relation.
use vstd::prelude::*;

use crate::eval::{
    StepV, lemma_step_fields_char, spec_eval, spec_fields_vals, spec_is_val, spec_lookup_field,
    spec_shift, spec_shift_fields, spec_shift_walk, spec_step, spec_step_inner, spec_subst,
    spec_subst_fields, spec_subst_top, spec_subst_walk,
};
use crate::syntax::{TermV, TypeV};
use crate::ts::{
    lemma_fields_incl_forall, lemma_lookup_ty_char, lemma_lookup_ty_size, lemma_sub_fields_forall,
    lemma_ty_fields_size_bound, spec_lookup_ty, spec_sub_type, spec_ty_eq, spec_type_fields,
    spec_type_of, ty_size,
};

verus! {

/// Every variable reference of `t`, seen from outside, points below `n`:
/// a variable at nesting depth `b` has index under `n + b`.
pub open spec fn fv_below(t: TermV, n: int) -> bool
    decreases t,
{
    match t {
        TermV::True => true,
        TermV::False => true,
        TermV::Zero => true,
        TermV::Pred(t1) => fv_below(*t1, n),
        TermV::Succ(t1) => fv_below(*t1, n),
        TermV::IsZero(t1) => fv_below(*t1, n),
        TermV::If(c, a, b) => fv_below(*c, n) && fv_below(*a, n) && fv_below(*b, n),
        TermV::Var(k, _) => k < n,
        TermV::App(f, a) => fv_below(*f, n) && fv_below(*a, n),
        TermV::Abst(_, _, body) => fv_below(*body, n + 1),
        TermV::Proj(r, _) => fv_below(*r, n),
        TermV::Record(fs) => fv_below_fields(fs, n),
    }
}

pub open spec fn fv_below_fields(fs: Seq<(Seq<char>, TermV)>, n: int) -> bool
    decreases fs,
{
    fs.len() == 0 || (fv_below(fs[0].1, n) && fv_below_fields(fs.subrange(1, fs.len() as int), n))
}

/// No variable reference of `t` points exactly at the binder `c` levels
/// out: the reference `subst_top` consumes is gone.
pub open spec fn fv_skips(t: TermV, c: int) -> bool
    decreases t,
{
    match t {
        TermV::True => true,
        TermV::False => true,
        TermV::Zero => true,
        TermV::Pred(t1) => fv_skips(*t1, c),
        TermV::Succ(t1) => fv_skips(*t1, c),
        TermV::IsZero(t1) => fv_skips(*t1, c),
        TermV::If(c0, a, b) => fv_skips(*c0, c) && fv_skips(*a, c) && fv_skips(*b, c),
        TermV::Var(k, _) => k != c,
        TermV::App(f, a) => fv_skips(*f, c) && fv_skips(*a, c),
        TermV::Abst(_, _, body) => fv_skips(*body, c + 1),
        TermV::Proj(r, _) => fv_skips(*r, c),
        TermV::Record(fs) => fv_skips_fields(fs, c),
    }
}

pub open spec fn fv_skips_fields(fs: Seq<(Seq<char>, TermV)>, c: int) -> bool
    decreases fs,
{
    fs.len() == 0 || (fv_skips(fs[0].1, c) && fv_skips_fields(fs.subrange(1, fs.len() as int), c))
}

/// Shifting by zero changes nothing, whatever the cutoff.
pub proof fn lemma_shift_zero_walk(c: int, t: TermV)
    ensures
        spec_shift_walk(c, 0, t) == t,
    decreases t,
{
    match t {
        TermV::Pred(t1) => lemma_shift_zero_walk(c, *t1),
        TermV::Succ(t1) => lemma_shift_zero_walk(c, *t1),
        TermV::IsZero(t1) => lemma_shift_zero_walk(c, *t1),
        TermV::If(c0, a, b) => {
            lemma_shift_zero_walk(c, *c0);
            lemma_shift_zero_walk(c, *a);
            lemma_shift_zero_walk(c, *b);
        },
        TermV::App(f, a) => {
            lemma_shift_zero_walk(c, *f);
            lemma_shift_zero_walk(c, *a);
        },
        TermV::Abst(_, _, body) => lemma_shift_zero_walk(c + 1, *body),
        TermV::Proj(r, _) => lemma_shift_zero_walk(c, *r),
        TermV::Record(fs) => {
            lemma_shift_zero_fields(c, fs);
            assert(spec_shift_fields(c, 0, fs) =~= fs);
        },
        _ => {},
    }
}

proof fn lemma_shift_zero_fields(c: int, fs: Seq<(Seq<char>, TermV)>)
    ensures
        spec_shift_fields(c, 0, fs) =~= fs,
    decreases fs,
{
    if fs.len() > 0 {
        lemma_shift_zero_walk(c, fs[0].1);
        lemma_shift_zero_fields(c, fs.subrange(1, fs.len() as int));
        assert(spec_shift_fields(c, 0, fs) =~= seq![fs[0]] + fs.subrange(1, fs.len() as int));
        assert(seq![fs[0]] + fs.subrange(1, fs.len() as int) =~= fs);
    }
}

/// Substitution correctness, part one: a shift by zero is the identity.
pub proof fn lemma_shift_zero_identity(t: TermV)
    ensures
        spec_shift(0, t) == t,
{
    lemma_shift_zero_walk(0, t);
}

pub proof fn lemma_shift_fv_below(c: int, d: int, t: TermV, n: int)
    requires
        0 <= d,
        fv_below(t, n),
    ensures
        fv_below(spec_shift_walk(c, d, t), n + d),
    decreases t,
{
    match t {
        TermV::Pred(t1) => lemma_shift_fv_below(c, d, *t1, n),
        TermV::Succ(t1) => lemma_shift_fv_below(c, d, *t1, n),
        TermV::IsZero(t1) => lemma_shift_fv_below(c, d, *t1, n),
        TermV::If(c0, a, b) => {
            lemma_shift_fv_below(c, d, *c0, n);
            lemma_shift_fv_below(c, d, *a, n);
            lemma_shift_fv_below(c, d, *b, n);
        },
        TermV::App(f, a) => {
            lemma_shift_fv_below(c, d, *f, n);
            lemma_shift_fv_below(c, d, *a, n);
        },
        TermV::Abst(_, _, body) => lemma_shift_fv_below(c + 1, d, *body, n + 1),
        TermV::Proj(r, _) => lemma_shift_fv_below(c, d, *r, n),
        TermV::Record(fs) => lemma_shift_fv_below_fields(c, d, fs, n),
        _ => {},
    }
}

proof fn lemma_shift_fv_below_fields(c: int, d: int, fs: Seq<(Seq<char>, TermV)>, n: int)
    requires
        0 <= d,
        fv_below_fields(fs, n),
    ensures
        fv_below_fields(spec_shift_fields(c, d, fs), n + d),
    decreases fs,
{
    if fs.len() > 0 {
        lemma_shift_fv_below(c, d, fs[0].1, n);
        lemma_shift_fv_below_fields(c, d, fs.subrange(1, fs.len() as int), n);
        assert(spec_shift_fields(c, d, fs).subrange(
            1,
            spec_shift_fields(c, d, fs).len() as int,
        ) =~= spec_shift_fields(c, d, fs.subrange(1, fs.len() as int)));
    }
}

proof fn lemma_shift_fv_skips(c2: int, d: int, t: TermV, c0: int)
    requires
        0 <= c2 <= c0,
        0 <= d,
        fv_skips(t, c0),
    ensures
        fv_skips(spec_shift_walk(c2, d, t), c0 + d),
    decreases t,
{
    match t {
        TermV::Pred(t1) => lemma_shift_fv_skips(c2, d, *t1, c0),
        TermV::Succ(t1) => lemma_shift_fv_skips(c2, d, *t1, c0),
        TermV::IsZero(t1) => lemma_shift_fv_skips(c2, d, *t1, c0),
        TermV::If(c, a, b) => {
            lemma_shift_fv_skips(c2, d, *c, c0);
            lemma_shift_fv_skips(c2, d, *a, c0);
            lemma_shift_fv_skips(c2, d, *b, c0);
        },
        TermV::App(f, a) => {
            lemma_shift_fv_skips(c2, d, *f, c0);
            lemma_shift_fv_skips(c2, d, *a, c0);
        },
        TermV::Abst(_, _, body) => lemma_shift_fv_skips(c2 + 1, d, *body, c0 + 1),
        TermV::Proj(r, _) => lemma_shift_fv_skips(c2, d, *r, c0),
        TermV::Record(fs) => lemma_shift_fv_skips_fields(c2, d, fs, c0),
        _ => {},
    }
}

proof fn lemma_shift_fv_skips_fields(c2: int, d: int, fs: Seq<(Seq<char>, TermV)>, c0: int)
    requires
        0 <= c2 <= c0,
        0 <= d,
        fv_skips_fields(fs, c0),
    ensures
        fv_skips_fields(spec_shift_fields(c2, d, fs), c0 + d),
    decreases fs,
{
    if fs.len() > 0 {
        lemma_shift_fv_skips(c2, d, fs[0].1, c0);
        lemma_shift_fv_skips_fields(c2, d, fs.subrange(1, fs.len() as int), c0);
        assert(spec_shift_fields(c2, d, fs).subrange(
            1,
            spec_shift_fields(c2, d, fs).len() as int,
        ) =~= spec_shift_fields(c2, d, fs.subrange(1, fs.len() as int)));
    }
}

pub proof fn lemma_shift_makes_skip(c2: int, d: int, t: TermV)
    requires
        1 <= d,
    ensures
        fv_skips(spec_shift_walk(c2, d, t), c2),
    decreases t,
{
    match t {
        TermV::Pred(t1) => lemma_shift_makes_skip(c2, d, *t1),
        TermV::Succ(t1) => lemma_shift_makes_skip(c2, d, *t1),
        TermV::IsZero(t1) => lemma_shift_makes_skip(c2, d, *t1),
        TermV::If(c, a, b) => {
            lemma_shift_makes_skip(c2, d, *c);
            lemma_shift_makes_skip(c2, d, *a);
            lemma_shift_makes_skip(c2, d, *b);
        },
        TermV::App(f, a) => {
            lemma_shift_makes_skip(c2, d, *f);
            lemma_shift_makes_skip(c2, d, *a);
        },
        TermV::Abst(_, _, body) => lemma_shift_makes_skip(c2 + 1, d, *body),
        TermV::Proj(r, _) => lemma_shift_makes_skip(c2, d, *r),
        TermV::Record(fs) => lemma_shift_makes_skip_fields(c2, d, fs),
        _ => {},
    }
}

proof fn lemma_shift_makes_skip_fields(c2: int, d: int, fs: Seq<(Seq<char>, TermV)>)
    requires
        1 <= d,
    ensures
        fv_skips_fields(spec_shift_fields(c2, d, fs), c2),
    decreases fs,
{
    if fs.len() > 0 {
        lemma_shift_makes_skip(c2, d, fs[0].1);
        lemma_shift_makes_skip_fields(c2, d, fs.subrange(1, fs.len() as int));
        assert(spec_shift_fields(c2, d, fs).subrange(
            1,
            spec_shift_fields(c2, d, fs).len() as int,
        ) =~= spec_shift_fields(c2, d, fs.subrange(1, fs.len() as int)));
    }
}

proof fn lemma_shift_down_fv(c: int, t: TermV, n: int)
    requires
        0 <= c <= n,
        fv_below(t, n + 1),
        fv_skips(t, c),
    ensures
        fv_below(spec_shift_walk(c, -1, t), n),
    decreases t,
{
    match t {
        TermV::Pred(t1) => lemma_shift_down_fv(c, *t1, n),
        TermV::Succ(t1) => lemma_shift_down_fv(c, *t1, n),
        TermV::IsZero(t1) => lemma_shift_down_fv(c, *t1, n),
        TermV::If(c0, a, b) => {
            lemma_shift_down_fv(c, *c0, n);
            lemma_shift_down_fv(c, *a, n);
            lemma_shift_down_fv(c, *b, n);
        },
        TermV::App(f, a) => {
            lemma_shift_down_fv(c, *f, n);
            lemma_shift_down_fv(c, *a, n);
        },
        TermV::Abst(_, _, body) => lemma_shift_down_fv(c + 1, *body, n + 1),
        TermV::Proj(r, _) => lemma_shift_down_fv(c, *r, n),
        TermV::Record(fs) => lemma_shift_down_fv_fields(c, fs, n),
        _ => {},
    }
}

proof fn lemma_shift_down_fv_fields(c: int, fs: Seq<(Seq<char>, TermV)>, n: int)
    requires
        0 <= c <= n,
        fv_below_fields(fs, n + 1),
        fv_skips_fields(fs, c),
    ensures
        fv_below_fields(spec_shift_fields(c, -1, fs), n),
    decreases fs,
{
    if fs.len() > 0 {
        lemma_shift_down_fv(c, fs[0].1, n);
        lemma_shift_down_fv_fields(c, fs.subrange(1, fs.len() as int), n);
        assert(spec_shift_fields(c, -1, fs).subrange(
            1,
            spec_shift_fields(c, -1, fs).len() as int,
        ) =~= spec_shift_fields(c, -1, fs.subrange(1, fs.len() as int)));
    }
}

pub proof fn lemma_subst_fv(c: int, s: TermV, t: TermV, n: int)
    requires
        0 <= c,
        0 <= n,
        fv_below(t, n + 1 + c),
        fv_below(s, n + 1),
        fv_skips(s, 0),
    ensures
        fv_below(spec_subst_walk(c, 0, s, t), n + 1 + c),
        fv_skips(spec_subst_walk(c, 0, s, t), c),
    decreases t,
{
    match t {
        TermV::Pred(t1) => lemma_subst_fv(c, s, *t1, n),
        TermV::Succ(t1) => lemma_subst_fv(c, s, *t1, n),
        TermV::IsZero(t1) => lemma_subst_fv(c, s, *t1, n),
        TermV::If(c0, a, b) => {
            lemma_subst_fv(c, s, *c0, n);
            lemma_subst_fv(c, s, *a, n);
            lemma_subst_fv(c, s, *b, n);
        },
        TermV::Var(k, _) => {
            if k == c {
                lemma_shift_fv_below(0, c, s, n + 1);
                lemma_shift_fv_skips(0, c, s, 0);
            }
        },
        TermV::App(f, a) => {
            lemma_subst_fv(c, s, *f, n);
            lemma_subst_fv(c, s, *a, n);
        },
        TermV::Abst(_, _, body) => lemma_subst_fv(c + 1, s, *body, n),
        TermV::Proj(r, _) => lemma_subst_fv(c, s, *r, n),
        TermV::Record(fs) => lemma_subst_fv_fields(c, s, fs, n),
        _ => {},
    }
}

proof fn lemma_subst_fv_fields(c: int, s: TermV, fs: Seq<(Seq<char>, TermV)>, n: int)
    requires
        0 <= c,
        0 <= n,
        fv_below_fields(fs, n + 1 + c),
        fv_below(s, n + 1),
        fv_skips(s, 0),
    ensures
        fv_below_fields(spec_subst_fields(c, 0, s, fs), n + 1 + c),
        fv_skips_fields(spec_subst_fields(c, 0, s, fs), c),
    decreases fs,
{
    if fs.len() > 0 {
        lemma_subst_fv(c, s, fs[0].1, n);
        lemma_subst_fv_fields(c, s, fs.subrange(1, fs.len() as int), n);
        assert(spec_subst_fields(c, 0, s, fs).subrange(
            1,
            spec_subst_fields(c, 0, s, fs).len() as int,
        ) =~= spec_subst_fields(c, 0, s, fs.subrange(1, fs.len() as int)));
    }
}

/// Substitution correctness, part two: the substitution performed by
/// beta-reduction leaves no dangling reference to the consumed binder.
/// If the body `t` refers below `n + 1` binders and the value `v` below
/// `n`, then `subst_top(v, t)` refers below `n`.
pub proof fn lemma_subst_top_no_dangling(v: TermV, t: TermV, n: int)
    requires
        0 <= n,
        fv_below(t, n + 1),
        fv_below(v, n),
    ensures
        fv_below(spec_subst_top(v, t), n),
{
    let s1 = spec_shift(1, v);
    lemma_shift_fv_below(0, 1, v, n);
    lemma_shift_makes_skip(0, 1, v);
    lemma_subst_fv(0, s1, t, n);
    lemma_shift_down_fv(0, spec_subst(0, s1, t), n);
}

/// Evaluation determinism: whenever two runs of the evaluator both come
/// to an answer — a normal form or a fatal error — the answers are the
/// same term and the same error, whatever step budgets the runs were
/// given.
pub proof fn lemma_eval_deterministic(t: TermV, f1: nat, f2: nat)
    ensures
        !(spec_eval(t, f1) is OutOfFuel) && !(spec_eval(t, f2) is OutOfFuel) ==> spec_eval(t, f1)
            == spec_eval(t, f2),
    decreases f1 + f2,
{
    match spec_step(t) {
        StepV::Progress(t2) => {
            if f1 > 0 && f2 > 0 {
                lemma_eval_deterministic(t2, (f1 - 1) as nat, (f2 - 1) as nat);
            }
        },
        _ => {},
    }
}

/// Record labels are pairwise distinct.
pub open spec fn distinct_labels(fs: Seq<(Seq<char>, TypeV)>) -> bool {
    forall|i: int, j: int| 0 <= i < j < fs.len() ==> (#[trigger] fs[i]).0 != (#[trigger] fs[j]).0
}

/// A well-formed type: every record in it has pairwise distinct labels.
pub open spec fn wf_ty(t: TypeV) -> bool
    decreases t,
{
    match t {
        TypeV::Bool => true,
        TypeV::Top => true,
        TypeV::Arr(a, b) => wf_ty(*a) && wf_ty(*b),
        TypeV::Record(fs) => distinct_labels(fs) && wf_ty_fields(fs),
    }
}

pub open spec fn wf_ty_fields(fs: Seq<(Seq<char>, TypeV)>) -> bool
    decreases fs,
{
    fs.len() == 0 || (wf_ty(fs[0].1) && wf_ty_fields(fs.subrange(1, fs.len() as int)))
}

pub proof fn lemma_wf_ty_fields(fs: Seq<(Seq<char>, TypeV)>)
    ensures
        wf_ty_fields(fs) <==> (forall|j: int| 0 <= j < fs.len() ==> wf_ty((#[trigger] fs[j]).1)),
    decreases fs.len(),
{
    if fs.len() > 0 {
        lemma_wf_ty_fields(fs.subrange(1, fs.len() as int));
        assert(forall|j: int|
            1 <= j < fs.len() ==> fs.subrange(1, fs.len() as int)[j - 1] == #[trigger] fs[j]);
    }
}

/// With distinct labels, looking a field's own label up finds that field.
pub proof fn lemma_lookup_self(fs: Seq<(Seq<char>, TypeV)>, j: int)
    requires
        distinct_labels(fs),
        0 <= j < fs.len(),
    ensures
        spec_lookup_ty(fs, fs[j].0) == Some(fs[j].1),
{
    lemma_lookup_ty_char(fs, fs[j].0, j);
}

/// A successful lookup names some field of the sequence.
pub proof fn lemma_lookup_index(fs: Seq<(Seq<char>, TypeV)>, l: Seq<char>)
    ensures
        spec_lookup_ty(fs, l) matches Some(t) ==> exists|i: int|
            0 <= i < fs.len() && (#[trigger] fs[i]).0 == l && fs[i].1 == t,
    decreases fs,
{
    if fs.len() > 0 && fs[0].0 != l {
        lemma_lookup_index(fs.subrange(1, fs.len() as int), l);
        if spec_lookup_ty(fs, l) is Some {
            let i0 = choose|i: int|
                0 <= i < fs.subrange(1, fs.len() as int).len() && (#[trigger] fs.subrange(
                    1,
                    fs.len() as int,
                )[i]).0 == l && fs.subrange(1, fs.len() as int)[i].1 == spec_lookup_ty(
                    fs,
                    l,
                )->Some_0;
            assert(fs[i0 + 1] == fs.subrange(1, fs.len() as int)[i0]);
        }
    }
}

/// Subtype reflexivity: every well-formed type is a subtype of itself.
pub proof fn lemma_sub_type_refl(t: TypeV)
    requires
        wf_ty(t),
    ensures
        spec_sub_type(t, t),
    decreases ty_size(t),
{
    match t {
        TypeV::Arr(a, b) => {
            lemma_sub_type_refl(*a);
            lemma_sub_type_refl(*b);
        },
        TypeV::Record(fs) => {
            lemma_sub_fields_forall(fs, fs);
            lemma_wf_ty_fields(fs);
            lemma_ty_fields_size_bound(fs);
            assert forall|j: int| 0 <= j < fs.len() implies match spec_lookup_ty(
                fs,
                (#[trigger] fs[j]).0,
            ) {
                Some(st) => spec_sub_type(st, fs[j].1),
                None => false,
            } by {
                lemma_lookup_self(fs, j);
                lemma_sub_type_refl(fs[j].1);
            }
        },
        _ => {},
    }
}

/// Subtype transitivity.
pub proof fn lemma_sub_type_trans(a: TypeV, b: TypeV, c: TypeV)
    requires
        spec_sub_type(a, b),
        spec_sub_type(b, c),
    ensures
        spec_sub_type(a, c),
    decreases ty_size(a) + ty_size(b) + ty_size(c),
{
    match (a, b, c) {
        (_, _, TypeV::Top) => {},
        (TypeV::Arr(a1, a2), TypeV::Arr(b1, b2), TypeV::Arr(c1, c2)) => {
            lemma_sub_type_trans(*c1, *b1, *a1);
            lemma_sub_type_trans(*a2, *b2, *c2);
        },
        (TypeV::Record(af), TypeV::Record(bf), TypeV::Record(cf)) => {
            lemma_sub_fields_forall(af, bf);
            lemma_sub_fields_forall(bf, cf);
            lemma_sub_fields_forall(af, cf);
            lemma_ty_fields_size_bound(af);
            lemma_ty_fields_size_bound(bf);
            lemma_ty_fields_size_bound(cf);
            assert forall|j: int| 0 <= j < cf.len() implies match spec_lookup_ty(
                af,
                (#[trigger] cf[j]).0,
            ) {
                Some(st) => spec_sub_type(st, cf[j].1),
                None => false,
            } by {
                let l = cf[j].0;
                let bt = spec_lookup_ty(bf, l)->Some_0;
                lemma_lookup_index(bf, l);
                let i = choose|i: int|
                    0 <= i < bf.len() && (#[trigger] bf[i]).0 == l && bf[i].1 == bt;
                let at = spec_lookup_ty(af, l)->Some_0;
                lemma_lookup_ty_size(af, l);
                lemma_lookup_ty_size(bf, l);
                lemma_sub_type_trans(at, bt, cf[j].1);
            }
        },
        _ => {},
    }
}

/// Type equality is symmetric.
pub proof fn lemma_ty_eq_sym(a: TypeV, b: TypeV)
    ensures
        spec_ty_eq(a, b) == spec_ty_eq(b, a),
    decreases ty_size(a) + ty_size(b),
{
    match (a, b) {
        (TypeV::Arr(a1, a2), TypeV::Arr(b1, b2)) => {
            lemma_ty_eq_sym(*a1, *b1);
            lemma_ty_eq_sym(*a2, *b2);
        },
        _ => {},
    }
}

/// Record order-independence: types equal up to field order are mutual
/// subtypes, so one can stand wherever the other can.
pub proof fn lemma_ty_eq_sub_type(a: TypeV, b: TypeV)
    requires
        spec_ty_eq(a, b),
    ensures
        spec_sub_type(a, b),
        spec_sub_type(b, a),
    decreases ty_size(a) + ty_size(b),
{
    match (a, b) {
        (TypeV::Arr(a1, a2), TypeV::Arr(b1, b2)) => {
            lemma_ty_eq_sub_type(*a1, *b1);
            lemma_ty_eq_sub_type(*a2, *b2);
        },
        (TypeV::Record(af), TypeV::Record(bf)) => {
            lemma_fields_incl_forall(af, bf);
            lemma_fields_incl_forall(bf, af);
            lemma_sub_fields_forall(af, bf);
            lemma_sub_fields_forall(bf, af);
            lemma_ty_fields_size_bound(af);
            lemma_ty_fields_size_bound(bf);
            assert forall|j: int| 0 <= j < bf.len() implies match spec_lookup_ty(
                af,
                (#[trigger] bf[j]).0,
            ) {
                Some(st) => spec_sub_type(st, bf[j].1),
                None => false,
            } by {
                let l = bf[j].0;
                let at = spec_lookup_ty(af, l)->Some_0;
                lemma_lookup_ty_size(af, l);
                lemma_ty_eq_sym(bf[j].1, at);
                lemma_ty_eq_sub_type(at, bf[j].1);
            }
            assert forall|j: int| 0 <= j < af.len() implies match spec_lookup_ty(
                bf,
                (#[trigger] af[j]).0,
            ) {
                Some(st) => spec_sub_type(st, af[j].1),
                None => false,
            } by {
                let l = af[j].0;
                let bt = spec_lookup_ty(bf, l)->Some_0;
                lemma_lookup_ty_size(bf, l);
                lemma_ty_eq_sym(af[j].1, bt);
                lemma_ty_eq_sub_type(bt, af[j].1);
            }
        },
        _ => {},
    }
}

/// Record width subtyping: a record type with extra fields on the right
/// is a subtype of the same record without them.
pub proof fn lemma_record_width(fs: Seq<(Seq<char>, TypeV)>, ext: Seq<(Seq<char>, TypeV)>)
    requires
        wf_ty(TypeV::Record(fs)),
    ensures
        spec_sub_type(TypeV::Record(fs + ext), TypeV::Record(fs)),
{
    lemma_sub_fields_forall(fs + ext, fs);
    lemma_wf_ty_fields(fs);
    assert forall|j: int| 0 <= j < fs.len() implies match spec_lookup_ty(
        fs + ext,
        (#[trigger] fs[j]).0,
    ) {
        Some(st) => spec_sub_type(st, fs[j].1),
        None => false,
    } by {
        assert(forall|i: int| 0 <= i < fs.len() ==> (fs + ext)[i] == #[trigger] fs[i]);
        lemma_lookup_prefix(fs, ext, fs[j].0, j);
        lemma_sub_type_refl(fs[j].1);
    }
}

/// A label found among the first fields is found the same way after more
/// fields are appended.
proof fn lemma_lookup_prefix(
    fs: Seq<(Seq<char>, TypeV)>,
    ext: Seq<(Seq<char>, TypeV)>,
    l: Seq<char>,
    j: int,
)
    requires
        0 <= j < fs.len(),
        fs[j].0 == l,
        forall|i: int| 0 <= i < j ==> (#[trigger] fs[i]).0 != l,
    ensures
        spec_lookup_ty(fs + ext, l) == Some(fs[j].1),
    decreases fs.len(),
{
    assert(forall|i: int| 0 <= i < fs.len() ==> (fs + ext)[i] == #[trigger] fs[i]);
    lemma_lookup_ty_char(fs + ext, l, j);
}

/// Record depth subtyping: with the same distinct labels in the same
/// order and field-wise subtypes, the whole record types are subtypes.
pub proof fn lemma_record_depth(sf: Seq<(Seq<char>, TypeV)>, tf: Seq<(Seq<char>, TypeV)>)
    requires
        sf.len() == tf.len(),
        forall|j: int| 0 <= j < tf.len() ==> (#[trigger] sf[j]).0 == tf[j].0,
        forall|j: int| 0 <= j < tf.len() ==> spec_sub_type((#[trigger] sf[j]).1, tf[j].1),
        distinct_labels(sf),
    ensures
        spec_sub_type(TypeV::Record(sf), TypeV::Record(tf)),
{
    lemma_sub_fields_forall(sf, tf);
    assert forall|j: int| 0 <= j < tf.len() implies match spec_lookup_ty(
        sf,
        (#[trigger] tf[j]).0,
    ) {
        Some(st) => spec_sub_type(st, tf[j].1),
        None => false,
    } by {
        lemma_lookup_self(sf, j);
    }
}

/// Every projection in the term is taken directly off a record literal.
/// This is the fragment the evaluator has a projection rule for: it never
/// reduces underneath a `Proj`.
pub open spec fn proj_on_records(t: TermV) -> bool
    decreases t,
{
    match t {
        TermV::True => true,
        TermV::False => true,
        TermV::Zero => true,
        TermV::Pred(t1) => proj_on_records(*t1),
        TermV::Succ(t1) => proj_on_records(*t1),
        TermV::IsZero(t1) => proj_on_records(*t1),
        TermV::If(c, a, b) => proj_on_records(*c) && proj_on_records(*a) && proj_on_records(*b),
        TermV::Var(_, _) => true,
        TermV::App(f, a) => proj_on_records(*f) && proj_on_records(*a),
        TermV::Abst(_, _, body) => proj_on_records(*body),
        TermV::Proj(r, _) => (*r matches TermV::Record(_)) && proj_on_records(*r),
        TermV::Record(fs) => proj_on_records_fields(fs),
    }
}

pub open spec fn proj_on_records_fields(fs: Seq<(Seq<char>, TermV)>) -> bool
    decreases fs,
{
    fs.len() == 0 || (proj_on_records(fs[0].1) && proj_on_records_fields(
        fs.subrange(1, fs.len() as int),
    ))
}

pub proof fn lemma_proj_on_records_fields(fs: Seq<(Seq<char>, TermV)>)
    ensures
        proj_on_records_fields(fs) <==> (forall|j: int|
            0 <= j < fs.len() ==> proj_on_records((#[trigger] fs[j]).1)),
    decreases fs.len(),
{
    if fs.len() > 0 {
        lemma_proj_on_records_fields(fs.subrange(1, fs.len() as int));
        assert(forall|j: int|
            1 <= j < fs.len() ==> fs.subrange(1, fs.len() as int)[j - 1] == #[trigger] fs[j]);
    }
}

/// Canonical forms: a value of type `TyBool` is `True` or `False`, and a
/// value of arrow type is an abstraction.
pub proof fn lemma_canonical_forms(t: TermV, ctx: Seq<crate::syntax::BindV>)
    requires
        spec_is_val(t),
        spec_type_of(t, ctx) is Ok,
    ensures
        spec_type_of(t, ctx)->Ok_0 == TypeV::Bool ==> t == TermV::True || t == TermV::False,
        spec_type_of(t, ctx)->Ok_0 is Arr ==> t is Abst,
        spec_type_of(t, ctx)->Ok_0 is Record ==> t is Record,
{
    match t {
        TermV::Record(fs) => {
            assert(spec_type_of(t, ctx) matches Ok(ty) ==> ty is Record);
        },
        _ => {},
    }
}

/// If every field of a record typed, each field typed on its own, and the
/// field labels carry over to the record type.
pub proof fn lemma_type_fields_ok(fs: Seq<(Seq<char>, TermV)>, ctx: Seq<crate::syntax::BindV>)
    ensures
        spec_type_fields(fs, ctx) is Ok ==> forall|j: int|
            0 <= j < fs.len() ==> spec_type_of((#[trigger] fs[j]).1, ctx) is Ok,
        spec_type_fields(fs, ctx) is Ok ==> spec_type_fields(fs, ctx)->Ok_0.len() == fs.len(),
        spec_type_fields(fs, ctx) is Ok ==> forall|j: int|
            0 <= j < fs.len() ==> (#[trigger] spec_type_fields(fs, ctx)->Ok_0[j]).0 == fs[j].0,
    decreases fs.len(),
{
    if fs.len() > 0 {
        lemma_type_fields_ok(fs.subrange(1, fs.len() as int), ctx);
        assert(forall|j: int|
            1 <= j < fs.len() ==> fs.subrange(1, fs.len() as int)[j - 1] == #[trigger] fs[j]);
    }
}

/// The position of the leftmost non-value field of a record that is not
/// yet a value.
pub proof fn lemma_first_non_val(fs: Seq<(Seq<char>, TermV)>) -> (i: int)
    requires
        !spec_fields_vals(fs),
    ensures
        0 <= i < fs.len(),
        !spec_is_val(fs[i].1),
        forall|j: int| 0 <= j < i ==> spec_is_val((#[trigger] fs[j]).1),
    decreases fs.len(),
{
    if spec_is_val(fs[0].1) {
        let i0 = lemma_first_non_val(fs.subrange(1, fs.len() as int));
        assert(forall|j: int|
            1 <= j < fs.len() ==> fs.subrange(1, fs.len() as int)[j - 1] == #[trigger] fs[j]);
        i0 + 1
    } else {
        0
    }
}

/// A label carried by some field is found by the lookup.
pub proof fn lemma_lookup_field_some(fs: Seq<(Seq<char>, TermV)>, l: Seq<char>, j: int)
    requires
        0 <= j < fs.len(),
        fs[j].0 == l,
    ensures
        spec_lookup_field(fs, l) is Some,
    decreases j,
{
    if fs[0].0 != l {
        assert(fs.subrange(1, fs.len() as int)[j - 1] == fs[j]);
        lemma_lookup_field_some(fs.subrange(1, fs.len() as int), l, j - 1);
    }
}

/// Progress: a closed, well-typed term that is not a value takes a step,
/// provided every projection in it is taken off a record literal — the
/// evaluator has no rule that reduces underneath a projection, so a term
/// such as `Proj(App(f, a), l)` is well-typed yet takes no step.
pub proof fn lemma_progress(t: TermV)
    requires
        spec_type_of(t, Seq::<crate::syntax::BindV>::empty()) is Ok,
        !spec_is_val(t),
        proj_on_records(t),
    ensures
        spec_step(t) is Progress,
    decreases t,
{
    let ctx = Seq::<crate::syntax::BindV>::empty();
    match t {
        TermV::App(f, a) => {
            if spec_is_val(*f) {
                lemma_canonical_forms(*f, ctx);
                if spec_is_val(*a) {
                } else {
                    lemma_progress(*a);
                }
            } else {
                lemma_progress(*f);
            }
        },
        TermV::If(c, a, b) => {
            if spec_is_val(*c) {
                lemma_canonical_forms(*c, ctx);
            } else {
                lemma_progress(*c);
                assert(spec_step_inner(*c) == spec_step(*c));
            }
        },
        TermV::Record(fs) => {
            lemma_proj_on_records_fields(fs);
            lemma_type_fields_ok(fs, ctx);
            let i = lemma_first_non_val(fs);
            lemma_progress(fs[i].1);
            lemma_step_fields_char(fs, i);
        },
        TermV::Proj(r, l) => {
            match *r {
                TermV::Record(rfs) => {
                    assert(spec_type_of(*r, ctx) is Ok);
                    lemma_type_fields_ok(rfs, ctx);
                    let tfs = spec_type_fields(rfs, ctx)->Ok_0;
                    assert(spec_lookup_ty(tfs, l) is Some);
                    crate::props::lemma_lookup_index(tfs, l);
                    let i = choose|i: int|
                        0 <= i < tfs.len() && (#[trigger] tfs[i]).0 == l && tfs[i].1
                            == spec_lookup_ty(tfs, l)->Some_0;
                    assert(tfs[i].0 == rfs[i].0);
                    lemma_lookup_field_some(rfs, l, i);
                },
                _ => {},
            }
        },
        _ => {},
    }
}

} // verus!
