//! The substitution engine and the call-by-value evaluator.
//!
//! `shift`, `subst` and `subst_top` implement de Bruijn index arithmetic;
//! their contracts are exact against the spec functions `spec_shift`,
//! `spec_subst` and `spec_subst_top`. The evaluator takes one reduction
//! step at a time (`spec_step` is the mathematical step relation) and the
//! driver `eval` runs steps until a normal form, a fatal error, or fuel
//! exhaustion.
use vstd::prelude::*;

use crate::syntax::{
    Context, Term, TermV, TokenInfo, clone_term, clone_type, lemma_term_fields_view,
    term_fields_view, term_view,
};

verus! {

/// Greater of two integers.
pub open spec fn imax(a: int, b: int) -> int {
    if a >= b {
        a
    } else {
        b
    }
}

/// A numeric value: zero or more `Succ` around `Zero`.
pub open spec fn spec_is_numeric(t: TermV) -> bool
    decreases t,
{
    match t {
        TermV::Zero => true,
        TermV::Succ(n) => spec_is_numeric(*n),
        _ => false,
    }
}

/// A value: `True`, `False`, an abstraction, a numeric value, or a record
/// whose every field is a value.
pub open spec fn spec_is_val(t: TermV) -> bool
    decreases t,
{
    match t {
        TermV::True => true,
        TermV::False => true,
        TermV::Abst(_, _, _) => true,
        TermV::Zero => true,
        TermV::Succ(n) => spec_is_numeric(*n),
        TermV::Record(fs) => spec_fields_vals(fs),
        _ => false,
    }
}

pub open spec fn spec_fields_vals(fs: Seq<(Seq<char>, TermV)>) -> bool
    decreases fs,
{
    fs.len() == 0 || (spec_is_val(fs[0].1) && spec_fields_vals(fs.subrange(1, fs.len() as int)))
}

pub proof fn lemma_fields_vals(fs: Seq<(Seq<char>, TermV)>)
    ensures
        spec_fields_vals(fs) <==> (forall|j: int|
            0 <= j < fs.len() ==> spec_is_val(#[trigger] fs[j].1)),
    decreases fs.len(),
{
    if fs.len() > 0 {
        lemma_fields_vals(fs.subrange(1, fs.len() as int));
        assert(forall|j: int|
            1 <= j < fs.len() ==> fs.subrange(1, fs.len() as int)[j - 1] == #[trigger] fs[j]);
    }
}

/// Largest absolute value of any variable index or context-length field.
pub open spec fn var_mag(t: TermV) -> int
    decreases t,
{
    match t {
        TermV::True => 0,
        TermV::False => 0,
        TermV::Zero => 0,
        TermV::Pred(t1) => var_mag(*t1),
        TermV::Succ(t1) => var_mag(*t1),
        TermV::IsZero(t1) => var_mag(*t1),
        TermV::If(c, a, b) => imax(var_mag(*c), imax(var_mag(*a), var_mag(*b))),
        TermV::Var(k, l) => imax(if k >= 0 { k } else { -k }, if l >= 0 { l } else { -l }),
        TermV::App(f, a) => imax(var_mag(*f), var_mag(*a)),
        TermV::Abst(_, _, body) => var_mag(*body),
        TermV::Proj(r, _) => var_mag(*r),
        TermV::Record(fs) => fields_mag(fs),
    }
}

pub open spec fn fields_mag(fs: Seq<(Seq<char>, TermV)>) -> int
    decreases fs,
{
    if fs.len() == 0 {
        0
    } else {
        imax(var_mag(fs[0].1), fields_mag(fs.subrange(1, fs.len() as int)))
    }
}

/// Deepest nesting of abstractions.
pub open spec fn binder_depth(t: TermV) -> int
    decreases t,
{
    match t {
        TermV::True => 0,
        TermV::False => 0,
        TermV::Zero => 0,
        TermV::Pred(t1) => binder_depth(*t1),
        TermV::Succ(t1) => binder_depth(*t1),
        TermV::IsZero(t1) => binder_depth(*t1),
        TermV::If(c, a, b) => imax(binder_depth(*c), imax(binder_depth(*a), binder_depth(*b))),
        TermV::Var(_, _) => 0,
        TermV::App(f, a) => imax(binder_depth(*f), binder_depth(*a)),
        TermV::Abst(_, _, body) => 1 + binder_depth(*body),
        TermV::Proj(r, _) => binder_depth(*r),
        TermV::Record(fs) => fields_binder_depth(fs),
    }
}

pub open spec fn fields_binder_depth(fs: Seq<(Seq<char>, TermV)>) -> int
    decreases fs,
{
    if fs.len() == 0 {
        0
    } else {
        imax(binder_depth(fs[0].1), fields_binder_depth(fs.subrange(1, fs.len() as int)))
    }
}

pub proof fn lemma_fields_mag_depth(fs: Seq<(Seq<char>, TermV)>)
    ensures
        0 <= fields_mag(fs),
        0 <= fields_binder_depth(fs),
        forall|j: int| 0 <= j < fs.len() ==> var_mag(#[trigger] fs[j].1) <= fields_mag(fs),
        forall|j: int|
            0 <= j < fs.len() ==> binder_depth(#[trigger] fs[j].1) <= fields_binder_depth(fs),
    decreases fs.len(),
{
    lemma_mag_depth_nonneg_all();
    if fs.len() > 0 {
        lemma_fields_mag_depth(fs.subrange(1, fs.len() as int));
        assert(forall|j: int|
            1 <= j < fs.len() ==> fs.subrange(1, fs.len() as int)[j - 1] == #[trigger] fs[j]);
    }
}

pub proof fn lemma_mag_depth_nonneg(t: TermV)
    ensures
        0 <= var_mag(t),
        0 <= binder_depth(t),
    decreases t,
{
    match t {
        TermV::Pred(t1) => lemma_mag_depth_nonneg(*t1),
        TermV::Succ(t1) => lemma_mag_depth_nonneg(*t1),
        TermV::IsZero(t1) => lemma_mag_depth_nonneg(*t1),
        TermV::If(c, a, b) => {
            lemma_mag_depth_nonneg(*c);
            lemma_mag_depth_nonneg(*a);
            lemma_mag_depth_nonneg(*b);
        },
        TermV::App(f, a) => {
            lemma_mag_depth_nonneg(*f);
            lemma_mag_depth_nonneg(*a);
        },
        TermV::Abst(_, _, body) => lemma_mag_depth_nonneg(*body),
        TermV::Proj(r, _) => lemma_mag_depth_nonneg(*r),
        TermV::Record(fs) => lemma_fields_mag_depth_nonneg(fs),
        _ => {},
    }
}

pub proof fn lemma_fields_mag_depth_nonneg(fs: Seq<(Seq<char>, TermV)>)
    ensures
        0 <= fields_mag(fs),
        0 <= fields_binder_depth(fs),
    decreases fs,
{
    if fs.len() > 0 {
        lemma_mag_depth_nonneg(fs[0].1);
        lemma_fields_mag_depth_nonneg(fs.subrange(1, fs.len() as int));
    }
}

pub proof fn lemma_mag_depth_nonneg_all()
    ensures
        forall|t: TermV| 0 <= #[trigger] var_mag(t),
        forall|t: TermV| 0 <= #[trigger] binder_depth(t),
{
    assert forall|t: TermV| 0 <= #[trigger] var_mag(t) by {
        lemma_mag_depth_nonneg(t);
    }
    assert forall|t: TermV| 0 <= #[trigger] binder_depth(t) by {
        lemma_mag_depth_nonneg(t);
    }
}

/// `spec_shift_walk(c, d, t)`: add `d` to every variable index that is free
/// relative to cutoff `c`; the diagnostic context-length field is adjusted
/// by `d` on every variable.
pub open spec fn spec_shift_walk(c: int, d: int, t: TermV) -> TermV
    decreases t,
{
    match t {
        TermV::True => TermV::True,
        TermV::False => TermV::False,
        TermV::Zero => TermV::Zero,
        TermV::Pred(t1) => TermV::Pred(Box::new(spec_shift_walk(c, d, *t1))),
        TermV::Succ(t1) => TermV::Succ(Box::new(spec_shift_walk(c, d, *t1))),
        TermV::IsZero(t1) => TermV::IsZero(Box::new(spec_shift_walk(c, d, *t1))),
        TermV::If(c0, t1, t2) => TermV::If(
            Box::new(spec_shift_walk(c, d, *c0)),
            Box::new(spec_shift_walk(c, d, *t1)),
            Box::new(spec_shift_walk(c, d, *t2)),
        ),
        TermV::Var(k, l) => if k >= c {
            TermV::Var(k + d, l + d)
        } else {
            TermV::Var(k, l + d)
        },
        TermV::App(f, a) => TermV::App(
            Box::new(spec_shift_walk(c, d, *f)),
            Box::new(spec_shift_walk(c, d, *a)),
        ),
        TermV::Abst(x, ty, body) => TermV::Abst(x, ty, Box::new(spec_shift_walk(c + 1, d, *body))),
        TermV::Proj(r, l) => TermV::Proj(Box::new(spec_shift_walk(c, d, *r)), l),
        TermV::Record(fs) => TermV::Record(spec_shift_fields(c, d, fs)),
    }
}

pub open spec fn spec_shift_fields(c: int, d: int, fs: Seq<(Seq<char>, TermV)>) -> Seq<
    (Seq<char>, TermV),
>
    decreases fs,
{
    if fs.len() == 0 {
        Seq::empty()
    } else {
        seq![(fs[0].0, spec_shift_walk(c, d, fs[0].1))] + spec_shift_fields(
            c,
            d,
            fs.subrange(1, fs.len() as int),
        )
    }
}

/// Shift every free variable of `t` by `d`.
pub open spec fn spec_shift(d: int, t: TermV) -> TermV {
    spec_shift_walk(0, d, t)
}

pub proof fn lemma_shift_fields(c: int, d: int, fs: Seq<(Seq<char>, TermV)>)
    ensures
        spec_shift_fields(c, d, fs).len() == fs.len(),
        forall|j: int|
            0 <= j < fs.len() ==> #[trigger] spec_shift_fields(c, d, fs)[j] == (
                fs[j].0,
                spec_shift_walk(c, d, fs[j].1),
            ),
    decreases fs.len(),
{
    if fs.len() > 0 {
        lemma_shift_fields(c, d, fs.subrange(1, fs.len() as int));
        assert(forall|j: int|
            1 <= j < fs.len() ==> fs.subrange(1, fs.len() as int)[j - 1] == #[trigger] fs[j]);
    }
}

/// `spec_subst_walk(c, j, s, t)`: replace variable `j + c` by `s` shifted
/// up by the local binder depth `c`.
pub open spec fn spec_subst_walk(c: int, j: int, s: TermV, t: TermV) -> TermV
    decreases t,
{
    match t {
        TermV::True => TermV::True,
        TermV::False => TermV::False,
        TermV::Zero => TermV::Zero,
        TermV::Pred(t1) => TermV::Pred(Box::new(spec_subst_walk(c, j, s, *t1))),
        TermV::Succ(t1) => TermV::Succ(Box::new(spec_subst_walk(c, j, s, *t1))),
        TermV::IsZero(t1) => TermV::IsZero(Box::new(spec_subst_walk(c, j, s, *t1))),
        TermV::If(c0, t1, t2) => TermV::If(
            Box::new(spec_subst_walk(c, j, s, *c0)),
            Box::new(spec_subst_walk(c, j, s, *t1)),
            Box::new(spec_subst_walk(c, j, s, *t2)),
        ),
        TermV::Var(k, l) => if k == j + c {
            spec_shift_walk(0, c, s)
        } else {
            TermV::Var(k, l)
        },
        TermV::App(f, a) => TermV::App(
            Box::new(spec_subst_walk(c, j, s, *f)),
            Box::new(spec_subst_walk(c, j, s, *a)),
        ),
        TermV::Abst(x, ty, body) => TermV::Abst(
            x,
            ty,
            Box::new(spec_subst_walk(c + 1, j, s, *body)),
        ),
        TermV::Proj(r, l) => TermV::Proj(Box::new(spec_subst_walk(c, j, s, *r)), l),
        TermV::Record(fs) => TermV::Record(spec_subst_fields(c, j, s, fs)),
    }
}

pub open spec fn spec_subst_fields(c: int, j: int, s: TermV, fs: Seq<(Seq<char>, TermV)>) -> Seq<
    (Seq<char>, TermV),
>
    decreases fs,
{
    if fs.len() == 0 {
        Seq::empty()
    } else {
        seq![(fs[0].0, spec_subst_walk(c, j, s, fs[0].1))] + spec_subst_fields(
            c,
            j,
            s,
            fs.subrange(1, fs.len() as int),
        )
    }
}

/// Replace every free occurrence of variable `j` in `t` by `s`.
pub open spec fn spec_subst(j: int, s: TermV, t: TermV) -> TermV {
    spec_subst_walk(0, j, s, t)
}

/// The substitution performed by beta-reduction: shift `s` up by one,
/// substitute it for variable 0, then shift the result down by one.
pub open spec fn spec_subst_top(s: TermV, t: TermV) -> TermV {
    spec_shift(-1, spec_subst(0, spec_shift(1, s), t))
}

pub proof fn lemma_subst_fields(c: int, j: int, s: TermV, fs: Seq<(Seq<char>, TermV)>)
    ensures
        spec_subst_fields(c, j, s, fs).len() == fs.len(),
        forall|jj: int|
            0 <= jj < fs.len() ==> #[trigger] spec_subst_fields(c, j, s, fs)[jj] == (
                fs[jj].0,
                spec_subst_walk(c, j, s, fs[jj].1),
            ),
    decreases fs.len(),
{
    if fs.len() > 0 {
        lemma_subst_fields(c, j, s, fs.subrange(1, fs.len() as int));
        assert(forall|jj: int|
            1 <= jj < fs.len() ==> fs.subrange(1, fs.len() as int)[jj - 1] == #[trigger] fs[jj]);
    }
}

pub proof fn lemma_shift_mag_depth(c: int, d: int, t: TermV)
    ensures
        var_mag(spec_shift_walk(c, d, t)) <= var_mag(t) + (if d >= 0 {
            d
        } else {
            -d
        }),
        binder_depth(spec_shift_walk(c, d, t)) == binder_depth(t),
    decreases t,
{
    match t {
        TermV::Pred(t1) => lemma_shift_mag_depth(c, d, *t1),
        TermV::Succ(t1) => lemma_shift_mag_depth(c, d, *t1),
        TermV::IsZero(t1) => lemma_shift_mag_depth(c, d, *t1),
        TermV::If(c0, t1, t2) => {
            lemma_shift_mag_depth(c, d, *c0);
            lemma_shift_mag_depth(c, d, *t1);
            lemma_shift_mag_depth(c, d, *t2);
        },
        TermV::App(f, a) => {
            lemma_shift_mag_depth(c, d, *f);
            lemma_shift_mag_depth(c, d, *a);
        },
        TermV::Abst(_, _, body) => lemma_shift_mag_depth(c + 1, d, *body),
        TermV::Proj(r, _) => lemma_shift_mag_depth(c, d, *r),
        TermV::Record(fs) => lemma_shift_fields_mag_depth(c, d, fs),
        _ => {},
    }
}

pub proof fn lemma_shift_fields_mag_depth(c: int, d: int, fs: Seq<(Seq<char>, TermV)>)
    ensures
        fields_mag(spec_shift_fields(c, d, fs)) <= fields_mag(fs) + (if d >= 0 {
            d
        } else {
            -d
        }),
        fields_binder_depth(spec_shift_fields(c, d, fs)) == fields_binder_depth(fs),
    decreases fs,
{
    if fs.len() > 0 {
        lemma_shift_mag_depth(c, d, fs[0].1);
        lemma_shift_fields_mag_depth(c, d, fs.subrange(1, fs.len() as int));
        assert(spec_shift_fields(c, d, fs).subrange(
            1,
            spec_shift_fields(c, d, fs).len() as int,
        ) =~= spec_shift_fields(c, d, fs.subrange(1, fs.len() as int))) by {
            lemma_shift_fields(c, d, fs);
            lemma_shift_fields(c, d, fs.subrange(1, fs.len() as int));
        }
    }
}

pub proof fn lemma_subst_mag_depth(c: int, j: int, s: TermV, t: TermV)
    requires
        0 <= c,
    ensures
        var_mag(spec_subst_walk(c, j, s, t)) <= imax(
            var_mag(t),
            var_mag(s) + c + binder_depth(t),
        ),
        binder_depth(spec_subst_walk(c, j, s, t)) <= binder_depth(t) + binder_depth(s),
    decreases t,
{
    lemma_mag_depth_nonneg_all();
    match t {
        TermV::Pred(t1) => lemma_subst_mag_depth(c, j, s, *t1),
        TermV::Succ(t1) => lemma_subst_mag_depth(c, j, s, *t1),
        TermV::IsZero(t1) => lemma_subst_mag_depth(c, j, s, *t1),
        TermV::If(c0, t1, t2) => {
            lemma_subst_mag_depth(c, j, s, *c0);
            lemma_subst_mag_depth(c, j, s, *t1);
            lemma_subst_mag_depth(c, j, s, *t2);
        },
        TermV::Var(k, l) => {
            if k == j + c {
                lemma_shift_mag_depth(0, c, s);
            }
        },
        TermV::App(f, a) => {
            lemma_subst_mag_depth(c, j, s, *f);
            lemma_subst_mag_depth(c, j, s, *a);
        },
        TermV::Abst(_, _, body) => lemma_subst_mag_depth(c + 1, j, s, *body),
        TermV::Proj(r, _) => lemma_subst_mag_depth(c, j, s, *r),
        TermV::Record(fs) => lemma_subst_fields_mag_depth(c, j, s, fs),
        _ => {},
    }
}

pub proof fn lemma_subst_fields_mag_depth(c: int, j: int, s: TermV, fs: Seq<(Seq<char>, TermV)>)
    requires
        0 <= c,
    ensures
        fields_mag(spec_subst_fields(c, j, s, fs)) <= imax(
            fields_mag(fs),
            var_mag(s) + c + fields_binder_depth(fs),
        ),
        fields_binder_depth(spec_subst_fields(c, j, s, fs)) <= fields_binder_depth(fs)
            + binder_depth(s),
    decreases fs,
{
    lemma_mag_depth_nonneg_all();
    lemma_fields_mag_depth_nonneg(fs);
    if fs.len() > 0 {
        lemma_subst_mag_depth(c, j, s, fs[0].1);
        lemma_subst_fields_mag_depth(c, j, s, fs.subrange(1, fs.len() as int));
        assert(spec_subst_fields(c, j, s, fs).subrange(
            1,
            spec_subst_fields(c, j, s, fs).len() as int,
        ) =~= spec_subst_fields(c, j, s, fs.subrange(1, fs.len() as int))) by {
            lemma_subst_fields(c, j, s, fs);
            lemma_subst_fields(c, j, s, fs.subrange(1, fs.len() as int));
        }
    }
}

/// A term is a value: no evaluation rule applies to it and evaluation
/// returns it unchanged. The context is unused: values are recognised
/// from the term alone.
pub fn is_val(ctx: &Context, t: &Term) -> (r: bool)
    ensures
        r == spec_is_val(t@),
    decreases t,
{
    match t {
        Term::Abst(_, _, _, _) => true,
        Term::True(_) | Term::False(_) => true,
        Term::Zero(_) => true,
        Term::Succ(_, n) => is_numeric_val(n),
        Term::Record(_, fs) => {
            let mut i: usize = 0;
            proof {
                lemma_term_fields_view(fs@);
                lemma_fields_vals(term_fields_view(fs@));
            }
            #[verifier::loop_isolation(false)]
            while i < fs.len()
                invariant
                    i <= fs.len(),
                    forall|j: int| 0 <= j < i ==> spec_is_val(term_view(#[trigger] fs@[j].1)),
                decreases fs.len() - i,
            {
                let p = &fs[i];
                proof {
                    assert(decreases_to!(*t => t->Record_1));
                    assert(decreases_to!(*fs => fs@));
                    assert(decreases_to!(fs@ => fs@[i as int]));
                    assert(decreases_to!(fs@[i as int] => fs@[i as int].1));
                    assert(decreases_to!(*t => p.1));
                }
                if !is_val(ctx, &p.1) {
                    proof {
                        assert(term_fields_view(fs@)[i as int].1 == term_view(fs@[i as int].1));
                        assert(!spec_fields_vals(term_fields_view(fs@)));
                    }
                    return false;
                }
                i = i + 1;
            }
            true
        },
        _ => false,
    }
}

fn is_numeric_val(t: &Term) -> (r: bool)
    ensures
        r == spec_is_numeric(t@),
    decreases t,
{
    match t {
        Term::Zero(_) => true,
        Term::Succ(_, n) => is_numeric_val(n),
        _ => false,
    }
}

fn shift_walk(c: i32, d: i32, t: &Term) -> (r: Term)
    requires
        0 <= c,
        c + binder_depth(t@) <= 0x4000_0000,
        -0x4000_0000 <= d <= 0x4000_0000,
        var_mag(t@) < 0x4000_0000,
    ensures
        r@ == spec_shift_walk(c as int, d as int, t@),
    decreases t,
{
    proof {
        lemma_mag_depth_nonneg(t@);
    }
    match t {
        Term::True(info) => Term::True(*info),
        Term::False(info) => Term::False(*info),
        Term::Zero(info) => Term::Zero(*info),
        Term::Pred(info, t1) => Term::Pred(*info, Box::new(shift_walk(c, d, t1))),
        Term::Succ(info, t1) => Term::Succ(*info, Box::new(shift_walk(c, d, t1))),
        Term::IsZero(info, t1) => Term::IsZero(*info, Box::new(shift_walk(c, d, t1))),
        Term::If(info, c0, t1, t2) => Term::If(
            *info,
            Box::new(shift_walk(c, d, c0)),
            Box::new(shift_walk(c, d, t1)),
            Box::new(shift_walk(c, d, t2)),
        ),
        Term::Var(info, k, l) => {
            if *k >= c {
                Term::Var(*info, *k + d, *l + d)
            } else {
                Term::Var(*info, *k, *l + d)
            }
        },
        Term::App(info, f, a) => Term::App(
            *info,
            Box::new(shift_walk(c, d, f)),
            Box::new(shift_walk(c, d, a)),
        ),
        Term::Abst(info, x, ty, body) => Term::Abst(
            *info,
            x.clone(),
            clone_type(ty),
            Box::new(shift_walk(c + 1, d, body)),
        ),
        Term::Proj(info, r0, l) => Term::Proj(*info, Box::new(shift_walk(c, d, r0)), l.clone()),
        Term::Record(info, fs) => {
            let mut out: Vec<(String, Term)> = Vec::new();
            let mut i: usize = 0;
            proof {
                lemma_term_fields_view(fs@);
                lemma_fields_mag_depth(term_fields_view(fs@));
            }
            #[verifier::loop_isolation(false)]
            while i < fs.len()
                invariant
                    i <= fs.len(),
                    out@.len() == i as int,
                    forall|j: int|
                        0 <= j < i ==> #[trigger] out@[j].0@ == fs@[j].0@ && out@[j].1@
                            == spec_shift_walk(c as int, d as int, fs@[j].1@),
                decreases fs.len() - i,
            {
                let p = &fs[i];
                proof {
                    assert(decreases_to!(*t => t->Record_1));
                    assert(decreases_to!(*fs => fs@));
                    assert(decreases_to!(fs@ => fs@[i as int]));
                    assert(decreases_to!(fs@[i as int] => fs@[i as int].1));
                    assert(decreases_to!(*t => p.1));
                    assert(term_fields_view(fs@)[i as int].1 == fs@[i as int].1@);
                    assert(binder_depth(fs@[i as int].1@) <= binder_depth(t@));
                    assert(var_mag(fs@[i as int].1@) <= var_mag(t@));
                }
                out.push((p.0.clone(), shift_walk(c, d, &p.1)));
                i = i + 1;
            }
            proof {
                lemma_term_fields_view(out@);
                lemma_shift_fields(c as int, d as int, term_fields_view(fs@));
                assert(term_fields_view(out@) =~= spec_shift_fields(
                    c as int,
                    d as int,
                    term_fields_view(fs@),
                ));
            }
            Term::Record(*info, out)
        },
    }
}

/// Add `d` to every free variable index of `t`; bound variables keep their
/// index, and every variable's diagnostic context-length field moves by `d`.
pub fn shift(d: i32, t: &Term) -> (r: Term)
    requires
        -0x4000_0000 <= d <= 0x4000_0000,
        var_mag(t@) < 0x4000_0000,
        binder_depth(t@) <= 0x4000_0000,
    ensures
        r@ == spec_shift(d as int, t@),
{
    proof {
        lemma_mag_depth_nonneg(t@);
    }
    shift_walk(0, d, t)
}

fn subst_walk(c: i32, j: i32, s: &Term, t: &Term) -> (r: Term)
    requires
        0 <= j <= 0x2000_0000,
        0 <= c,
        c + binder_depth(t@) <= 0x2000_0000,
        var_mag(s@) < 0x2000_0000,
        binder_depth(s@) <= 0x2000_0000,
    ensures
        r@ == spec_subst_walk(c as int, j as int, s@, t@),
    decreases t,
{
    proof {
        lemma_mag_depth_nonneg(t@);
        lemma_mag_depth_nonneg(s@);
    }
    match t {
        Term::True(info) => Term::True(*info),
        Term::False(info) => Term::False(*info),
        Term::Zero(info) => Term::Zero(*info),
        Term::Pred(info, t1) => Term::Pred(*info, Box::new(subst_walk(c, j, s, t1))),
        Term::Succ(info, t1) => Term::Succ(*info, Box::new(subst_walk(c, j, s, t1))),
        Term::IsZero(info, t1) => Term::IsZero(*info, Box::new(subst_walk(c, j, s, t1))),
        Term::If(info, c0, t1, t2) => Term::If(
            *info,
            Box::new(subst_walk(c, j, s, c0)),
            Box::new(subst_walk(c, j, s, t1)),
            Box::new(subst_walk(c, j, s, t2)),
        ),
        Term::Var(info, k, l) => {
            if *k == j + c {
                shift(c, s)
            } else {
                Term::Var(*info, *k, *l)
            }
        },
        Term::App(info, f, a) => Term::App(
            *info,
            Box::new(subst_walk(c, j, s, f)),
            Box::new(subst_walk(c, j, s, a)),
        ),
        Term::Abst(info, x, ty, body) => Term::Abst(
            *info,
            x.clone(),
            clone_type(ty),
            Box::new(subst_walk(c + 1, j, s, body)),
        ),
        Term::Proj(info, r0, l) => Term::Proj(*info, Box::new(subst_walk(c, j, s, r0)), l.clone()),
        Term::Record(info, fs) => {
            let mut out: Vec<(String, Term)> = Vec::new();
            let mut i: usize = 0;
            proof {
                lemma_term_fields_view(fs@);
                lemma_fields_mag_depth(term_fields_view(fs@));
            }
            #[verifier::loop_isolation(false)]
            while i < fs.len()
                invariant
                    i <= fs.len(),
                    out@.len() == i as int,
                    forall|jj: int|
                        0 <= jj < i ==> #[trigger] out@[jj].0@ == fs@[jj].0@ && out@[jj].1@
                            == spec_subst_walk(c as int, j as int, s@, fs@[jj].1@),
                decreases fs.len() - i,
            {
                let p = &fs[i];
                proof {
                    assert(decreases_to!(*t => t->Record_1));
                    assert(decreases_to!(*fs => fs@));
                    assert(decreases_to!(fs@ => fs@[i as int]));
                    assert(decreases_to!(fs@[i as int] => fs@[i as int].1));
                    assert(decreases_to!(*t => p.1));
                    assert(term_fields_view(fs@)[i as int].1 == fs@[i as int].1@);
                    assert(binder_depth(fs@[i as int].1@) <= binder_depth(t@));
                }
                out.push((p.0.clone(), subst_walk(c, j, s, &p.1)));
                i = i + 1;
            }
            proof {
                lemma_term_fields_view(out@);
                lemma_subst_fields(c as int, j as int, s@, term_fields_view(fs@));
                assert(term_fields_view(out@) =~= spec_subst_fields(
                    c as int,
                    j as int,
                    s@,
                    term_fields_view(fs@),
                ));
            }
            Term::Record(*info, out)
        },
    }
}

/// Replace every free occurrence of variable `j` in `t` by `s`, shifting
/// `s` by the binder depth at each occurrence so that no free variable of
/// `s` is captured.
pub fn subst(j: i32, s: &Term, t: &Term) -> (r: Term)
    requires
        0 <= j <= 0x2000_0000,
        binder_depth(t@) <= 0x2000_0000,
        var_mag(s@) < 0x2000_0000,
        binder_depth(s@) <= 0x2000_0000,
    ensures
        r@ == spec_subst(j as int, s@, t@),
{
    proof {
        lemma_mag_depth_nonneg(t@);
    }
    subst_walk(0, j, s, t)
}

/// Beta-reduction's substitution of `s` for the binder just consumed:
/// shift `s` up by one, substitute for variable 0, shift the result down.
pub fn subst_top(s: &Term, t: &Term) -> (r: Term)
    requires
        var_mag(s@) < 0x1000_0000,
        binder_depth(s@) <= 0x1000_0000,
        var_mag(t@) < 0x1000_0000,
        binder_depth(t@) <= 0x1000_0000,
    ensures
        r@ == spec_subst_top(s@, t@),
{
    proof {
        lemma_mag_depth_nonneg(s@);
        lemma_mag_depth_nonneg(t@);
        lemma_shift_mag_depth(0, 1, s@);
    }
    let s1 = shift(1, s);
    let u = subst(0, &s1, t);
    proof {
        lemma_subst_mag_depth(0, 0, s1@, t@);
        lemma_shift_mag_depth(0, -1, spec_subst_walk(0, 0, s1@, t@));
    }
    shift(-1, &u)
}

/// A fatal evaluation error, carrying the source region it arose at.
#[derive(Debug, PartialEq)]
pub enum EvalError {
    /// An `if` condition reduced to a value other than `True`/`False`,
    /// or got stuck before reaching one.
    StuckCondition(TokenInfo),
    /// A projection label absent from the record value.
    MissingField(TokenInfo, String),
    /// The step budget handed to `eval`, or the engine's size limit on
    /// intermediate terms, was exhausted before a normal form.
    OutOfFuel,
}

/// View of a fatal evaluation error.
pub enum EvalErrV {
    StuckCondition,
    MissingField(Seq<char>),
}

/// Outcome of trying one reduction step.
pub enum StepV {
    /// One rule applied, yielding the given term.
    Progress(TermV),
    /// No rule applies: the term is a value or an inert stuck term.
    Done,
    /// A fatal error.
    Failure(EvalErrV),
}

/// Outcome of stepping a record's fields.
pub enum FieldsStepV {
    AllVals,
    Progress(Seq<(Seq<char>, TermV)>),
    Done,
    Failure(EvalErrV),
}

/// Outcome of running the evaluator with a step budget.
pub enum EvalOutcomeV {
    Finished(TermV),
    Failed(EvalErrV),
    OutOfFuel,
}

/// First field of `fs` labelled `l`, if any.
pub open spec fn spec_lookup_field(fs: Seq<(Seq<char>, TermV)>, l: Seq<char>) -> Option<TermV>
    decreases fs,
{
    if fs.len() == 0 {
        None
    } else if fs[0].0 == l {
        Some(fs[0].1)
    } else {
        spec_lookup_field(fs.subrange(1, fs.len() as int), l)
    }
}

pub proof fn lemma_lookup_field(fs: Seq<(Seq<char>, TermV)>, l: Seq<char>, i: int)
    requires
        0 <= i <= fs.len(),
        forall|j: int| 0 <= j < i ==> (#[trigger] fs[j]).0 != l,
    ensures
        i < fs.len() && fs[i].0 == l ==> spec_lookup_field(fs, l) == Some(fs[i].1),
        i == fs.len() ==> spec_lookup_field(fs, l) == None::<TermV>,
    decreases fs.len(),
{
    if fs.len() > 0 && i > 0 {
        lemma_lookup_field(fs.subrange(1, fs.len() as int), l, i - 1);
        assert(forall|j: int|
            1 <= j < fs.len() ==> fs.subrange(1, fs.len() as int)[j - 1] == #[trigger] fs[j]);
    }
}

/// Step a subterm that stands in evaluation position: a value takes no
/// step; otherwise its own step rule decides.
pub open spec fn spec_step_inner(t1: TermV) -> StepV
    decreases t1, 1int,
{
    if spec_is_val(t1) {
        StepV::Done
    } else {
        spec_step(t1)
    }
}

/// The one-step call-by-value reduction relation. `Progress` is the unique
/// reduct; `Done` means no rule applies (a value, or an inert term such as
/// a bare variable); `Failure` is a fatal error: a stuck conditional or a
/// missing record field.
pub open spec fn spec_step(t: TermV) -> StepV
    decreases t, 0int,
{
    match t {
        TermV::App(f, a) => {
            if spec_is_val(*f) {
                if spec_is_val(*a) {
                    match *f {
                        TermV::Abst(_, _, body) => StepV::Progress(spec_subst_top(*a, *body)),
                        _ => StepV::Done,
                    }
                } else {
                    match spec_step(*a) {
                        StepV::Progress(a2) => StepV::Progress(
                            TermV::App(f, Box::new(a2)),
                        ),
                        StepV::Done => StepV::Done,
                        StepV::Failure(e) => StepV::Failure(e),
                    }
                }
            } else {
                match spec_step(*f) {
                    StepV::Progress(f2) => StepV::Progress(TermV::App(Box::new(f2), a)),
                    StepV::Done => StepV::Done,
                    StepV::Failure(e) => StepV::Failure(e),
                }
            }
        },
        TermV::If(c0, t1, t2) => {
            match *c0 {
                TermV::True => StepV::Progress(*t1),
                TermV::False => StepV::Progress(*t2),
                _ => match spec_step_inner(*c0) {
                    StepV::Progress(c2) => StepV::Progress(TermV::If(Box::new(c2), t1, t2)),
                    StepV::Done => StepV::Failure(EvalErrV::StuckCondition),
                    StepV::Failure(e) => StepV::Failure(e),
                },
            }
        },
        TermV::Pred(t1) => {
            match *t1 {
                TermV::Zero => StepV::Progress(TermV::Zero),
                TermV::Succ(n) => if spec_is_numeric(*n) {
                    StepV::Progress(*n)
                } else {
                    match spec_step_inner(*t1) {
                        StepV::Progress(u) => StepV::Progress(TermV::Pred(Box::new(u))),
                        StepV::Done => StepV::Done,
                        StepV::Failure(e) => StepV::Failure(e),
                    }
                },
                _ => match spec_step_inner(*t1) {
                    StepV::Progress(u) => StepV::Progress(TermV::Pred(Box::new(u))),
                    StepV::Done => StepV::Done,
                    StepV::Failure(e) => StepV::Failure(e),
                },
            }
        },
        TermV::Succ(t1) => {
            match spec_step_inner(*t1) {
                StepV::Progress(u) => StepV::Progress(TermV::Succ(Box::new(u))),
                StepV::Done => StepV::Done,
                StepV::Failure(e) => StepV::Failure(e),
            }
        },
        TermV::IsZero(t1) => {
            match *t1 {
                TermV::Zero => StepV::Progress(TermV::True),
                TermV::Succ(n) => if spec_is_numeric(*n) {
                    StepV::Progress(TermV::False)
                } else {
                    match spec_step_inner(*t1) {
                        StepV::Progress(u) => StepV::Progress(TermV::IsZero(Box::new(u))),
                        StepV::Done => StepV::Done,
                        StepV::Failure(e) => StepV::Failure(e),
                    }
                },
                _ => match spec_step_inner(*t1) {
                    StepV::Progress(u) => StepV::Progress(TermV::IsZero(Box::new(u))),
                    StepV::Done => StepV::Done,
                    StepV::Failure(e) => StepV::Failure(e),
                },
            }
        },
        TermV::Record(fs) => {
            match spec_step_fields(fs) {
                FieldsStepV::AllVals => StepV::Done,
                FieldsStepV::Progress(fs2) => StepV::Progress(TermV::Record(fs2)),
                FieldsStepV::Done => StepV::Done,
                FieldsStepV::Failure(e) => StepV::Failure(e),
            }
        },
        TermV::Proj(r, l) => {
            match *r {
                TermV::Record(fs) => match spec_lookup_field(fs, l) {
                    Some(u) => StepV::Progress(u),
                    None => StepV::Failure(EvalErrV::MissingField(l)),
                },
                _ => StepV::Done,
            }
        },
        _ => StepV::Done,
    }
}

/// Step the leftmost non-value field; `AllVals` when every field is a value.
pub open spec fn spec_step_fields(fs: Seq<(Seq<char>, TermV)>) -> FieldsStepV
    decreases fs, 0int,
{
    if fs.len() == 0 {
        FieldsStepV::AllVals
    } else if spec_is_val(fs[0].1) {
        match spec_step_fields(fs.subrange(1, fs.len() as int)) {
            FieldsStepV::AllVals => FieldsStepV::AllVals,
            FieldsStepV::Progress(rest) => FieldsStepV::Progress(seq![fs[0]] + rest),
            FieldsStepV::Done => FieldsStepV::Done,
            FieldsStepV::Failure(e) => FieldsStepV::Failure(e),
        }
    } else {
        match spec_step(fs[0].1) {
            StepV::Progress(u) => FieldsStepV::Progress(
                seq![(fs[0].0, u)] + fs.subrange(1, fs.len() as int),
            ),
            StepV::Done => FieldsStepV::Done,
            StepV::Failure(e) => FieldsStepV::Failure(e),
        }
    }
}

pub proof fn lemma_step_fields_char(fs: Seq<(Seq<char>, TermV)>, i: int)
    requires
        0 <= i <= fs.len(),
        forall|j: int| 0 <= j < i ==> spec_is_val((#[trigger] fs[j]).1),
        i < fs.len() ==> !spec_is_val(fs[i].1),
    ensures
        i == fs.len() ==> spec_step_fields(fs) == FieldsStepV::AllVals,
        i < fs.len() ==> spec_step_fields(fs) == (match spec_step(fs[i].1) {
            StepV::Progress(u) => FieldsStepV::Progress(fs.update(i, (fs[i].0, u))),
            StepV::Done => FieldsStepV::Done,
            StepV::Failure(e) => FieldsStepV::Failure(e),
        }),
    decreases fs.len(),
{
    if fs.len() == 0 {
    } else if i == 0 {
        match spec_step(fs[0].1) {
            StepV::Progress(u) => {
                assert(seq![(fs[0].0, u)] + fs.subrange(1, fs.len() as int) =~= fs.update(
                    0,
                    (fs[0].0, u),
                ));
            },
            _ => {},
        }
    } else {
        let rest = fs.subrange(1, fs.len() as int);
        assert(forall|j: int| 1 <= j < fs.len() ==> rest[j - 1] == #[trigger] fs[j]);
        lemma_step_fields_char(rest, i - 1);
        if i < fs.len() {
            match spec_step(fs[i].1) {
                StepV::Progress(u) => {
                    assert(rest[i - 1] == fs[i]);
                    assert(seq![fs[0]] + rest.update(i - 1, (fs[i].0, u)) =~= fs.update(
                        i,
                        (fs[i].0, u),
                    ));
                },
                _ => {},
            }
        }
    }
}

/// Terms the engine operates on: variable indices and context-length
/// fields below 2^28 in magnitude, abstractions nested at most 2^28 deep.
/// Within these limits every index adjustment fits an `i32`.
pub open spec fn spec_within_limits(t: TermV) -> bool {
    var_mag(t) < 0x1000_0000 && binder_depth(t) <= 0x1000_0000
}

pub proof fn lemma_fields_limits(fs: Seq<(Seq<char>, TermV)>, lim: int, md: int)
    requires
        0 < lim,
        0 <= md,
    ensures
        (fields_mag(fs) < lim) <==> (forall|j: int|
            0 <= j < fs.len() ==> var_mag((#[trigger] fs[j]).1) < lim),
        (fields_binder_depth(fs) <= md) <==> (forall|j: int|
            0 <= j < fs.len() ==> binder_depth((#[trigger] fs[j]).1) <= md),
    decreases fs.len(),
{
    if fs.len() > 0 {
        lemma_fields_limits(fs.subrange(1, fs.len() as int), lim, md);
        assert(forall|j: int|
            1 <= j < fs.len() ==> fs.subrange(1, fs.len() as int)[j - 1] == #[trigger] fs[j]);
    }
}

/// Decide whether every variable field of `t` is below 2^28 in magnitude
/// and no abstraction nests deeper than `max_depth`.
#[verifier::rlimit(60)]
fn limits_ok(t: &Term, max_depth: u32) -> (b: bool)
    ensures
        b == (var_mag(t@) < 0x1000_0000 && binder_depth(t@) <= max_depth as int),
    decreases t,
{
    let md: Ghost<int> = Ghost(max_depth as int);
    match t {
        Term::True(_) => true,
        Term::False(_) => true,
        Term::Zero(_) => true,
        Term::Var(_, k, l) => {
            let b0 = -0x1000_0000 < *k && *k < 0x1000_0000 && -0x1000_0000 < *l && *l
                < 0x1000_0000;
            proof {
                assert(b0 == (var_mag(t@) < 0x1000_0000 && binder_depth(t@) <= md@));
            }
            b0
        },
        Term::Pred(_, t1) => {
            let b0 = limits_ok(t1, max_depth);
            proof {
                assert(b0 == (var_mag(t@) < 0x1000_0000 && binder_depth(t@) <= md@));
            }
            b0
        },
        Term::Succ(_, t1) => {
            let b0 = limits_ok(t1, max_depth);
            proof {
                assert(b0 == (var_mag(t@) < 0x1000_0000 && binder_depth(t@) <= md@));
            }
            b0
        },
        Term::IsZero(_, t1) => {
            let b0 = limits_ok(t1, max_depth);
            proof {
                assert(b0 == (var_mag(t@) < 0x1000_0000 && binder_depth(t@) <= md@));
            }
            b0
        },
        Term::If(_, c0, t1, t2) => {
            let b0 = limits_ok(c0, max_depth) && limits_ok(t1, max_depth)
                && limits_ok(t2, max_depth);
            proof {
                assert(b0 == (var_mag(t@) < 0x1000_0000 && binder_depth(t@) <= md@));
            }
            b0
        },
        Term::App(_, f, a) => {
            let b0 = limits_ok(f, max_depth) && limits_ok(a, max_depth);
            proof {
                assert(b0 == (var_mag(t@) < 0x1000_0000 && binder_depth(t@) <= md@));
            }
            b0
        },
        Term::Abst(_, _, _, body) => {
            let b0 = max_depth > 0 && limits_ok(body, max_depth - 1);
            proof {
                lemma_mag_depth_nonneg(body@);
                assert(b0 == (var_mag(t@) < 0x1000_0000 && binder_depth(t@) <= md@));
            }
            b0
        },
        Term::Proj(_, r0, _) => {
            let b0 = limits_ok(r0, max_depth);
            proof {
                assert(b0 == (var_mag(t@) < 0x1000_0000 && binder_depth(t@) <= md@));
            }
            b0
        },
        Term::Record(_, fs) => {
            let mut i: usize = 0;
            proof {
                lemma_term_fields_view(fs@);
                lemma_fields_limits(term_fields_view(fs@), 0x1000_0000, max_depth as int);
            }
            #[verifier::loop_isolation(false)]
            while i < fs.len()
                invariant
                    i <= fs.len(),
                    forall|j: int|
                        0 <= j < i ==> var_mag(#[trigger] fs@[j].1@) < 0x1000_0000 && binder_depth(
                            fs@[j].1@,
                        ) <= max_depth as int,
                decreases fs.len() - i,
            {
                let p = &fs[i];
                proof {
                    assert(decreases_to!(*t => t->Record_1));
                    assert(decreases_to!(*fs => fs@));
                    assert(decreases_to!(fs@ => fs@[i as int]));
                    assert(decreases_to!(fs@[i as int] => fs@[i as int].1));
                    assert(decreases_to!(*t => p.1));
                }
                if !limits_ok(&p.1, max_depth) {
                    proof {
                        assert(term_fields_view(fs@)[i as int].1 == fs@[i as int].1@);
                        assert(t@ == TermV::Record(term_fields_view(fs@)));
                        assert(!(var_mag(t@) < 0x1000_0000 && binder_depth(t@)
                            <= max_depth as int));
                    }
                    return false;
                }
                i = i + 1;
            }
            proof {
                assert forall|j: int| 0 <= j < fs@.len() implies var_mag(
                    (#[trigger] term_fields_view(fs@)[j]).1,
                ) < 0x1000_0000 && binder_depth(term_fields_view(fs@)[j].1) <= max_depth as int by {
                    assert(term_fields_view(fs@)[j].1 == fs@[j].1@);
                }
                assert(t@ == TermV::Record(term_fields_view(fs@)));
                assert(var_mag(t@) < 0x1000_0000 && binder_depth(t@) <= max_depth as int);
            }
            true
        },
    }
}


/// Copy `fs` with field `i` replaced by `(fs[i].0, u)`.
fn replace_field(fs: &Vec<(String, Term)>, i: usize, u: Term) -> (out: Vec<(String, Term)>)
    requires
        i < fs@.len(),
    ensures
        out@.len() == fs@.len(),
        forall|q: int|
            0 <= q < fs@.len() && q != i ==> #[trigger] out@[q].0@ == fs@[q].0@ && out@[q].1@
                == fs@[q].1@,
        out@[i as int].0@ == fs@[i as int].0@,
        out@[i as int].1@ == u@,
{
    let ghost uv = u@;
    let n = fs.len();
    let mut out: Vec<(String, Term)> = Vec::new();
    let mut j: usize = 0;
    while j < i
        invariant
            i < fs@.len(),
            j <= i,
            out@.len() == j as int,
            forall|q: int|
                0 <= q < j ==> #[trigger] out@[q].0@ == fs@[q].0@ && out@[q].1@ == fs@[q].1@,
        decreases i - j,
    {
        let pq = &fs[j];
        out.push((pq.0.clone(), clone_term(&pq.1)));
        j = j + 1;
    }
    let p = &fs[i];
    let ghost pre = out@;
    out.push((p.0.clone(), u));
    proof {
        assert(out@.len() == i + 1);
        assert(out@[i as int].0@ == fs@[i as int].0@);
        assert(out@[i as int].1@ == uv);
        assert forall|q: int| 0 <= q < i + 1 && q != i implies #[trigger] out@[q].0@ == fs@[q].0@
            && out@[q].1@ == fs@[q].1@ by {
            assert(out@[q] == pre[q]);
        }
    }
    let mut j2: usize = i + 1;
    while j2 < n
        invariant
            n == fs@.len(),
            i < fs@.len(),
            i + 1 <= j2 <= n,
            out@.len() == j2 as int,
            forall|q: int|
                0 <= q < j2 && q != i ==> #[trigger] out@[q].0@ == fs@[q].0@ && out@[q].1@
                    == fs@[q].1@,
            out@[i as int].0@ == fs@[i as int].0@,
            out@[i as int].1@ == uv,
        decreases n - j2,
    {
        let pq = &fs[j2];
        out.push((pq.0.clone(), clone_term(&pq.1)));
        j2 = j2 + 1;
    }
    out
}

/// Take one reduction step on `t`: `Ok(Some(u))` is the unique reduct,
/// `Ok(None)` means no rule applies, `Err` is a fatal error. The context
/// is unused by evaluation and only passed through to `is_val`.
#[verifier::rlimit(100)]
fn eval1(ctx: &Context, t: &Term) -> (r: Result<Option<Term>, EvalError>)
    requires
        spec_within_limits(t@),
    ensures
        match r {
            Ok(u) => match u {
                Some(t2) => spec_step(t@) == StepV::Progress(t2@),
                None => spec_step(t@) == StepV::Done,
            },
            Err(e) => match e {
                EvalError::StuckCondition(_) => spec_step(t@) == StepV::Failure(
                    EvalErrV::StuckCondition,
                ),
                EvalError::MissingField(_, l) => spec_step(t@) == StepV::Failure(
                    EvalErrV::MissingField(l@),
                ),
                EvalError::OutOfFuel => false,
            },
        },
    decreases t,
{
    proof {
        lemma_mag_depth_nonneg(t@);
    }
    match t {
        Term::App(info, f, a) => {
            if is_val(ctx, f) {
                if is_val(ctx, a) {
                    match &**f {
                        Term::Abst(_, _, _, body) => {
                            proof {
                                assert(var_mag(t@) == imax(var_mag(f@), var_mag(a@)));
                                assert(binder_depth(t@) == imax(
                                    binder_depth(f@),
                                    binder_depth(a@),
                                ));
                                assert(var_mag(f@) == var_mag(body@));
                                assert(binder_depth(f@) == 1 + binder_depth(body@));
                                lemma_mag_depth_nonneg(body@);
                                lemma_mag_depth_nonneg(a@);
                            }
                            let res = subst_top(a, body);
                            proof {
                                assert(spec_step(t@) == StepV::Progress(res@));
                            }
                            Ok(Some(res))
                        },
                        _ => {
                            proof {
                                assert(spec_step(t@) == StepV::Done);
                            }
                            Ok(None)
                        },
                    }
                } else {
                    match eval1(ctx, a) {
                        Ok(Some(a2)) => {
                            let res = Term::App(*info, Box::new(clone_term(f)), Box::new(a2));
                            proof {
                                assert(spec_step(t@) == StepV::Progress(res@));
                            }
                            Ok(Some(res))
                        },
                        Ok(None) => {
                            proof {
                                assert(spec_step(t@) == StepV::Done);
                            }
                            Ok(None)
                        },
                        Err(e) => Err(e),
                    }
                }
            } else {
                match eval1(ctx, f) {
                    Ok(Some(f2)) => {
                        let res = Term::App(*info, Box::new(f2), Box::new(clone_term(a)));
                        proof {
                            assert(spec_step(t@) == StepV::Progress(res@));
                        }
                        Ok(Some(res))
                    },
                    Ok(None) => {
                        proof {
                            assert(spec_step(t@) == StepV::Done);
                        }
                        Ok(None)
                    },
                    Err(e) => Err(e),
                }
            }
        },
        Term::If(info, c0, t1, t2) => {
            match &**c0 {
                Term::True(_) => {
                    let res = clone_term(t1);
                    proof {
                        assert(c0@ is True);
                        assert(spec_step(t@) == StepV::Progress(res@));
                    }
                    Ok(Some(res))
                },
                Term::False(_) => {
                    let res = clone_term(t2);
                    proof {
                        assert(c0@ is False);
                        assert(spec_step(t@) == StepV::Progress(res@));
                    }
                    Ok(Some(res))
                },
                _ => {
                    proof {
                        assert(!(c0@ is True) && !(c0@ is False));
                    }
                    if is_val(ctx, c0) {
                        proof {
                            assert(spec_step_inner(c0@) == StepV::Done);
                            assert(spec_step(t@) == StepV::Failure(EvalErrV::StuckCondition));
                        }
                        Err(EvalError::StuckCondition(*info))
                    } else {
                        proof {
                            assert(spec_step_inner(c0@) == spec_step(c0@));
                        }
                        match eval1(ctx, c0) {
                            Ok(Some(c2)) => {
                                let res = Term::If(
                                    *info,
                                    Box::new(c2),
                                    Box::new(clone_term(t1)),
                                    Box::new(clone_term(t2)),
                                );
                                proof {
                                    assert(spec_step(t@) == StepV::Progress(res@));
                                }
                                Ok(Some(res))
                            },
                            Ok(None) => {
                                proof {
                                    assert(spec_step(t@) == StepV::Failure(
                                        EvalErrV::StuckCondition,
                                    ));
                                }
                                Err(EvalError::StuckCondition(*info))
                            },
                            Err(e) => Err(e),
                        }
                    }
                },
            }
        },
        Term::Pred(info, t1) => {
            match &**t1 {
                Term::Zero(z) => {
                    proof {
                        assert(t1@ is Zero);
                        assert(spec_step(t@) == StepV::Progress(TermV::Zero));
                    }
                    Ok(Some(Term::Zero(*z)))
                },
                Term::Succ(_, n) => {
                    proof {
                        assert(t1@ == TermV::Succ(Box::new(n@)));
                    }
                    if is_numeric_val(n) {
                        let res = clone_term(n);
                        proof {
                            assert(spec_step(t@) == StepV::Progress(res@));
                        }
                        Ok(Some(res))
                    } else if is_val(ctx, t1) {
                        proof {
                            assert(spec_step_inner(t1@) == StepV::Done);
                            assert(spec_step(t@) == StepV::Done);
                        }
                        Ok(None)
                    } else {
                        proof {
                            assert(spec_step_inner(t1@) == spec_step(t1@));
                        }
                        match eval1(ctx, t1) {
                            Ok(Some(u)) => {
                                let res = Term::Pred(*info, Box::new(u));
                                proof {
                                    assert(spec_step(t@) == StepV::Progress(res@));
                                }
                                Ok(Some(res))
                            },
                            Ok(None) => {
                                proof {
                                    assert(spec_step(t@) == StepV::Done);
                                }
                                Ok(None)
                            },
                            Err(e) => Err(e),
                        }
                    }
                },
                _ => {
                    proof {
                        assert(!(t1@ is Zero) && !(t1@ is Succ));
                    }
                    if is_val(ctx, t1) {
                        proof {
                            assert(spec_step_inner(t1@) == StepV::Done);
                            assert(spec_step(t@) == StepV::Done);
                        }
                        Ok(None)
                    } else {
                        proof {
                            assert(spec_step_inner(t1@) == spec_step(t1@));
                        }
                        match eval1(ctx, t1) {
                            Ok(Some(u)) => {
                                let res = Term::Pred(*info, Box::new(u));
                                proof {
                                    assert(spec_step(t@) == StepV::Progress(res@));
                                }
                                Ok(Some(res))
                            },
                            Ok(None) => {
                                proof {
                                    assert(spec_step(t@) == StepV::Done);
                                }
                                Ok(None)
                            },
                            Err(e) => Err(e),
                        }
                    }
                },
            }
        },
        Term::Succ(info, t1) => {
            if is_val(ctx, t1) {
                proof {
                    assert(spec_step_inner(t1@) == StepV::Done);
                    assert(spec_step(t@) == StepV::Done);
                }
                Ok(None)
            } else {
                proof {
                    assert(spec_step_inner(t1@) == spec_step(t1@));
                }
                match eval1(ctx, t1) {
                    Ok(Some(u)) => {
                        let res = Term::Succ(*info, Box::new(u));
                        proof {
                            assert(spec_step(t@) == StepV::Progress(res@));
                        }
                        Ok(Some(res))
                    },
                    Ok(None) => {
                        proof {
                            assert(spec_step(t@) == StepV::Done);
                        }
                        Ok(None)
                    },
                    Err(e) => Err(e),
                }
            }
        },
        Term::IsZero(info, t1) => {
            match &**t1 {
                Term::Zero(_) => {
                    proof {
                        assert(t1@ is Zero);
                        assert(spec_step(t@) == StepV::Progress(TermV::True));
                    }
                    Ok(Some(Term::True(*info)))
                },
                Term::Succ(_, n) => {
                    proof {
                        assert(t1@ == TermV::Succ(Box::new(n@)));
                    }
                    if is_numeric_val(n) {
                        proof {
                            assert(spec_step(t@) == StepV::Progress(TermV::False));
                        }
                        Ok(Some(Term::False(*info)))
                    } else if is_val(ctx, t1) {
                        proof {
                            assert(spec_step_inner(t1@) == StepV::Done);
                            assert(spec_step(t@) == StepV::Done);
                        }
                        Ok(None)
                    } else {
                        proof {
                            assert(spec_step_inner(t1@) == spec_step(t1@));
                        }
                        match eval1(ctx, t1) {
                            Ok(Some(u)) => {
                                let res = Term::IsZero(*info, Box::new(u));
                                proof {
                                    assert(spec_step(t@) == StepV::Progress(res@));
                                }
                                Ok(Some(res))
                            },
                            Ok(None) => {
                                proof {
                                    assert(spec_step(t@) == StepV::Done);
                                }
                                Ok(None)
                            },
                            Err(e) => Err(e),
                        }
                    }
                },
                _ => {
                    proof {
                        assert(!(t1@ is Zero) && !(t1@ is Succ));
                    }
                    if is_val(ctx, t1) {
                        proof {
                            assert(spec_step_inner(t1@) == StepV::Done);
                            assert(spec_step(t@) == StepV::Done);
                        }
                        Ok(None)
                    } else {
                        proof {
                            assert(spec_step_inner(t1@) == spec_step(t1@));
                        }
                        match eval1(ctx, t1) {
                            Ok(Some(u)) => {
                                let res = Term::IsZero(*info, Box::new(u));
                                proof {
                                    assert(spec_step(t@) == StepV::Progress(res@));
                                }
                                Ok(Some(res))
                            },
                            Ok(None) => {
                                proof {
                                    assert(spec_step(t@) == StepV::Done);
                                }
                                Ok(None)
                            },
                            Err(e) => Err(e),
                        }
                    }
                },
            }
        },
        Term::Record(info, fs) => {
            let n = fs.len();
            let mut i: usize = 0;
            proof {
                lemma_term_fields_view(fs@);
                lemma_fields_limits(term_fields_view(fs@), 0x1000_0000, 0x1000_0000);
            }
            while i < n
                invariant
                    n == fs@.len(),
                    i <= n,
                    forall|j: int| 0 <= j < i ==> spec_is_val(#[trigger] fs@[j].1@),
                ensures
                    i <= n,
                    forall|j: int| 0 <= j < i ==> spec_is_val(#[trigger] fs@[j].1@),
                    i < n ==> !spec_is_val(fs@[i as int].1@),
                decreases n - i,
            {
                if !is_val(ctx, &fs[i].1) {
                    break;
                }
                i = i + 1;
            }
            proof {
                assert forall|j: int| 0 <= j < i implies spec_is_val(
                    (#[trigger] term_fields_view(fs@)[j]).1,
                ) by {
                    assert(term_fields_view(fs@)[j].1 == fs@[j].1@);
                }
                if i < n {
                    assert(term_fields_view(fs@)[i as int].1 == fs@[i as int].1@);
                }
                lemma_step_fields_char(term_fields_view(fs@), i as int);
            }
            if i == n {
                proof {
                    assert(spec_step(t@) == StepV::Done);
                }
                return Ok(None);
            }
            let p = &fs[i];
            proof {
                assert(decreases_to!(*t => t->Record_1));
                assert(decreases_to!(*fs => fs@));
                assert(decreases_to!(fs@ => fs@[i as int]));
                assert(decreases_to!(fs@[i as int] => fs@[i as int].1));
                assert(decreases_to!(*t => p.1));
                assert(term_fields_view(fs@)[i as int].1 == fs@[i as int].1@);
                lemma_fields_mag_depth(term_fields_view(fs@));
            }
            match eval1(ctx, &p.1) {
                Ok(Some(u)) => {
                    let out = replace_field(fs, i, u);
                    proof {
                        lemma_term_fields_view(out@);
                        let fsv = term_fields_view(fs@);
                        match spec_step(fsv[i as int].1) {
                            StepV::Progress(uu) => {
                                assert(term_fields_view(out@) =~= fsv.update(
                                    i as int,
                                    (fsv[i as int].0, uu),
                                ));
                            },
                            _ => {},
                        }
                        assert(spec_step_fields(fsv) == FieldsStepV::Progress(
                            term_fields_view(out@),
                        ));
                        assert(spec_step(t@) == StepV::Progress(
                            TermV::Record(term_fields_view(out@)),
                        ));
                    }
                    Ok(Some(Term::Record(*info, out)))
                },
                Ok(None) => {
                    proof {
                        assert(spec_step(t@) == StepV::Done);
                    }
                    Ok(None)
                },
                Err(e) => Err(e),
            }
        },
        Term::Proj(info, r0, l) => {
            match &**r0 {
                Term::Record(_, fs) => {
                    let n = fs.len();
                    let mut i: usize = 0;
                    proof {
                        lemma_term_fields_view(fs@);
                    }
                    #[verifier::loop_isolation(false)]
                    while i < n
                        invariant
                            i <= n,
                            forall|j: int| 0 <= j < i ==> #[trigger] fs@[j].0@ != l@,
                        decreases n - i,
                    {
                        if fs[i].0 == *l {
                            proof {
                                assert forall|j: int| 0 <= j < i implies (#[trigger] term_fields_view(
                                    fs@,
                                )[j]).0 != l@ by {
                                    assert(term_fields_view(fs@)[j].0 == fs@[j].0@);
                                }
                                assert(term_fields_view(fs@)[i as int].0 == fs@[i as int].0@);
                                assert(term_fields_view(fs@)[i as int].1 == fs@[i as int].1@);
                                lemma_lookup_field(term_fields_view(fs@), l@, i as int);
                                assert(r0@ == TermV::Record(term_fields_view(fs@)));
                                assert(spec_lookup_field(term_fields_view(fs@), l@) == Some(
                                    term_fields_view(fs@)[i as int].1,
                                ));
                                assert(spec_step(t@) == StepV::Progress(fs@[i as int].1@));
                            }
                            return Ok(Some(clone_term(&fs[i].1)));
                        }
                        i = i + 1;
                    }
                    proof {
                        assert forall|j: int| 0 <= j < n implies (#[trigger] term_fields_view(
                            fs@,
                        )[j]).0 != l@ by {
                            assert(term_fields_view(fs@)[j].0 == fs@[j].0@);
                        }
                        lemma_lookup_field(term_fields_view(fs@), l@, n as int);
                        assert(r0@ == TermV::Record(term_fields_view(fs@)));
                        assert(spec_step(t@) == StepV::Failure(EvalErrV::MissingField(l@)));
                    }
                    Err(EvalError::MissingField(*info, l.clone()))
                },
                _ => {
                    proof {
                        assert(!(r0@ is Record));
                        assert(spec_step(t@) == StepV::Done);
                    }
                    Ok(None)
                },
            }
        },
        _ => {
            proof {
                assert(spec_step(t@) == StepV::Done);
            }
            Ok(None)
        },
    }
}

/// Run the step relation with a step budget: the normal form reached, a
/// fatal error, or `OutOfFuel` when the budget runs out first.
pub open spec fn spec_eval(t: TermV, fuel: nat) -> EvalOutcomeV
    decreases fuel,
{
    match spec_step(t) {
        StepV::Done => EvalOutcomeV::Finished(t),
        StepV::Failure(e) => EvalOutcomeV::Failed(e),
        StepV::Progress(t2) => if fuel == 0 {
            EvalOutcomeV::OutOfFuel
        } else {
            spec_eval(t2, (fuel - 1) as nat)
        },
    }
}

/// The term reached after exactly `n` reduction steps, if `n` steps are
/// possible.
pub open spec fn spec_iterate(t: TermV, n: nat) -> Option<TermV>
    decreases n,
{
    if n == 0 {
        Some(t)
    } else {
        match spec_iterate(t, (n - 1) as nat) {
            Some(u) => match spec_step(u) {
                StepV::Progress(v) => Some(v),
                _ => None,
            },
            None => None,
        }
    }
}

/// Evaluate `t` to a normal form, taking at most `fuel` reduction steps.
/// The result is exactly `spec_eval(t@, fuel)`; `Err(OutOfFuel)` is also
/// returned if an intermediate term outgrows the engine's size limits
/// (`spec_within_limits`), in which case a reachable over-limit term is
/// the witness. The context is unused: evaluation is index arithmetic only.
pub fn eval(ctx: &Context, t: &Term, fuel: u64) -> (r: Result<Term, EvalError>)
    ensures
        ({
            let o = spec_eval(t@, fuel as nat);
            match r {
                Ok(v) => o == EvalOutcomeV::Finished(v@),
                Err(e) => match e {
                    EvalError::StuckCondition(_) => o == EvalOutcomeV::Failed(
                        EvalErrV::StuckCondition,
                    ),
                    EvalError::MissingField(_, l) => o == EvalOutcomeV::Failed(
                        EvalErrV::MissingField(l@),
                    ),
                    EvalError::OutOfFuel => o == EvalOutcomeV::OutOfFuel || (exists|n: nat|
                        #![trigger spec_iterate(t@, n)]
                        {
                            &&& n <= fuel
                            &&& spec_iterate(t@, n) matches Some(u)
                            &&& !spec_within_limits(u)
                        }),
                },
            }
        }),
{
    let mut cur: Term = clone_term(t);
    let mut used: u64 = 0;
    loop
        invariant
            used <= fuel,
            spec_iterate(t@, used as nat) == Some(cur@),
            spec_eval(t@, fuel as nat) == spec_eval(cur@, (fuel - used) as nat),
        decreases fuel - used,
    {
        if !limits_ok(&cur, 0x1000_0000) {
            return Err(EvalError::OutOfFuel);
        }
        match eval1(ctx, &cur) {
            Ok(None) => {
                return Ok(cur);
            },
            Err(e) => {
                return Err(e);
            },
            Ok(Some(next)) => {
                if used == fuel {
                    return Err(EvalError::OutOfFuel);
                }
                used = used + 1;
                cur = next;
            },
        }
    }
}

} // verus!
