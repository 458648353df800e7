//! Type preservation and its supporting metatheory: how typing interacts
//! with shifting and substitution. The subject is the conditional-free
//! fragment: because `type_of` demands syntactically equal branch types
//! and takes no join, a beta step can narrow the two branches of an `If`
//! to unequal subtypes, and preservation fails there.
use vstd::prelude::*;

use crate::eval::{
    StepV, lemma_step_fields_char, spec_fields_vals, spec_is_val, spec_iterate,
    spec_lookup_field, spec_shift_fields, spec_shift_walk, spec_step, spec_subst_fields,
    spec_subst_top, spec_subst_walk,
};
use crate::props::{
    distinct_labels, fv_below, fv_below_fields, fv_skips, lemma_first_non_val,
    lemma_lookup_index, lemma_lookup_self, lemma_progress, lemma_proj_on_records_fields,
    lemma_shift_fv_below, lemma_shift_makes_skip, lemma_subst_fv, lemma_sub_type_refl,
    lemma_sub_type_trans, lemma_type_fields_ok, lemma_wf_ty_fields, proj_on_records,
    proj_on_records_fields, wf_ty,
};
use crate::syntax::{BindV, TermV, TypeV};
use crate::ts::{
    lemma_lookup_ty_char, lemma_sub_fields_forall, lemma_type_fields_char, spec_lookup_ty,
    spec_sub_type, spec_type_fields, spec_type_of,
};

verus! {

/// The term contains no conditional.
pub open spec fn no_if(t: TermV) -> bool
    decreases t,
{
    match t {
        TermV::True => true,
        TermV::False => true,
        TermV::Zero => true,
        TermV::Pred(t1) => no_if(*t1),
        TermV::Succ(t1) => no_if(*t1),
        TermV::IsZero(t1) => no_if(*t1),
        TermV::If(_, _, _) => false,
        TermV::Var(_, _) => true,
        TermV::App(f, a) => no_if(*f) && no_if(*a),
        TermV::Abst(_, _, body) => no_if(*body),
        TermV::Proj(r, _) => no_if(*r),
        TermV::Record(fs) => no_if_fields(fs),
    }
}

pub open spec fn no_if_fields(fs: Seq<(Seq<char>, TermV)>) -> bool
    decreases fs,
{
    fs.len() == 0 || (no_if(fs[0].1) && no_if_fields(fs.subrange(1, fs.len() as int)))
}

pub proof fn lemma_no_if_fields(fs: Seq<(Seq<char>, TermV)>)
    ensures
        no_if_fields(fs) <==> (forall|j: int| 0 <= j < fs.len() ==> no_if((#[trigger] fs[j]).1)),
    decreases fs.len(),
{
    if fs.len() > 0 {
        lemma_no_if_fields(fs.subrange(1, fs.len() as int));
        assert(forall|j: int|
            1 <= j < fs.len() ==> fs.subrange(1, fs.len() as int)[j - 1] == #[trigger] fs[j]);
    }
}

/// Record-term labels are pairwise distinct.
pub open spec fn distinct_tm_labels(fs: Seq<(Seq<char>, TermV)>) -> bool {
    forall|i: int, j: int| 0 <= i < j < fs.len() ==> (#[trigger] fs[i]).0 != (#[trigger] fs[j]).0
}

/// A well-formed term: every abstraction annotation is a well-formed
/// type and every record literal has pairwise distinct labels.
pub open spec fn wf_tm(t: TermV) -> bool
    decreases t,
{
    match t {
        TermV::True => true,
        TermV::False => true,
        TermV::Zero => true,
        TermV::Pred(t1) => wf_tm(*t1),
        TermV::Succ(t1) => wf_tm(*t1),
        TermV::IsZero(t1) => wf_tm(*t1),
        TermV::If(c, a, b) => wf_tm(*c) && wf_tm(*a) && wf_tm(*b),
        TermV::Var(_, _) => true,
        TermV::App(f, a) => wf_tm(*f) && wf_tm(*a),
        TermV::Abst(_, ty, body) => wf_ty(ty) && wf_tm(*body),
        TermV::Proj(r, _) => wf_tm(*r),
        TermV::Record(fs) => distinct_tm_labels(fs) && wf_tm_fields(fs),
    }
}

pub open spec fn wf_tm_fields(fs: Seq<(Seq<char>, TermV)>) -> bool
    decreases fs,
{
    fs.len() == 0 || (wf_tm(fs[0].1) && wf_tm_fields(fs.subrange(1, fs.len() as int)))
}

pub proof fn lemma_wf_tm_fields(fs: Seq<(Seq<char>, TermV)>)
    ensures
        wf_tm_fields(fs) <==> (forall|j: int| 0 <= j < fs.len() ==> wf_tm((#[trigger] fs[j]).1)),
    decreases fs.len(),
{
    if fs.len() > 0 {
        lemma_wf_tm_fields(fs.subrange(1, fs.len() as int));
        assert(forall|j: int|
            1 <= j < fs.len() ==> fs.subrange(1, fs.len() as int)[j - 1] == #[trigger] fs[j]);
    }
}

/// Every typed binding in the context carries a well-formed type.
pub open spec fn wf_binds(ctx: Seq<BindV>) -> bool {
    forall|i: int|
        0 <= i < ctx.len() ==> ((#[trigger] ctx[i]) matches BindV::Var(ty) ==> wf_ty(ty))
}

/// Equal, or a proper subtype: how a type can change under reduction.
pub open spec fn sub_or_eq(a: TypeV, b: TypeV) -> bool {
    a == b || spec_sub_type(a, b)
}

/// A typed term refers only to bindings the context has.
pub proof fn lemma_typing_fv(t: TermV, ctx: Seq<BindV>)
    ensures
        spec_type_of(t, ctx) is Ok ==> fv_below(t, ctx.len() as int),
    decreases t,
{
    match t {
        TermV::If(c, a, b) => {
            lemma_typing_fv(*c, ctx);
            lemma_typing_fv(*a, ctx);
            lemma_typing_fv(*b, ctx);
        },
        TermV::App(f, a) => {
            lemma_typing_fv(*f, ctx);
            lemma_typing_fv(*a, ctx);
        },
        TermV::Abst(_, ty, body) => {
            lemma_typing_fv(*body, seq![BindV::Var(ty)] + ctx);
        },
        TermV::Proj(r, _) => lemma_typing_fv(*r, ctx),
        TermV::Record(fs) => lemma_typing_fv_fields(fs, ctx),
        _ => {},
    }
}

proof fn lemma_typing_fv_fields(fs: Seq<(Seq<char>, TermV)>, ctx: Seq<BindV>)
    ensures
        spec_type_fields(fs, ctx) is Ok ==> fv_below_fields(fs, ctx.len() as int),
    decreases fs,
{
    if fs.len() > 0 {
        lemma_typing_fv(fs[0].1, ctx);
        lemma_typing_fv_fields(fs.subrange(1, fs.len() as int), ctx);
    }
}

/// The type `type_of` computes for a well-formed term under a
/// well-formed context is itself well-formed.
pub proof fn lemma_type_of_wf(t: TermV, ctx: Seq<BindV>)
    requires
        wf_tm(t),
        wf_binds(ctx),
    ensures
        spec_type_of(t, ctx) is Ok ==> wf_ty(spec_type_of(t, ctx)->Ok_0),
    decreases t,
{
    if spec_type_of(t, ctx) is Ok {
        match t {
            TermV::If(c, a, b) => {
                lemma_type_of_wf(*a, ctx);
            },
            TermV::App(f, a) => {
                lemma_type_of_wf(*f, ctx);
            },
            TermV::Abst(_, ty, body) => {
                let ctx2 = seq![BindV::Var(ty)] + ctx;
                assert forall|i: int|
                    0 <= i < ctx2.len() implies ((#[trigger] ctx2[i]) matches BindV::Var(ty2)
                    ==> wf_ty(ty2)) by {
                    if i > 0 {
                        assert(ctx2[i] == ctx[i - 1]);
                    }
                }
                lemma_type_of_wf(*body, ctx2);
            },
            TermV::Proj(r, l) => {
                lemma_type_of_wf(*r, ctx);
                match spec_type_of(*r, ctx)->Ok_0 {
                    TypeV::Record(tfs) => {
                        lemma_wf_ty_fields(tfs);
                        lemma_lookup_index(tfs, l);
                    },
                    _ => {},
                }
            },
            TermV::Record(fs) => {
                lemma_type_fields_ok(fs, ctx);
                lemma_wf_tm_fields(fs);
                let tfs = spec_type_fields(fs, ctx)->Ok_0;
                lemma_type_fields_char(fs, ctx, fs.len() as int);
                assert(distinct_labels(tfs));
                lemma_wf_ty_fields(tfs);
                assert forall|j: int| 0 <= j < tfs.len() implies wf_ty(
                    (#[trigger] tfs[j]).1,
                ) by {
                    lemma_type_of_wf(fs[j].1, ctx);
                }
            },
            _ => {},
        }
    }
}

/// Weakening: inserting bindings at position `|ctx1|` and shifting the
/// term to match leaves its type untouched.
pub proof fn lemma_weakening(t: TermV, ctx1: Seq<BindV>, delta: Seq<BindV>, ctx2: Seq<BindV>)
    requires
        spec_type_of(t, ctx1 + ctx2) is Ok,
    ensures
        spec_type_of(
            spec_shift_walk(ctx1.len() as int, delta.len() as int, t),
            ctx1 + delta + ctx2,
        ) == spec_type_of(t, ctx1 + ctx2),
    decreases t,
{
    let g0 = ctx1 + ctx2;
    let g1 = ctx1 + delta + ctx2;
    let c = ctx1.len() as int;
    let d = delta.len() as int;
    match t {
        TermV::Var(k, _) => {
            if k >= c {
                assert(g1[k + d] == ctx2[k - c]);
                assert(g0[k] == ctx2[k - c]);
            } else {
                assert(g1[k] == ctx1[k]);
                assert(g0[k] == ctx1[k]);
            }
        },
        TermV::If(c0, a, b) => {
            lemma_weakening(*c0, ctx1, delta, ctx2);
            lemma_weakening(*a, ctx1, delta, ctx2);
            lemma_weakening(*b, ctx1, delta, ctx2);
        },
        TermV::App(f, a) => {
            lemma_weakening(*f, ctx1, delta, ctx2);
            lemma_weakening(*a, ctx1, delta, ctx2);
        },
        TermV::Abst(_, ty, body) => {
            assert(seq![BindV::Var(ty)] + g0 =~= (seq![BindV::Var(ty)] + ctx1) + ctx2);
            assert(seq![BindV::Var(ty)] + g1 =~= ((seq![BindV::Var(ty)] + ctx1) + delta) + ctx2);
            lemma_weakening(*body, seq![BindV::Var(ty)] + ctx1, delta, ctx2);
        },
        TermV::Proj(r, _) => {
            lemma_weakening(*r, ctx1, delta, ctx2);
        },
        TermV::Record(fs) => {
            lemma_weakening_fields(fs, ctx1, delta, ctx2);
        },
        _ => {},
    }
}

proof fn lemma_weakening_fields(
    fs: Seq<(Seq<char>, TermV)>,
    ctx1: Seq<BindV>,
    delta: Seq<BindV>,
    ctx2: Seq<BindV>,
)
    requires
        spec_type_fields(fs, ctx1 + ctx2) is Ok,
    ensures
        spec_type_fields(
            spec_shift_fields(ctx1.len() as int, delta.len() as int, fs),
            ctx1 + delta + ctx2,
        ) == spec_type_fields(fs, ctx1 + ctx2),
    decreases fs,
{
    let c = ctx1.len() as int;
    let d = delta.len() as int;
    if fs.len() > 0 {
        lemma_weakening(fs[0].1, ctx1, delta, ctx2);
        lemma_weakening_fields(fs.subrange(1, fs.len() as int), ctx1, delta, ctx2);
        assert(spec_shift_fields(c, d, fs).subrange(
            1,
            spec_shift_fields(c, d, fs).len() as int,
        ) =~= spec_shift_fields(c, d, fs.subrange(1, fs.len() as int)));
    }
}

/// Strengthening: a binding no variable points at can be dropped, the
/// term shifted down to match, without touching its type.
pub proof fn lemma_strengthening(t: TermV, ctx1: Seq<BindV>, b: BindV, ctx2: Seq<BindV>)
    requires
        spec_type_of(t, ctx1 + seq![b] + ctx2) is Ok,
        fv_skips(t, ctx1.len() as int),
    ensures
        spec_type_of(spec_shift_walk(ctx1.len() as int, -1, t), ctx1 + ctx2) == spec_type_of(
            t,
            ctx1 + seq![b] + ctx2,
        ),
    decreases t,
{
    let g0 = ctx1 + seq![b] + ctx2;
    let g1 = ctx1 + ctx2;
    let c = ctx1.len() as int;
    match t {
        TermV::Var(k, _) => {
            if k > c {
                assert(g0[k] == ctx2[k - c - 1]);
                assert(g1[k - 1] == ctx2[k - c - 1]);
            } else {
                assert(g0[k] == ctx1[k]);
                assert(g1[k] == ctx1[k]);
            }
        },
        TermV::If(c0, a, b2) => {
            lemma_strengthening(*c0, ctx1, b, ctx2);
            lemma_strengthening(*a, ctx1, b, ctx2);
            lemma_strengthening(*b2, ctx1, b, ctx2);
        },
        TermV::App(f, a) => {
            lemma_strengthening(*f, ctx1, b, ctx2);
            lemma_strengthening(*a, ctx1, b, ctx2);
        },
        TermV::Abst(_, ty, body) => {
            assert(seq![BindV::Var(ty)] + g0 =~= ((seq![BindV::Var(ty)] + ctx1) + seq![b])
                + ctx2);
            assert(seq![BindV::Var(ty)] + g1 =~= (seq![BindV::Var(ty)] + ctx1) + ctx2);
            lemma_strengthening(*body, seq![BindV::Var(ty)] + ctx1, b, ctx2);
        },
        TermV::Proj(r, _) => {
            lemma_strengthening(*r, ctx1, b, ctx2);
        },
        TermV::Record(fs) => {
            lemma_strengthening_fields(fs, ctx1, b, ctx2);
        },
        _ => {},
    }
}

proof fn lemma_strengthening_fields(
    fs: Seq<(Seq<char>, TermV)>,
    ctx1: Seq<BindV>,
    b: BindV,
    ctx2: Seq<BindV>,
)
    requires
        spec_type_fields(fs, ctx1 + seq![b] + ctx2) is Ok,
        crate::props::fv_skips_fields(fs, ctx1.len() as int),
    ensures
        spec_type_fields(spec_shift_fields(ctx1.len() as int, -1, fs), ctx1 + ctx2)
            == spec_type_fields(fs, ctx1 + seq![b] + ctx2),
    decreases fs,
{
    let c = ctx1.len() as int;
    if fs.len() > 0 {
        lemma_strengthening(fs[0].1, ctx1, b, ctx2);
        lemma_strengthening_fields(fs.subrange(1, fs.len() as int), ctx1, b, ctx2);
        assert(spec_shift_fields(c, -1, fs).subrange(
            1,
            spec_shift_fields(c, -1, fs).len() as int,
        ) =~= spec_shift_fields(c, -1, fs.subrange(1, fs.len() as int)));
    }
}

/// Substitution preserves typing on the conditional-free fragment,
/// narrowing the type at most to a subtype: substituting `s1` (typed at
/// a subtype of the consumed slot `s_ty`) for variable `|delta|` keeps
/// the term typed in the same context.
pub proof fn lemma_subst_typing(
    t: TermV,
    delta: Seq<BindV>,
    s_ty: TypeV,
    ctx: Seq<BindV>,
    s1: TermV,
)
    requires
        no_if(t),
        wf_tm(t),
        wf_binds(delta + seq![BindV::Var(s_ty)] + ctx),
        spec_type_of(t, delta + seq![BindV::Var(s_ty)] + ctx) is Ok,
        spec_type_of(s1, seq![BindV::Var(s_ty)] + ctx) is Ok,
        spec_sub_type(spec_type_of(s1, seq![BindV::Var(s_ty)] + ctx)->Ok_0, s_ty),
    ensures
        spec_type_of(
            spec_subst_walk(delta.len() as int, 0, s1, t),
            delta + seq![BindV::Var(s_ty)] + ctx,
        ) is Ok,
        sub_or_eq(
            spec_type_of(
                spec_subst_walk(delta.len() as int, 0, s1, t),
                delta + seq![BindV::Var(s_ty)] + ctx,
            )->Ok_0,
            spec_type_of(t, delta + seq![BindV::Var(s_ty)] + ctx)->Ok_0,
        ),
    decreases t,
{
    let gg = delta + seq![BindV::Var(s_ty)] + ctx;
    let c = delta.len() as int;
    match t {
        TermV::Var(k, _) => {
            if k == c {
                assert(gg[c] == BindV::Var(s_ty));
                lemma_weakening(s1, Seq::<BindV>::empty(), delta, seq![BindV::Var(s_ty)] + ctx);
                assert(Seq::<BindV>::empty() + delta + (seq![BindV::Var(s_ty)] + ctx) =~= gg);
                assert(Seq::<BindV>::empty() + (seq![BindV::Var(s_ty)] + ctx) =~= seq![
                    BindV::Var(s_ty),
                ] + ctx);
            }
        },
        TermV::App(f, a) => {
            lemma_subst_typing(*f, delta, s_ty, ctx, s1);
            lemma_subst_typing(*a, delta, s_ty, ctx, s1);
            let tf = spec_type_of(*f, gg)->Ok_0;
            let ta = spec_type_of(*a, gg)->Ok_0;
            let tf2 = spec_type_of(spec_subst_walk(c, 0, s1, *f), gg)->Ok_0;
            let ta2 = spec_type_of(spec_subst_walk(c, 0, s1, *a), gg)->Ok_0;
            match tf {
                TypeV::Arr(dom, rng) => {
                    if tf2 == tf {
                        if ta2 == ta {
                        } else {
                            lemma_sub_type_trans(ta2, ta, *dom);
                        }
                    } else {
                        match tf2 {
                            TypeV::Arr(dom2, rng2) => {
                                if ta2 == ta {
                                    lemma_sub_type_trans(ta, *dom, *dom2);
                                } else {
                                    lemma_sub_type_trans(ta2, ta, *dom);
                                    lemma_sub_type_trans(ta2, *dom, *dom2);
                                }
                            },
                            _ => {
                                assert(false);
                            },
                        }
                    }
                },
                _ => {},
            }
        },
        TermV::Abst(_, ty, body) => {
            let delta2 = seq![BindV::Var(ty)] + delta;
            assert(seq![BindV::Var(ty)] + gg =~= delta2 + seq![BindV::Var(s_ty)] + ctx);
            let gg2 = delta2 + seq![BindV::Var(s_ty)] + ctx;
            assert forall|i: int|
                0 <= i < gg2.len() implies ((#[trigger] gg2[i]) matches BindV::Var(ty2)
                ==> wf_ty(ty2)) by {
                if i > 0 {
                    assert(gg2[i] == gg[i - 1]);
                }
            }
            lemma_subst_typing(*body, delta2, s_ty, ctx, s1);
            let tb = spec_type_of(*body, gg2)->Ok_0;
            let tb2 = spec_type_of(spec_subst_walk(c + 1, 0, s1, *body), gg2)->Ok_0;
            if tb2 == tb {
            } else {
                lemma_sub_type_refl(ty);
            }
        },
        TermV::Proj(r, l) => {
            lemma_subst_typing(*r, delta, s_ty, ctx, s1);
            let tr = spec_type_of(*r, gg)->Ok_0;
            let tr2 = spec_type_of(spec_subst_walk(c, 0, s1, *r), gg)->Ok_0;
            match tr {
                TypeV::Record(tfs) => {
                    if tr2 == tr {
                    } else {
                        match tr2 {
                            TypeV::Record(tfs2) => {
                                lemma_sub_fields_forall(tfs2, tfs);
                                lemma_lookup_index(tfs, l);
                            },
                            _ => {
                                assert(false);
                            },
                        }
                    }
                },
                _ => {},
            }
        },
        TermV::Record(fs) => {
            lemma_subst_typing_fields(fs, delta, s_ty, ctx, s1);
            lemma_type_fields_ok(fs, gg);
            lemma_type_fields_char(fs, gg, fs.len() as int);
            let sub_fs = spec_subst_fields(c, 0, s1, fs);
            crate::eval::lemma_subst_fields(c, 0, s1, fs);
            lemma_type_fields_ok(sub_fs, gg);
            let tfs = spec_type_fields(fs, gg)->Ok_0;
            let tfs2 = spec_type_fields(sub_fs, gg)->Ok_0;
            lemma_wf_tm_fields(fs);
            lemma_sub_fields_forall(tfs2, tfs);
            assert(distinct_labels(tfs2));
            assert forall|j: int| 0 <= j < tfs.len() implies match spec_lookup_ty(
                tfs2,
                (#[trigger] tfs[j]).0,
            ) {
                Some(st) => spec_sub_type(st, tfs[j].1),
                None => false,
            } by {
                lemma_lookup_self(tfs2, j);
                if tfs2[j].1 == tfs[j].1 {
                    lemma_type_of_wf(fs[j].1, gg);
                    assert(tfs[j].1 == spec_type_of(fs[j].1, gg)->Ok_0);
                    lemma_sub_type_refl(tfs[j].1);
                }
            }
        },
        _ => {},
    }
}

proof fn lemma_subst_typing_fields(
    fs: Seq<(Seq<char>, TermV)>,
    delta: Seq<BindV>,
    s_ty: TypeV,
    ctx: Seq<BindV>,
    s1: TermV,
)
    requires
        no_if_fields(fs),
        wf_tm_fields(fs),
        wf_binds(delta + seq![BindV::Var(s_ty)] + ctx),
        spec_type_fields(fs, delta + seq![BindV::Var(s_ty)] + ctx) is Ok,
        spec_type_of(s1, seq![BindV::Var(s_ty)] + ctx) is Ok,
        spec_sub_type(spec_type_of(s1, seq![BindV::Var(s_ty)] + ctx)->Ok_0, s_ty),
    ensures
        spec_type_fields(
            spec_subst_fields(delta.len() as int, 0, s1, fs),
            delta + seq![BindV::Var(s_ty)] + ctx,
        ) is Ok,
        spec_type_fields(
            spec_subst_fields(delta.len() as int, 0, s1, fs),
            delta + seq![BindV::Var(s_ty)] + ctx,
        )->Ok_0.len() == fs.len(),
        forall|j: int|
            0 <= j < fs.len() ==> (#[trigger] spec_type_fields(
                spec_subst_fields(delta.len() as int, 0, s1, fs),
                delta + seq![BindV::Var(s_ty)] + ctx,
            )->Ok_0[j]).0 == spec_type_fields(fs, delta + seq![BindV::Var(s_ty)] + ctx)->Ok_0[j].0
                && sub_or_eq(
                spec_type_fields(
                    spec_subst_fields(delta.len() as int, 0, s1, fs),
                    delta + seq![BindV::Var(s_ty)] + ctx,
                )->Ok_0[j].1,
                spec_type_fields(fs, delta + seq![BindV::Var(s_ty)] + ctx)->Ok_0[j].1,
            ),
    decreases fs,
{
    let gg = delta + seq![BindV::Var(s_ty)] + ctx;
    let c = delta.len() as int;
    let subfs = spec_subst_fields(c, 0, s1, fs);
    crate::eval::lemma_subst_fields(c, 0, s1, fs);
    lemma_type_fields_ok(fs, gg);
    lemma_type_fields_char(fs, gg, fs.len() as int);
    lemma_wf_tm_fields(fs);
    lemma_no_if_fields(fs);
    assert forall|j: int| 0 <= j < subfs.len() implies spec_type_of(
        (#[trigger] subfs[j]).1,
        gg,
    ) is Ok by {
        lemma_subst_typing(fs[j].1, delta, s_ty, ctx, s1);
    }
    lemma_type_fields_char(subfs, gg, subfs.len() as int);
    let tfs = spec_type_fields(fs, gg)->Ok_0;
    let tfs2 = spec_type_fields(subfs, gg)->Ok_0;
    assert forall|j: int|
        0 <= j < fs.len() implies (#[trigger] tfs2[j]).0 == tfs[j].0 && sub_or_eq(
        tfs2[j].1,
        tfs[j].1,
    ) by {
        lemma_subst_typing(fs[j].1, delta, s_ty, ctx, s1);
        assert(subfs[j].1 == spec_subst_walk(c, 0, s1, fs[j].1));
        assert(tfs2[j] == (subfs[j].0, spec_type_of(subfs[j].1, gg)->Ok_0));
        assert(tfs[j] == (fs[j].0, spec_type_of(fs[j].1, gg)->Ok_0));
    }
}

/// The position of the first field labelled `l`.
pub proof fn lemma_first_label(fs: Seq<(Seq<char>, TermV)>, l: Seq<char>) -> (j: int)
    requires
        spec_lookup_field(fs, l) is Some,
    ensures
        0 <= j < fs.len(),
        fs[j].0 == l,
        forall|q: int| 0 <= q < j ==> (#[trigger] fs[q]).0 != l,
        spec_lookup_field(fs, l) == Some(fs[j].1),
    decreases fs,
{
    if fs[0].0 == l {
        0
    } else {
        let j0 = lemma_first_label(fs.subrange(1, fs.len() as int), l);
        assert(forall|q: int|
            1 <= q < fs.len() ==> fs.subrange(1, fs.len() as int)[q - 1] == #[trigger] fs[q]);
        j0 + 1
    }
}

/// Preservation on the conditional-free fragment: a well-typed term that
/// takes a reduction step stays well-typed, at the same type or a
/// subtype of it. The restriction is real: the typing rule for `if`
/// demands syntactically equal branch types, and a beta step can narrow
/// one branch below the other.
pub proof fn lemma_preservation(t: TermV, ctx: Seq<BindV>)
    requires
        no_if(t),
        wf_tm(t),
        wf_binds(ctx),
        spec_type_of(t, ctx) is Ok,
        spec_step(t) is Progress,
    ensures
        spec_type_of(spec_step(t)->Progress_0, ctx) is Ok,
        spec_sub_type(
            spec_type_of(spec_step(t)->Progress_0, ctx)->Ok_0,
            spec_type_of(t, ctx)->Ok_0,
        ),
    decreases t,
{
    lemma_type_of_wf(t, ctx);
    let tt = spec_type_of(t, ctx)->Ok_0;
    match t {
        TermV::App(f, a) => {
            let tf = spec_type_of(*f, ctx)->Ok_0;
            let ta = spec_type_of(*a, ctx)->Ok_0;
            if spec_is_val(*f) {
                if spec_is_val(*a) {
                    match *f {
                        TermV::Abst(_, ty, body) => {
                            assert(no_if(*f));
                            assert(wf_tm(*f));
                            assert(wf_ty(ty));
                            assert(no_if(*body));
                            assert(wf_tm(*body));
                            assert(spec_type_of(*f, ctx) is Ok);
                            let ctxb = seq![BindV::Var(ty)] + ctx;
                            assert forall|i: int|
                                0 <= i < ctxb.len() implies ((#[trigger] ctxb[i]) matches
                                BindV::Var(ty2) ==> wf_ty(ty2)) by {
                                if i > 0 {
                                    assert(ctxb[i] == ctx[i - 1]);
                                }
                            }
                            let tb = spec_type_of(*body, ctxb)->Ok_0;
                            lemma_weakening(*a, Seq::<BindV>::empty(), seq![BindV::Var(ty)], ctx);
                            assert(Seq::<BindV>::empty() + seq![BindV::Var(ty)] + ctx =~= ctxb);
                            assert(Seq::<BindV>::empty() + ctx =~= ctx);
                            let s1 = spec_shift_walk(0, 1, *a);
                            assert(spec_type_of(s1, ctxb) == spec_type_of(*a, ctx));
                            lemma_subst_typing(*body, Seq::<BindV>::empty(), ty, ctx, s1);
                            let u = spec_subst_walk(0, 0, s1, *body);
                            lemma_typing_fv(*body, ctxb);
                            lemma_typing_fv(*a, ctx);
                            lemma_shift_fv_below(0, 1, *a, ctx.len() as int);
                            lemma_shift_makes_skip(0, 1, *a);
                            lemma_subst_fv(0, s1, *body, ctx.len() as int);
                            lemma_strengthening(u, Seq::<BindV>::empty(), BindV::Var(ty), ctx);
                            assert(spec_subst_top(*a, *body) == spec_shift_walk(0, -1, u));
                            assert(tf == TypeV::Arr(Box::new(ty), Box::new(tb)));
                            assert(tt == tb);
                            let tu = spec_type_of(spec_subst_top(*a, *body), ctx)->Ok_0;
                            if tu == tb {
                                lemma_sub_type_refl(tt);
                            }
                        },
                        _ => {},
                    }
                } else {
                    assert(no_if(*a) && wf_tm(*a));
                    assert(spec_type_of(*f, ctx) is Ok && spec_type_of(*a, ctx) is Ok);
                    lemma_preservation(*a, ctx);
                    let a2 = spec_step(*a)->Progress_0;
                    let ta2 = spec_type_of(a2, ctx)->Ok_0;
                    match tf {
                        TypeV::Arr(dom, rng) => {
                            lemma_sub_type_trans(ta2, ta, *dom);
                            assert(spec_step(t)->Progress_0 == TermV::App(f, Box::new(a2)));
                            assert(spec_type_of(TermV::App(f, Box::new(a2)), ctx) is Ok);
                            lemma_sub_type_refl(tt);
                        },
                        _ => {},
                    }
                }
            } else {
                assert(no_if(*f) && wf_tm(*f));
                assert(spec_type_of(*f, ctx) is Ok && spec_type_of(*a, ctx) is Ok);
                lemma_preservation(*f, ctx);
                let f2 = spec_step(*f)->Progress_0;
                let tf2 = spec_type_of(f2, ctx)->Ok_0;
                match tf {
                    TypeV::Arr(dom, rng) => {
                        match tf2 {
                            TypeV::Arr(dom2, rng2) => {
                                lemma_sub_type_trans(ta, *dom, *dom2);
                                assert(spec_step(t)->Progress_0 == TermV::App(Box::new(f2), a));
                                assert(spec_type_of(TermV::App(Box::new(f2), a), ctx) is Ok);
                            },
                            _ => {
                                assert(false);
                            },
                        }
                    },
                    _ => {},
                }
            }
        },
        TermV::Record(fs) => {
            lemma_type_fields_ok(fs, ctx);
            lemma_type_fields_char(fs, ctx, fs.len() as int);
            lemma_wf_tm_fields(fs);
            lemma_no_if_fields(fs);
            if spec_fields_vals(fs) {
                crate::eval::lemma_fields_vals(fs);
                lemma_step_fields_char(fs, fs.len() as int);
            } else {
                let i = lemma_first_non_val(fs);
                lemma_step_fields_char(fs, i);
                lemma_preservation(fs[i].1, ctx);
                let u = spec_step(fs[i].1)->Progress_0;
                let fs2 = fs.update(i, (fs[i].0, u));
                assert forall|j: int| 0 <= j < fs2.len() implies spec_type_of(
                    (#[trigger] fs2[j]).1,
                    ctx,
                ) is Ok by {
                    if j != i {
                        assert(fs2[j] == fs[j]);
                    }
                }
                lemma_type_fields_char(fs2, ctx, fs2.len() as int);
                let tfs = spec_type_fields(fs, ctx)->Ok_0;
                let tfs2 = spec_type_fields(fs2, ctx)->Ok_0;
                assert(distinct_labels(tfs2)) by {
                    assert(forall|j: int| 0 <= j < fs2.len() && j != i ==> (#[trigger] fs2[j]).0
                        == fs[j].0);
                    assert(fs2[i].0 == fs[i].0);
                }
                lemma_sub_fields_forall(tfs2, tfs);
                assert forall|j: int| 0 <= j < tfs.len() implies match spec_lookup_ty(
                    tfs2,
                    (#[trigger] tfs[j]).0,
                ) {
                    Some(st) => spec_sub_type(st, tfs[j].1),
                    None => false,
                } by {
                    lemma_lookup_self(tfs2, j);
                    if j != i {
                        assert(fs2[j] == fs[j]);
                        assert(tfs2[j].1 == tfs[j].1);
                        lemma_type_of_wf(fs[j].1, ctx);
                        lemma_sub_type_refl(tfs[j].1);
                    } else {
                        assert(tfs2[i] == (fs2[i].0, spec_type_of(fs2[i].1, ctx)->Ok_0));
                    }
                }
            }
        },
        TermV::Proj(r, l) => {
            match *r {
                TermV::Record(rfs) => {
                    assert(spec_type_of(*r, ctx) is Ok);
                    assert(spec_type_fields(rfs, ctx) is Ok);
                    lemma_type_fields_ok(rfs, ctx);
                    lemma_type_fields_char(rfs, ctx, rfs.len() as int);
                    let tfs = spec_type_fields(rfs, ctx)->Ok_0;
                    let j = lemma_first_label(rfs, l);
                    assert forall|q: int| 0 <= q < j implies (#[trigger] tfs[q]).0 != l by {
                        assert(tfs[q].0 == rfs[q].0);
                    }
                    lemma_lookup_ty_char(tfs, l, j);
                    lemma_sub_type_refl(tt);
                },
                _ => {},
            }
        },
        _ => {},
    }
}

proof fn lemma_shift_keeps_shape(c: int, d: int, t: TermV)
    ensures
        no_if(t) ==> no_if(spec_shift_walk(c, d, t)),
        wf_tm(t) ==> wf_tm(spec_shift_walk(c, d, t)),
    decreases t,
{
    match t {
        TermV::Pred(t1) => lemma_shift_keeps_shape(c, d, *t1),
        TermV::Succ(t1) => lemma_shift_keeps_shape(c, d, *t1),
        TermV::IsZero(t1) => lemma_shift_keeps_shape(c, d, *t1),
        TermV::If(c0, a, b) => {
            lemma_shift_keeps_shape(c, d, *c0);
            lemma_shift_keeps_shape(c, d, *a);
            lemma_shift_keeps_shape(c, d, *b);
        },
        TermV::App(f, a) => {
            lemma_shift_keeps_shape(c, d, *f);
            lemma_shift_keeps_shape(c, d, *a);
        },
        TermV::Abst(_, _, body) => lemma_shift_keeps_shape(c + 1, d, *body),
        TermV::Proj(r, _) => lemma_shift_keeps_shape(c, d, *r),
        TermV::Record(fs) => {
            lemma_shift_keeps_shape_fields(c, d, fs);
            crate::eval::lemma_shift_fields(c, d, fs);
            let sf2 = spec_shift_fields(c, d, fs);
            if distinct_tm_labels(fs) {
                assert forall|i1: int, i2: int|
                    0 <= i1 < i2 < sf2.len() implies (#[trigger] sf2[i1]).0 != (
                    #[trigger] sf2[i2]).0 by {
                    assert(sf2[i1].0 == fs[i1].0);
                    assert(sf2[i2].0 == fs[i2].0);
                }
            }
        },
        _ => {},
    }
}

proof fn lemma_shift_keeps_shape_fields(c: int, d: int, fs: Seq<(Seq<char>, TermV)>)
    ensures
        no_if_fields(fs) ==> no_if_fields(spec_shift_fields(c, d, fs)),
        wf_tm_fields(fs) ==> wf_tm_fields(spec_shift_fields(c, d, fs)),
    decreases fs,
{
    if fs.len() > 0 {
        lemma_shift_keeps_shape(c, d, fs[0].1);
        lemma_shift_keeps_shape_fields(c, d, fs.subrange(1, fs.len() as int));
        assert(spec_shift_fields(c, d, fs).subrange(
            1,
            spec_shift_fields(c, d, fs).len() as int,
        ) =~= spec_shift_fields(c, d, fs.subrange(1, fs.len() as int)));
    }
}

proof fn lemma_subst_keeps_shape(c: int, j: int, s: TermV, t: TermV)
    requires
        no_if(s),
        wf_tm(s),
    ensures
        no_if(t) ==> no_if(spec_subst_walk(c, j, s, t)),
        wf_tm(t) ==> wf_tm(spec_subst_walk(c, j, s, t)),
    decreases t,
{
    match t {
        TermV::Pred(t1) => lemma_subst_keeps_shape(c, j, s, *t1),
        TermV::Succ(t1) => lemma_subst_keeps_shape(c, j, s, *t1),
        TermV::IsZero(t1) => lemma_subst_keeps_shape(c, j, s, *t1),
        TermV::If(c0, a, b) => {
            lemma_subst_keeps_shape(c, j, s, *c0);
            lemma_subst_keeps_shape(c, j, s, *a);
            lemma_subst_keeps_shape(c, j, s, *b);
        },
        TermV::Var(k, _) => {
            if k == j + c {
                lemma_shift_keeps_shape(0, c, s);
            }
        },
        TermV::App(f, a) => {
            lemma_subst_keeps_shape(c, j, s, *f);
            lemma_subst_keeps_shape(c, j, s, *a);
        },
        TermV::Abst(_, _, body) => lemma_subst_keeps_shape(c + 1, j, s, *body),
        TermV::Proj(r, _) => lemma_subst_keeps_shape(c, j, s, *r),
        TermV::Record(fs) => {
            lemma_subst_keeps_shape_fields(c, j, s, fs);
            crate::eval::lemma_subst_fields(c, j, s, fs);
            let sf2 = spec_subst_fields(c, j, s, fs);
            if distinct_tm_labels(fs) {
                assert forall|i1: int, i2: int|
                    0 <= i1 < i2 < sf2.len() implies (#[trigger] sf2[i1]).0 != (
                    #[trigger] sf2[i2]).0 by {
                    assert(sf2[i1].0 == fs[i1].0);
                    assert(sf2[i2].0 == fs[i2].0);
                }
            }
        },
        _ => {},
    }
}

proof fn lemma_subst_keeps_shape_fields(c: int, j: int, s: TermV, fs: Seq<(Seq<char>, TermV)>)
    requires
        no_if(s),
        wf_tm(s),
    ensures
        no_if_fields(fs) ==> no_if_fields(spec_subst_fields(c, j, s, fs)),
        wf_tm_fields(fs) ==> wf_tm_fields(spec_subst_fields(c, j, s, fs)),
    decreases fs,
{
    if fs.len() > 0 {
        lemma_subst_keeps_shape(c, j, s, fs[0].1);
        lemma_subst_keeps_shape_fields(c, j, s, fs.subrange(1, fs.len() as int));
        assert(spec_subst_fields(c, j, s, fs).subrange(
            1,
            spec_subst_fields(c, j, s, fs).len() as int,
        ) =~= spec_subst_fields(c, j, s, fs.subrange(1, fs.len() as int)));
    }
}

/// A reduction step introduces no conditional and keeps the term
/// well-formed.
pub proof fn lemma_step_keeps_shape(t: TermV)
    requires
        no_if(t),
        wf_tm(t),
        spec_step(t) is Progress,
    ensures
        no_if(spec_step(t)->Progress_0),
        wf_tm(spec_step(t)->Progress_0),
    decreases t,
{
    match t {
        TermV::App(f, a) => {
            if spec_is_val(*f) {
                if spec_is_val(*a) {
                    match *f {
                        TermV::Abst(_, _, body) => {
                            assert(no_if(*f) && wf_tm(*f));
                            assert(no_if(*body) && wf_tm(*body));
                            let s1 = spec_shift_walk(0, 1, *a);
                            lemma_shift_keeps_shape(0, 1, *a);
                            lemma_subst_keeps_shape(0, 0, s1, *body);
                            lemma_shift_keeps_shape(0, -1, spec_subst_walk(0, 0, s1, *body));
                            assert(spec_step(t)->Progress_0 == spec_subst_top(*a, *body));
                            assert(no_if(spec_step(t)->Progress_0));
                            assert(wf_tm(spec_step(t)->Progress_0));
                        },
                        _ => {},
                    }
                } else {
                    assert(no_if(*a) && wf_tm(*a));
                    lemma_step_keeps_shape(*a);
                    assert(no_if(spec_step(t)->Progress_0));
                    assert(wf_tm(spec_step(t)->Progress_0));
                }
            } else {
                assert(no_if(*f) && wf_tm(*f));
                lemma_step_keeps_shape(*f);
                assert(no_if(spec_step(t)->Progress_0));
                assert(wf_tm(spec_step(t)->Progress_0));
            }
        },
        TermV::Record(fs) => {
            lemma_no_if_fields(fs);
            lemma_wf_tm_fields(fs);
            if !spec_fields_vals(fs) {
                let i = lemma_first_non_val(fs);
                lemma_step_fields_char(fs, i);
                lemma_step_keeps_shape(fs[i].1);
                let u = spec_step(fs[i].1)->Progress_0;
                let fs2 = fs.update(i, (fs[i].0, u));
                lemma_no_if_fields(fs2);
                lemma_wf_tm_fields(fs2);
                assert(forall|q: int| 0 <= q < fs2.len() && q != i ==> #[trigger] fs2[q] == fs[q]);
                assert forall|i1: int, i2: int|
                    0 <= i1 < i2 < fs2.len() implies (#[trigger] fs2[i1]).0 != (
                    #[trigger] fs2[i2]).0 by {
                    assert(fs2[i1].0 == fs[i1].0);
                    assert(fs2[i2].0 == fs[i2].0);
                }
                assert(spec_step(t)->Progress_0 == TermV::Record(fs2));
                assert(no_if(spec_step(t)->Progress_0));
                assert(wf_tm(spec_step(t)->Progress_0));
            } else {
                crate::eval::lemma_fields_vals(fs);
                lemma_step_fields_char(fs, fs.len() as int);
            }
        },
        TermV::Proj(r, l) => {
            match *r {
                TermV::Record(rfs) => {
                    assert(no_if(*r) && wf_tm(*r));
                    lemma_no_if_fields(rfs);
                    lemma_wf_tm_fields(rfs);
                    if spec_lookup_field(rfs, l) is Some {
                        let j = lemma_first_label(rfs, l);
                        assert(spec_step(t)->Progress_0 == rfs[j].1);
                        assert(no_if(spec_step(t)->Progress_0));
                        assert(wf_tm(spec_step(t)->Progress_0));
                    }
                },
                _ => {},
            }
        },
        TermV::Pred(t1) => {
            if !(*t1 is Zero) && !(*t1 matches TermV::Succ(n) && crate::eval::spec_is_numeric(*n))
                && !spec_is_val(*t1) {
                assert(no_if(*t1) && wf_tm(*t1));
                assert(crate::eval::spec_step_inner(*t1) == spec_step(*t1));
                if spec_step(*t1) is Progress {
                    lemma_step_keeps_shape(*t1);
                }
            } else if *t1 matches TermV::Succ(n) && crate::eval::spec_is_numeric(*n) {
                assert(no_if(*t1) && wf_tm(*t1));
            }
        },
        TermV::Succ(t1) => {
            if !spec_is_val(*t1) {
                assert(no_if(*t1) && wf_tm(*t1));
                assert(crate::eval::spec_step_inner(*t1) == spec_step(*t1));
                if spec_step(*t1) is Progress {
                    lemma_step_keeps_shape(*t1);
                }
            }
        },
        TermV::IsZero(t1) => {
            if !(*t1 is Zero) && !(*t1 matches TermV::Succ(n) && crate::eval::spec_is_numeric(*n))
                && !spec_is_val(*t1) {
                assert(no_if(*t1) && wf_tm(*t1));
                assert(crate::eval::spec_step_inner(*t1) == spec_step(*t1));
                if spec_step(*t1) is Progress {
                    lemma_step_keeps_shape(*t1);
                }
            }
        },
        _ => {},
    }
}

/// Preservation over any number of steps: on the conditional-free
/// fragment, every term reachable from a well-typed term is well-typed,
/// at a subtype of the starting type.
pub proof fn lemma_preservation_many(t: TermV, ctx: Seq<BindV>, n: nat)
    requires
        no_if(t),
        wf_tm(t),
        wf_binds(ctx),
        spec_type_of(t, ctx) is Ok,
        spec_iterate(t, n) is Some,
    ensures
        no_if(spec_iterate(t, n)->Some_0),
        wf_tm(spec_iterate(t, n)->Some_0),
        spec_type_of(spec_iterate(t, n)->Some_0, ctx) is Ok,
        spec_sub_type(
            spec_type_of(spec_iterate(t, n)->Some_0, ctx)->Ok_0,
            spec_type_of(t, ctx)->Ok_0,
        ),
    decreases n,
{
    lemma_type_of_wf(t, ctx);
    if n == 0 {
        lemma_sub_type_refl(spec_type_of(t, ctx)->Ok_0);
    } else {
        lemma_preservation_many(t, ctx, (n - 1) as nat);
        let u = spec_iterate(t, (n - 1) as nat)->Some_0;
        lemma_preservation(u, ctx);
        lemma_step_keeps_shape(u);
        lemma_sub_type_trans(
            spec_type_of(spec_step(u)->Progress_0, ctx)->Ok_0,
            spec_type_of(u, ctx)->Ok_0,
            spec_type_of(t, ctx)->Ok_0,
        );
    }
}

proof fn lemma_shift_keeps_proj(c: int, d: int, t: TermV)
    ensures
        proj_on_records(t) ==> proj_on_records(spec_shift_walk(c, d, t)),
    decreases t,
{
    match t {
        TermV::Pred(t1) => lemma_shift_keeps_proj(c, d, *t1),
        TermV::Succ(t1) => lemma_shift_keeps_proj(c, d, *t1),
        TermV::IsZero(t1) => lemma_shift_keeps_proj(c, d, *t1),
        TermV::If(c0, a, b) => {
            lemma_shift_keeps_proj(c, d, *c0);
            lemma_shift_keeps_proj(c, d, *a);
            lemma_shift_keeps_proj(c, d, *b);
        },
        TermV::App(f, a) => {
            lemma_shift_keeps_proj(c, d, *f);
            lemma_shift_keeps_proj(c, d, *a);
        },
        TermV::Abst(_, _, body) => lemma_shift_keeps_proj(c + 1, d, *body),
        TermV::Proj(r, _) => lemma_shift_keeps_proj(c, d, *r),
        TermV::Record(fs) => lemma_shift_keeps_proj_fields(c, d, fs),
        _ => {},
    }
}

proof fn lemma_shift_keeps_proj_fields(c: int, d: int, fs: Seq<(Seq<char>, TermV)>)
    ensures
        proj_on_records_fields(fs) ==> proj_on_records_fields(spec_shift_fields(c, d, fs)),
    decreases fs,
{
    if fs.len() > 0 {
        lemma_shift_keeps_proj(c, d, fs[0].1);
        lemma_shift_keeps_proj_fields(c, d, fs.subrange(1, fs.len() as int));
        assert(spec_shift_fields(c, d, fs).subrange(
            1,
            spec_shift_fields(c, d, fs).len() as int,
        ) =~= spec_shift_fields(c, d, fs.subrange(1, fs.len() as int)));
    }
}

proof fn lemma_subst_keeps_proj(c: int, j: int, s: TermV, t: TermV)
    requires
        proj_on_records(s),
    ensures
        proj_on_records(t) ==> proj_on_records(spec_subst_walk(c, j, s, t)),
    decreases t,
{
    match t {
        TermV::Pred(t1) => lemma_subst_keeps_proj(c, j, s, *t1),
        TermV::Succ(t1) => lemma_subst_keeps_proj(c, j, s, *t1),
        TermV::IsZero(t1) => lemma_subst_keeps_proj(c, j, s, *t1),
        TermV::If(c0, a, b) => {
            lemma_subst_keeps_proj(c, j, s, *c0);
            lemma_subst_keeps_proj(c, j, s, *a);
            lemma_subst_keeps_proj(c, j, s, *b);
        },
        TermV::Var(k, _) => {
            if k == j + c {
                lemma_shift_keeps_proj(0, c, s);
            }
        },
        TermV::App(f, a) => {
            lemma_subst_keeps_proj(c, j, s, *f);
            lemma_subst_keeps_proj(c, j, s, *a);
        },
        TermV::Abst(_, _, body) => lemma_subst_keeps_proj(c + 1, j, s, *body),
        TermV::Proj(r, _) => {
            lemma_subst_keeps_proj(c, j, s, *r);
        },
        TermV::Record(fs) => lemma_subst_keeps_proj_fields(c, j, s, fs),
        _ => {},
    }
}

proof fn lemma_subst_keeps_proj_fields(c: int, j: int, s: TermV, fs: Seq<(Seq<char>, TermV)>)
    requires
        proj_on_records(s),
    ensures
        proj_on_records_fields(fs) ==> proj_on_records_fields(spec_subst_fields(c, j, s, fs)),
    decreases fs,
{
    if fs.len() > 0 {
        lemma_subst_keeps_proj(c, j, s, fs[0].1);
        lemma_subst_keeps_proj_fields(c, j, s, fs.subrange(1, fs.len() as int));
        assert(spec_subst_fields(c, j, s, fs).subrange(
            1,
            spec_subst_fields(c, j, s, fs).len() as int,
        ) =~= spec_subst_fields(c, j, s, fs.subrange(1, fs.len() as int)));
    }
}

/// A reduction step keeps every projection on a record literal.
pub proof fn lemma_step_keeps_proj(t: TermV)
    requires
        proj_on_records(t),
        spec_step(t) is Progress,
    ensures
        proj_on_records(spec_step(t)->Progress_0),
    decreases t,
{
    match t {
        TermV::App(f, a) => {
            if spec_is_val(*f) {
                if spec_is_val(*a) {
                    match *f {
                        TermV::Abst(_, _, body) => {
                            assert(proj_on_records(*f));
                            assert(proj_on_records(*body));
                            let s1 = spec_shift_walk(0, 1, *a);
                            lemma_shift_keeps_proj(0, 1, *a);
                            lemma_subst_keeps_proj(0, 0, s1, *body);
                            lemma_shift_keeps_proj(0, -1, spec_subst_walk(0, 0, s1, *body));
                            assert(spec_step(t)->Progress_0 == spec_subst_top(*a, *body));
                            assert(proj_on_records(spec_step(t)->Progress_0));
                        },
                        _ => {},
                    }
                } else {
                    assert(proj_on_records(*a));
                    lemma_step_keeps_proj(*a);
                    assert(proj_on_records(spec_step(t)->Progress_0));
                }
            } else {
                assert(proj_on_records(*f));
                lemma_step_keeps_proj(*f);
                assert(proj_on_records(spec_step(t)->Progress_0));
            }
        },
        TermV::If(c0, a, b) => {
            if *c0 is True {
                assert(proj_on_records(*a));
            } else if *c0 is False {
                assert(proj_on_records(*b));
            } else if spec_is_val(*c0) {
                assert(crate::eval::spec_step_inner(*c0) == StepV::Done);
            } else {
                assert(proj_on_records(*c0));
                assert(crate::eval::spec_step_inner(*c0) == spec_step(*c0));
                if spec_step(*c0) is Progress {
                    lemma_step_keeps_proj(*c0);
                }
            }
        },
        TermV::Record(fs) => {
            lemma_proj_on_records_fields(fs);
            if !spec_fields_vals(fs) {
                let i = lemma_first_non_val(fs);
                lemma_step_fields_char(fs, i);
                lemma_step_keeps_proj(fs[i].1);
                let u = spec_step(fs[i].1)->Progress_0;
                let fs2 = fs.update(i, (fs[i].0, u));
                lemma_proj_on_records_fields(fs2);
                assert(forall|q: int| 0 <= q < fs2.len() && q != i ==> #[trigger] fs2[q] == fs[q]);
                assert(spec_step(t)->Progress_0 == TermV::Record(fs2));
                assert(proj_on_records(spec_step(t)->Progress_0));
            } else {
                crate::eval::lemma_fields_vals(fs);
                lemma_step_fields_char(fs, fs.len() as int);
            }
        },
        TermV::Proj(r, l) => {
            match *r {
                TermV::Record(rfs) => {
                    assert(proj_on_records(*r));
                    lemma_proj_on_records_fields(rfs);
                    if spec_lookup_field(rfs, l) is Some {
                        let j = lemma_first_label(rfs, l);
                        assert(spec_step(t)->Progress_0 == rfs[j].1);
                        assert(proj_on_records(spec_step(t)->Progress_0));
                    }
                },
                _ => {},
            }
        },
        TermV::Pred(t1) => {
            if *t1 matches TermV::Succ(n) && crate::eval::spec_is_numeric(*n) {
                assert(proj_on_records(*t1));
            } else if !(*t1 is Zero) && spec_is_val(*t1) {
                assert(crate::eval::spec_step_inner(*t1) == StepV::Done);
            } else if !(*t1 is Zero) {
                assert(crate::eval::spec_step_inner(*t1) == spec_step(*t1));
                if spec_step(*t1) is Progress {
                    lemma_step_keeps_proj(*t1);
                }
            }
        },
        TermV::Succ(t1) => {
            if spec_is_val(*t1) {
                assert(crate::eval::spec_step_inner(*t1) == StepV::Done);
            } else {
                assert(crate::eval::spec_step_inner(*t1) == spec_step(*t1));
                if spec_step(*t1) is Progress {
                    lemma_step_keeps_proj(*t1);
                }
            }
        },
        TermV::IsZero(t1) => {
            if !(*t1 is Zero) && !(*t1 matches TermV::Succ(n) && crate::eval::spec_is_numeric(*n)) {
                if spec_is_val(*t1) {
                    assert(crate::eval::spec_step_inner(*t1) == StepV::Done);
                } else {
                    assert(crate::eval::spec_step_inner(*t1) == spec_step(*t1));
                    if spec_step(*t1) is Progress {
                        lemma_step_keeps_proj(*t1);
                    }
                }
            }
        },
        _ => {},
    }
}

/// A numeric value is a value.
proof fn lemma_numeric_is_val(t: TermV)
    ensures
        crate::eval::spec_is_numeric(t) ==> spec_is_val(t),
    decreases t,
{
    match t {
        TermV::Succ(n) => lemma_numeric_is_val(*n),
        _ => {},
    }
}

/// A value takes no step: it is its own normal form.
pub proof fn lemma_values_do_not_step(t: TermV)
    requires
        spec_is_val(t),
    ensures
        spec_step(t) == StepV::Done,
    decreases t,
{
    match t {
        TermV::Succ(n) => {
            lemma_numeric_is_val(*n);
            assert(crate::eval::spec_step_inner(*n) == StepV::Done);
        },
        TermV::Record(fs) => {
            crate::eval::lemma_fields_vals(fs);
            lemma_step_fields_char(fs, fs.len() as int);
        },
        _ => {},
    }
}

/// Soundness of evaluation: running a closed, well-typed,
/// conditional-free term whose projections sit on record literals can
/// only finish at a value or exhaust its step budget — it never sticks
/// and never raises a fatal evaluation error.
pub proof fn lemma_evaluation_sound(t: TermV, fuel: nat)
    requires
        no_if(t),
        wf_tm(t),
        proj_on_records(t),
        spec_type_of(t, Seq::<BindV>::empty()) is Ok,
    ensures
        crate::eval::spec_eval(t, fuel) matches crate::eval::EvalOutcomeV::Finished(v) ==>
            spec_is_val(v),
        !(crate::eval::spec_eval(t, fuel) is Failed),
    decreases fuel,
{
    let ctx = Seq::<BindV>::empty();
    match spec_step(t) {
        StepV::Done => {
            if !spec_is_val(t) {
                lemma_progress(t);
            }
        },
        StepV::Failure(_) => {
            if spec_is_val(t) {
                lemma_values_do_not_step(t);
            } else {
                lemma_progress(t);
            }
        },
        StepV::Progress(t2) => {
            if fuel > 0 {
                lemma_preservation(t, ctx);
                lemma_step_keeps_shape(t);
                lemma_step_keeps_proj(t);
                lemma_evaluation_sound(t2, (fuel - 1) as nat);
            }
        },
    }
}

} // verus!
