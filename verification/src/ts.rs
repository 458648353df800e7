//! The type system: structural subtyping (`sub_type`), order-independent
//! structural type equality (`ty_eq`), and the type checker (`type_of`).
use vstd::prelude::*;

use crate::syntax::{
    Bind, BindV, Context, Position, Term, TermV, TokenInfo, Type, TypeV, VarContext, add_bind, binds_view,
    bind_view, clone_type, lemma_term_fields_view, lemma_ty_fields_view, pop_bind,
    term_fields_view, term_view, ty_fields_view, ty_view,
};

verus! {

/// Size of a type: each constructor and each record field counts one.
/// Termination measure for relations that recurse on both sides.
pub open spec fn ty_size(t: TypeV) -> nat
    decreases t,
{
    match t {
        TypeV::Bool => 1,
        TypeV::Top => 1,
        TypeV::Arr(a, b) => 1 + ty_size(*a) + ty_size(*b),
        TypeV::Record(fs) => 1 + ty_fields_size(fs),
    }
}

pub open spec fn ty_fields_size(fs: Seq<(Seq<char>, TypeV)>) -> nat
    decreases fs,
{
    if fs.len() == 0 {
        0
    } else {
        1 + ty_size(fs[0].1) + ty_fields_size(fs.subrange(1, fs.len() as int))
    }
}

/// First field of `fs` labelled `l`, if any.
pub open spec fn spec_lookup_ty(fs: Seq<(Seq<char>, TypeV)>, l: Seq<char>) -> Option<TypeV>
    decreases fs,
{
    if fs.len() == 0 {
        None
    } else if fs[0].0 == l {
        Some(fs[0].1)
    } else {
        spec_lookup_ty(fs.subrange(1, fs.len() as int), l)
    }
}

pub proof fn lemma_lookup_ty_size(fs: Seq<(Seq<char>, TypeV)>, l: Seq<char>)
    ensures
        spec_lookup_ty(fs, l) matches Some(t) ==> ty_size(t) < ty_fields_size(fs),
    decreases fs,
{
    if fs.len() > 0 && fs[0].0 != l {
        lemma_lookup_ty_size(fs.subrange(1, fs.len() as int), l);
    }
}

pub proof fn lemma_lookup_ty_char(fs: Seq<(Seq<char>, TypeV)>, l: Seq<char>, i: int)
    requires
        0 <= i <= fs.len(),
        forall|j: int| 0 <= j < i ==> (#[trigger] fs[j]).0 != l,
    ensures
        i < fs.len() && fs[i].0 == l ==> spec_lookup_ty(fs, l) == Some(fs[i].1),
        i == fs.len() ==> spec_lookup_ty(fs, l) == None::<TypeV>,
    decreases fs.len(),
{
    if fs.len() > 0 && i > 0 {
        lemma_lookup_ty_char(fs.subrange(1, fs.len() as int), l, i - 1);
        assert(forall|j: int|
            1 <= j < fs.len() ==> fs.subrange(1, fs.len() as int)[j - 1] == #[trigger] fs[j]);
    }
}

/// The structural subtype relation: reflexive on well-formed types,
/// `Top` above everything, records by width and depth with label order
/// irrelevant, arrows contravariant in the domain and covariant in the
/// range.
pub open spec fn spec_sub_type(s: TypeV, t: TypeV) -> bool
    decreases ty_size(s) + ty_size(t),
{
    match (s, t) {
        (_, TypeV::Top) => true,
        (TypeV::Bool, TypeV::Bool) => true,
        (TypeV::Arr(s1, s2), TypeV::Arr(t1, t2)) => spec_sub_type(*t1, *s1) && spec_sub_type(
            *s2,
            *t2,
        ),
        (TypeV::Record(sf), TypeV::Record(tf)) => spec_sub_fields(sf, tf),
        _ => false,
    }
}

/// Every field required by `tf` is present in `sf` with a subtype.
pub open spec fn spec_sub_fields(sf: Seq<(Seq<char>, TypeV)>, tf: Seq<(Seq<char>, TypeV)>) -> bool
    decreases ty_fields_size(sf) + ty_fields_size(tf),
    when ty_fields_size(sf) + ty_fields_size(tf) >= 0
    via spec_sub_fields_decreases
{
    if tf.len() == 0 {
        true
    } else {
        (match spec_lookup_ty(sf, tf[0].0) {
            Some(st) => spec_sub_type(st, tf[0].1),
            None => false,
        }) && spec_sub_fields(sf, tf.subrange(1, tf.len() as int))
    }
}

#[via_fn]
proof fn spec_sub_fields_decreases(sf: Seq<(Seq<char>, TypeV)>, tf: Seq<(Seq<char>, TypeV)>) {
    if tf.len() > 0 {
        lemma_lookup_ty_size(sf, tf[0].0);
    }
}

/// Order-independent structural equality of types: record types are equal
/// exactly when their label sets coincide and the types agree label-wise.
pub open spec fn spec_ty_eq(a: TypeV, b: TypeV) -> bool
    decreases ty_size(a) + ty_size(b),
{
    match (a, b) {
        (TypeV::Bool, TypeV::Bool) => true,
        (TypeV::Top, TypeV::Top) => true,
        (TypeV::Arr(a1, a2), TypeV::Arr(b1, b2)) => spec_ty_eq(*a1, *b1) && spec_ty_eq(*a2, *b2),
        (TypeV::Record(af), TypeV::Record(bf)) => spec_fields_incl(af, bf) && spec_fields_incl(
            bf,
            af,
        ),
        _ => false,
    }
}

/// Every field of `xs` appears in `ys` with an equal type.
pub open spec fn spec_fields_incl(xs: Seq<(Seq<char>, TypeV)>, ys: Seq<(Seq<char>, TypeV)>) -> bool
    decreases ty_fields_size(xs) + ty_fields_size(ys),
    when ty_fields_size(xs) + ty_fields_size(ys) >= 0
    via spec_fields_incl_decreases
{
    if xs.len() == 0 {
        true
    } else {
        (match spec_lookup_ty(ys, xs[0].0) {
            Some(yt) => spec_ty_eq(xs[0].1, yt),
            None => false,
        }) && spec_fields_incl(xs.subrange(1, xs.len() as int), ys)
    }
}

#[via_fn]
proof fn spec_fields_incl_decreases(xs: Seq<(Seq<char>, TypeV)>, ys: Seq<(Seq<char>, TypeV)>) {
    if xs.len() > 0 {
        lemma_lookup_ty_size(ys, xs[0].0);
    }
}

pub proof fn lemma_sub_fields_forall(sf: Seq<(Seq<char>, TypeV)>, tf: Seq<(Seq<char>, TypeV)>)
    ensures
        spec_sub_fields(sf, tf) <==> (forall|j: int|
            0 <= j < tf.len() ==> match spec_lookup_ty(sf, (#[trigger] tf[j]).0) {
                Some(st) => spec_sub_type(st, tf[j].1),
                None => false,
            }),
    decreases tf.len(),
{
    if tf.len() > 0 {
        lemma_sub_fields_forall(sf, tf.subrange(1, tf.len() as int));
        assert(forall|j: int|
            1 <= j < tf.len() ==> tf.subrange(1, tf.len() as int)[j - 1] == #[trigger] tf[j]);
    }
}

pub proof fn lemma_fields_incl_forall(xs: Seq<(Seq<char>, TypeV)>, ys: Seq<(Seq<char>, TypeV)>)
    ensures
        spec_fields_incl(xs, ys) <==> (forall|j: int|
            0 <= j < xs.len() ==> match spec_lookup_ty(ys, (#[trigger] xs[j]).0) {
                Some(yt) => spec_ty_eq(xs[j].1, yt),
                None => false,
            }),
    decreases xs.len(),
{
    if xs.len() > 0 {
        lemma_fields_incl_forall(xs.subrange(1, xs.len() as int), ys);
        assert(forall|j: int|
            1 <= j < xs.len() ==> xs.subrange(1, xs.len() as int)[j - 1] == #[trigger] xs[j]);
    }
}

pub proof fn lemma_ty_fields_size_bound(fs: Seq<(Seq<char>, TypeV)>)
    ensures
        forall|j: int| 0 <= j < fs.len() ==> ty_size((#[trigger] fs[j]).1) < ty_fields_size(fs),
    decreases fs.len(),
{
    if fs.len() > 0 {
        lemma_ty_fields_size_bound(fs.subrange(1, fs.len() as int));
        assert(forall|j: int|
            1 <= j < fs.len() ==> fs.subrange(1, fs.len() as int)[j - 1] == #[trigger] fs[j]);
    }
}

/// Index of the first field of `fs` labelled `l`, if any, together with
/// what the spec-level lookup returns.
fn find_field(fs: &Vec<(String, Type)>, l: &String) -> (r: Option<usize>)
    ensures
        match r {
            Some(i) => i < fs@.len() && fs@[i as int].0@ == l@ && spec_lookup_ty(
                ty_fields_view(fs@),
                l@,
            ) == Some(ty_view(fs@[i as int].1)),
            None => spec_lookup_ty(ty_fields_view(fs@), l@) == None::<TypeV>,
        },
{
    let n = fs.len();
    let mut i: usize = 0;
    proof {
        lemma_ty_fields_view(fs@);
    }
    while i < n
        invariant
            n == fs@.len(),
            i <= n,
            forall|j: int| 0 <= j < i ==> #[trigger] fs@[j].0@ != l@,
        decreases n - i,
    {
        if fs[i].0 == *l {
            proof {
                lemma_ty_fields_view(fs@);
                assert forall|j: int| 0 <= j < i implies (#[trigger] ty_fields_view(fs@)[j]).0
                    != l@ by {
                    assert(ty_fields_view(fs@)[j].0 == fs@[j].0@);
                }
                assert(ty_fields_view(fs@)[i as int].0 == fs@[i as int].0@);
                assert(ty_fields_view(fs@)[i as int].1 == ty_view(fs@[i as int].1));
                lemma_lookup_ty_char(ty_fields_view(fs@), l@, i as int);
            }
            return Some(i);
        }
        i = i + 1;
    }
    proof {
        assert forall|j: int| 0 <= j < n implies (#[trigger] ty_fields_view(fs@)[j]).0 != l@ by {
            assert(ty_fields_view(fs@)[j].0 == fs@[j].0@);
        }
        lemma_lookup_ty_char(ty_fields_view(fs@), l@, n as int);
    }
    None
}

/// Decide the structural subtype relation `spec_sub_type`: `Top` is above
/// every type, records subtype by width and depth with field order
/// irrelevant, arrows contravariantly in the domain and covariantly in
/// the range.
pub fn sub_type(s: &Type, t: &Type) -> (r: bool)
    ensures
        r == spec_sub_type(s@, t@),
    decreases ty_size(s@) + ty_size(t@),
{
    match (s, t) {
        (_, Type::TyTop) => {
            proof {
                assert(t@ is Top);
            }
            true
        },
        (Type::TyBool, Type::TyBool) => true,
        (Type::TyArr(s1, s2), Type::TyArr(t1, t2)) => {
            proof {
                assert(ty_size(s@) == 1 + ty_size(s1@) + ty_size(s2@));
                assert(ty_size(t@) == 1 + ty_size(t1@) + ty_size(t2@));
            }
            sub_type(t1, s1) && sub_type(s2, t2)
        },
        (Type::TyRecord(sf), Type::TyRecord(tf)) => {
            let n = tf.len();
            let mut i: usize = 0;
            proof {
                lemma_ty_fields_view(sf@);
                lemma_ty_fields_view(tf@);
                lemma_sub_fields_forall(ty_fields_view(sf@), ty_fields_view(tf@));
                lemma_ty_fields_size_bound(ty_fields_view(tf@));
                assert(ty_size(s@) == 1 + ty_fields_size(ty_fields_view(sf@)));
                assert(ty_size(t@) == 1 + ty_fields_size(ty_fields_view(tf@)));
            }
            #[verifier::loop_isolation(false)]
            while i < n
                invariant
                    i <= n,
                    forall|j: int|
                        0 <= j < i ==> match spec_lookup_ty(
                            ty_fields_view(sf@),
                            (#[trigger] ty_fields_view(tf@)[j]).0,
                        ) {
                            Some(st) => spec_sub_type(st, ty_fields_view(tf@)[j].1),
                            None => false,
                        },
                decreases n - i,
            {
                let p = &tf[i];
                proof {
                    assert(ty_fields_view(tf@)[i as int].0 == p.0@);
                    assert(ty_fields_view(tf@)[i as int].1 == ty_view(p.1));
                }
                match find_field(sf, &p.0) {
                    None => {
                        return false;
                    },
                    Some(fi) => {
                        proof {
                            lemma_lookup_ty_size(ty_fields_view(sf@), p.0@);
                        }
                        if !sub_type(&sf[fi].1, &p.1) {
                            return false;
                        }
                    },
                }
                i = i + 1;
            }
            true
        },
        _ => {
            proof {
                assert(!spec_sub_type(s@, t@));
            }
            false
        },
    }
}

/// Decide `spec_fields_incl`: every field of `xs` appears in `ys` with an
/// equal type.
fn fields_incl(xs: &Vec<(String, Type)>, ys: &Vec<(String, Type)>) -> (r: bool)
    ensures
        r == spec_fields_incl(ty_fields_view(xs@), ty_fields_view(ys@)),
    decreases ty_fields_size(ty_fields_view(xs@)) + ty_fields_size(ty_fields_view(ys@)), 0int,
{
    let n = xs.len();
    let mut i: usize = 0;
    proof {
        lemma_ty_fields_view(xs@);
        lemma_ty_fields_view(ys@);
        lemma_fields_incl_forall(ty_fields_view(xs@), ty_fields_view(ys@));
        lemma_ty_fields_size_bound(ty_fields_view(xs@));
    }
    #[verifier::loop_isolation(false)]
    while i < n
        invariant
            i <= n,
            forall|j: int|
                0 <= j < i ==> match spec_lookup_ty(
                    ty_fields_view(ys@),
                    (#[trigger] ty_fields_view(xs@)[j]).0,
                ) {
                    Some(yt) => spec_ty_eq(ty_fields_view(xs@)[j].1, yt),
                    None => false,
                },
        decreases n - i,
    {
        let p = &xs[i];
        proof {
            assert(ty_fields_view(xs@)[i as int].0 == p.0@);
            assert(ty_fields_view(xs@)[i as int].1 == ty_view(p.1));
        }
        match find_field(ys, &p.0) {
            None => {
                return false;
            },
            Some(fi) => {
                proof {
                    lemma_lookup_ty_size(ty_fields_view(ys@), p.0@);
                }
                if !ty_eq(&p.1, &ys[fi].1) {
                    return false;
                }
            },
        }
        i = i + 1;
    }
    true
}

/// Decide `spec_ty_eq`, the structural equality of types in which record
/// field order is irrelevant: the two branches of a conditional must
/// agree under it.
pub fn ty_eq(a: &Type, b: &Type) -> (r: bool)
    ensures
        r == spec_ty_eq(a@, b@),
    decreases ty_size(a@) + ty_size(b@), 1int,
{
    match (a, b) {
        (Type::TyBool, Type::TyBool) => true,
        (Type::TyTop, Type::TyTop) => true,
        (Type::TyArr(a1, a2), Type::TyArr(b1, b2)) => {
            proof {
                assert(ty_size(a@) == 1 + ty_size(a1@) + ty_size(a2@));
                assert(ty_size(b@) == 1 + ty_size(b1@) + ty_size(b2@));
            }
            ty_eq(a1, b1) && ty_eq(a2, b2)
        },
        (Type::TyRecord(af), Type::TyRecord(bf)) => {
            proof {
                assert(ty_size(a@) == 1 + ty_fields_size(ty_fields_view(af@)));
                assert(ty_size(b@) == 1 + ty_fields_size(ty_fields_view(bf@)));
            }
            fields_incl(af, bf) && fields_incl(bf, af)
        },
        _ => {
            proof {
                assert(!spec_ty_eq(a@, b@));
            }
            false
        },
    }
}

/// A fatal type-checking error, carrying the source region it arose at.
#[derive(Debug, PartialEq)]
pub enum TypeError {
    /// A variable index that resolves to no context slot.
    UnboundVariable(TokenInfo),
    /// A variable bound with no type information (`NameBind`).
    NoTypeInfo(TokenInfo),
    /// An `if` condition whose type is not `TyBool`.
    IllTypedCondition(TokenInfo),
    /// `if` branches of structurally different types.
    BranchMismatch(TokenInfo),
    /// An application whose operator is not of arrow type.
    NotArrow(TokenInfo),
    /// An operand whose type is not a subtype of the declared domain.
    ParameterMismatch(TokenInfo),
    /// A projection out of a term whose type is not a record type.
    ExpectedRecordType(TokenInfo),
    /// A projection label absent from the record type.
    MissingField(TokenInfo, String),
}

/// View of a type-checking error. `Untypable` stands for the terms the
/// typing relation gives no rule for (the arithmetic fragment); the
/// executable checker excludes them by precondition.
pub enum TypeErrV {
    UnboundVariable,
    NoTypeInfo,
    IllTypedCondition,
    BranchMismatch,
    NotArrow,
    ParameterMismatch,
    ExpectedRecordType,
    MissingField(Seq<char>),
    Untypable,
}

/// The view of an executable type error.
pub open spec fn err_view(e: TypeError) -> TypeErrV {
    match e {
        TypeError::UnboundVariable(_) => TypeErrV::UnboundVariable,
        TypeError::NoTypeInfo(_) => TypeErrV::NoTypeInfo,
        TypeError::IllTypedCondition(_) => TypeErrV::IllTypedCondition,
        TypeError::BranchMismatch(_) => TypeErrV::BranchMismatch,
        TypeError::NotArrow(_) => TypeErrV::NotArrow,
        TypeError::ParameterMismatch(_) => TypeErrV::ParameterMismatch,
        TypeError::ExpectedRecordType(_) => TypeErrV::ExpectedRecordType,
        TypeError::MissingField(_, l) => TypeErrV::MissingField(l@),
    }
}

/// The term contains none of `Zero`, `Succ`, `Pred`, `IsZero`: the
/// fragment the typing relation covers.
pub open spec fn spec_no_arith(t: TermV) -> bool
    decreases t,
{
    match t {
        TermV::True => true,
        TermV::False => true,
        TermV::Zero => false,
        TermV::Pred(_) => false,
        TermV::Succ(_) => false,
        TermV::IsZero(_) => false,
        TermV::If(c, a, b) => spec_no_arith(*c) && spec_no_arith(*a) && spec_no_arith(*b),
        TermV::Var(_, _) => true,
        TermV::App(f, a) => spec_no_arith(*f) && spec_no_arith(*a),
        TermV::Abst(_, _, body) => spec_no_arith(*body),
        TermV::Proj(r, _) => spec_no_arith(*r),
        TermV::Record(fs) => spec_no_arith_fields(fs),
    }
}

pub open spec fn spec_no_arith_fields(fs: Seq<(Seq<char>, TermV)>) -> bool
    decreases fs,
{
    fs.len() == 0 || (spec_no_arith(fs[0].1) && spec_no_arith_fields(fs.subrange(1, fs.len() as int)))
}

pub proof fn lemma_no_arith_fields(fs: Seq<(Seq<char>, TermV)>)
    ensures
        spec_no_arith_fields(fs) <==> (forall|j: int|
            0 <= j < fs.len() ==> spec_no_arith((#[trigger] fs[j]).1)),
    decreases fs.len(),
{
    if fs.len() > 0 {
        lemma_no_arith_fields(fs.subrange(1, fs.len() as int));
        assert(forall|j: int|
            1 <= j < fs.len() ==> fs.subrange(1, fs.len() as int)[j - 1] == #[trigger] fs[j]);
    }
}

/// The typing relation, one rule per syntactic form; `ctx` is the stack
/// of bindings, innermost first. Exactly one of a type or a fatal error
/// comes out of every term.
pub open spec fn spec_type_of(t: TermV, ctx: Seq<BindV>) -> Result<TypeV, TypeErrV>
    decreases t,
{
    match t {
        TermV::True => Ok(TypeV::Bool),
        TermV::False => Ok(TypeV::Bool),
        TermV::Record(fs) => match spec_type_fields(fs, ctx) {
            Ok(tfs) => Ok(TypeV::Record(tfs)),
            Err(e) => Err(e),
        },
        TermV::Proj(r, l) => match spec_type_of(*r, ctx) {
            Ok(rt) => match rt {
                TypeV::Record(tfs) => match spec_lookup_ty(tfs, l) {
                    Some(ty) => Ok(ty),
                    None => Err(TypeErrV::MissingField(l)),
                },
                _ => Err(TypeErrV::ExpectedRecordType),
            },
            Err(e) => Err(e),
        },
        TermV::Var(k, _) => if 0 <= k < ctx.len() {
            match ctx[k] {
                BindV::Var(ty) => Ok(ty),
                BindV::Name => Err(TypeErrV::NoTypeInfo),
            }
        } else {
            Err(TypeErrV::UnboundVariable)
        },
        TermV::If(c, a, b) => match spec_type_of(*c, ctx) {
            Ok(tc) => if tc == TypeV::Bool {
                match spec_type_of(*a, ctx) {
                    Ok(ta) => match spec_type_of(*b, ctx) {
                        Ok(tb) => if spec_ty_eq(ta, tb) {
                            Ok(ta)
                        } else {
                            Err(TypeErrV::BranchMismatch)
                        },
                        Err(e) => Err(e),
                    },
                    Err(e) => Err(e),
                }
            } else {
                Err(TypeErrV::IllTypedCondition)
            },
            Err(e) => Err(e),
        },
        TermV::App(f, a) => match spec_type_of(*f, ctx) {
            Ok(tf) => match spec_type_of(*a, ctx) {
                Ok(ta) => match tf {
                    TypeV::Arr(dom, rng) => if spec_sub_type(ta, *dom) {
                        Ok(*rng)
                    } else {
                        Err(TypeErrV::ParameterMismatch)
                    },
                    _ => Err(TypeErrV::NotArrow),
                },
                Err(e) => Err(e),
            },
            Err(e) => Err(e),
        },
        TermV::Abst(_, ty, body) => match spec_type_of(*body, seq![BindV::Var(ty)] + ctx) {
            Ok(tb) => Ok(TypeV::Arr(Box::new(ty), Box::new(tb))),
            Err(e) => Err(e),
        },
        _ => Err(TypeErrV::Untypable),
    }
}

/// Type every field in order; the first failing field's error wins.
pub open spec fn spec_type_fields(fs: Seq<(Seq<char>, TermV)>, ctx: Seq<BindV>) -> Result<
    Seq<(Seq<char>, TypeV)>,
    TypeErrV,
>
    decreases fs,
{
    if fs.len() == 0 {
        Ok(Seq::empty())
    } else {
        match spec_type_of(fs[0].1, ctx) {
            Ok(ty) => match spec_type_fields(fs.subrange(1, fs.len() as int), ctx) {
                Ok(rest) => Ok(seq![(fs[0].0, ty)] + rest),
                Err(e) => Err(e),
            },
            Err(e) => Err(e),
        }
    }
}

pub proof fn lemma_type_fields_char(fs: Seq<(Seq<char>, TermV)>, ctx: Seq<BindV>, i: int)
    requires
        0 <= i <= fs.len(),
        forall|j: int| 0 <= j < i ==> spec_type_of((#[trigger] fs[j]).1, ctx) is Ok,
    ensures
        i == fs.len() ==> ({
            &&& spec_type_fields(fs, ctx) is Ok
            &&& spec_type_fields(fs, ctx)->Ok_0.len() == fs.len()
            &&& forall|j: int|
                0 <= j < fs.len() ==> #[trigger] spec_type_fields(fs, ctx)->Ok_0[j] == (
                    fs[j].0,
                    spec_type_of(fs[j].1, ctx)->Ok_0,
                )
        }),
        (i < fs.len() && spec_type_of(fs[i].1, ctx) is Err) ==> spec_type_fields(fs, ctx)
            == Err::<Seq<(Seq<char>, TypeV)>, TypeErrV>(spec_type_of(fs[i].1, ctx)->Err_0),
    decreases fs.len(),
{
    if fs.len() > 0 && i > 0 {
        let rest = fs.subrange(1, fs.len() as int);
        assert(forall|j: int| 1 <= j < fs.len() ==> rest[j - 1] == #[trigger] fs[j]);
        lemma_type_fields_char(rest, ctx, i - 1);
    } else if fs.len() > 0 && i == 0 {
        lemma_type_fields_char(fs.subrange(1, fs.len() as int), ctx, 0);
    }
}

pub proof fn lemma_binds_view_push(ctx2: Seq<VarContext>, ctx1: Seq<VarContext>, b: Bind)
    requires
        ctx2.len() == ctx1.len() + 1,
        ctx2[0].1 == b,
        ctx2.subrange(1, ctx2.len() as int) == ctx1,
    ensures
        binds_view(ctx2) =~= seq![bind_view(b)] + binds_view(ctx1),
{
    assert(forall|i: int| 1 <= i < ctx2.len() ==> ctx2[i] == #[trigger] ctx1[i - 1]);
}

/// Whether the term uses the arithmetic fragment (`0`, `succ`, `pred`,
/// `iszero`), which the typing relation gives no rule for. A caller of
/// `type_of` checks this first.
pub fn contains_arith(t: &Term) -> (r: bool)
    ensures
        r == !spec_no_arith(t@),
    decreases t,
{
    match t {
        Term::True(_) => false,
        Term::False(_) => false,
        Term::Zero(_) => true,
        Term::Pred(_, _) => true,
        Term::Succ(_, _) => true,
        Term::IsZero(_, _) => true,
        Term::If(_, c0, t1, t2) => contains_arith(c0) || contains_arith(t1) || contains_arith(t2),
        Term::Var(_, _, _) => false,
        Term::App(_, f, a) => contains_arith(f) || contains_arith(a),
        Term::Abst(_, _, _, body) => contains_arith(body),
        Term::Proj(_, r0, _) => contains_arith(r0),
        Term::Record(_, fs) => {
            let n = fs.len();
            let mut i: usize = 0;
            proof {
                lemma_term_fields_view(fs@);
                lemma_no_arith_fields(term_fields_view(fs@));
            }
            #[verifier::loop_isolation(false)]
            while i < n
                invariant
                    i <= n,
                    forall|j: int| 0 <= j < i ==> spec_no_arith(#[trigger] fs@[j].1@),
                decreases n - i,
            {
                let p = &fs[i];
                proof {
                    assert(decreases_to!(*t => t->Record_1));
                    assert(decreases_to!(*fs => fs@));
                    assert(decreases_to!(fs@ => fs@[i as int]));
                    assert(decreases_to!(fs@[i as int] => fs@[i as int].1));
                    assert(decreases_to!(*t => p.1));
                }
                if contains_arith(&p.1) {
                    proof {
                        assert(term_fields_view(fs@)[i as int].1 == fs@[i as int].1@);
                    }
                    return true;
                }
                i = i + 1;
            }
            proof {
                assert forall|j: int| 0 <= j < n implies spec_no_arith(
                    (#[trigger] term_fields_view(fs@)[j]).1,
                ) by {
                    assert(term_fields_view(fs@)[j].1 == fs@[j].1@);
                }
            }
            false
        },
    }
}

/// Compute the unique type of `t` under `ctx`, or the first fatal error,
/// exactly as `spec_type_of` says. The context is extended around each
/// abstraction body and restored on every path, so the caller gets it
/// back unchanged.
#[verifier::rlimit(100)]
pub fn type_of(t: &Term, ctx: &mut Context) -> (r: Result<Type, TypeError>)
    requires
        spec_no_arith(t@),
    ensures
        final(ctx)@ =~= old(ctx)@,
        ({
            let o = spec_type_of(t@, binds_view(old(ctx)@));
            match r {
                Ok(ty) => o == Ok::<TypeV, TypeErrV>(ty@),
                Err(e) => o == Err::<TypeV, TypeErrV>(err_view(e)),
            }
        }),
    decreases t,
{
    let ghost cv = binds_view(ctx@);
    match t {
        Term::True(_) => Ok(Type::TyBool),
        Term::False(_) => Ok(Type::TyBool),
        Term::Record(info, fs) => {
            let ghost ctx0 = ctx@;
            let n = fs.len();
            let mut out: Vec<(String, Type)> = Vec::new();
            let mut i: usize = 0;
            proof {
                lemma_term_fields_view(fs@);
                lemma_no_arith_fields(term_fields_view(fs@));
            }
            #[verifier::loop_isolation(false)]
            while i < n
                invariant
                    ctx@ == ctx0,
                    i <= n,
                    out@.len() == i as int,
                    forall|j: int|
                        0 <= j < i ==> spec_type_of(
                            (#[trigger] term_fields_view(fs@)[j]).1,
                            cv,
                        ) == Ok::<TypeV, TypeErrV>(ty_view(out@[j].1)) && out@[j].0@ == fs@[j].0@,
                decreases n - i,
            {
                let p = &fs[i];
                proof {
                    assert(decreases_to!(*t => t->Record_1));
                    assert(decreases_to!(*fs => fs@));
                    assert(decreases_to!(fs@ => fs@[i as int]));
                    assert(decreases_to!(fs@[i as int] => fs@[i as int].1));
                    assert(decreases_to!(*t => p.1));
                    assert(term_fields_view(fs@)[i as int].1 == fs@[i as int].1@);
                }
                match type_of(&p.1, ctx) {
                    Ok(ty) => {
                        out.push((p.0.clone(), ty));
                    },
                    Err(e) => {
                        proof {
                            lemma_type_fields_char(term_fields_view(fs@), cv, i as int);
                        }
                        return Err(e);
                    },
                }
                i = i + 1;
            }
            proof {
                lemma_type_fields_char(term_fields_view(fs@), cv, n as int);
                lemma_ty_fields_view(out@);
                assert(ty_fields_view(out@) =~= spec_type_fields(term_fields_view(fs@), cv)->Ok_0);
            }
            Ok(Type::TyRecord(out))
        },
        Term::Proj(info, r0, l) => {
            match type_of(r0, ctx) {
                Ok(rt) => {
                    match rt {
                        Type::TyRecord(tfs) => {
                            match find_field(&tfs, l) {
                                Some(fi) => Ok(clone_type(&tfs[fi].1)),
                                None => Err(TypeError::MissingField(*info, l.clone())),
                            }
                        },
                        _ => Err(TypeError::ExpectedRecordType(*info)),
                    }
                },
                Err(e) => Err(e),
            }
        },
        Term::Var(info, k, _) => {
            if *k >= 0 && (*k as usize) < ctx.len() {
                match &ctx[*k as usize].1 {
                    Bind::VarBind(ty) => {
                        proof {
                            assert(binds_view(ctx@)[*k as int] == bind_view(ctx@[*k as int].1));
                        }
                        Ok(clone_type(ty))
                    },
                    Bind::NameBind => {
                        proof {
                            assert(binds_view(ctx@)[*k as int] == bind_view(ctx@[*k as int].1));
                        }
                        Err(TypeError::NoTypeInfo(*info))
                    },
                }
            } else {
                Err(TypeError::UnboundVariable(*info))
            }
        },
        Term::If(info, c0, t1, t2) => {
            match type_of(c0, ctx) {
                Ok(tc) => {
                    match tc {
                        Type::TyBool => {
                            match type_of(t1, ctx) {
                                Ok(ta) => {
                                    match type_of(t2, ctx) {
                                        Ok(tb) => {
                                            if ty_eq(&ta, &tb) {
                                                Ok(ta)
                                            } else {
                                                Err(TypeError::BranchMismatch(*info))
                                            }
                                        },
                                        Err(e) => Err(e),
                                    }
                                },
                                Err(e) => Err(e),
                            }
                        },
                        _ => {
                            proof {
                                assert(!(tc@ == TypeV::Bool));
                            }
                            Err(TypeError::IllTypedCondition(*info))
                        },
                    }
                },
                Err(e) => Err(e),
            }
        },
        Term::App(info, f, a) => {
            match type_of(f, ctx) {
                Ok(tf) => {
                    match type_of(a, ctx) {
                        Ok(ta) => {
                            match tf {
                                Type::TyArr(dom, rng) => {
                                    if sub_type(&ta, &dom) {
                                        Ok(*rng)
                                    } else {
                                        Err(TypeError::ParameterMismatch(*info))
                                    }
                                },
                                _ => Err(TypeError::NotArrow(*info)),
                            }
                        },
                        Err(e) => Err(e),
                    }
                },
                Err(e) => Err(e),
            }
        },
        Term::Abst(info, x, ty, body) => {
            let ghost ctx0 = ctx@;
            add_bind(ctx, x, Bind::VarBind(clone_type(ty)));
            proof {
                lemma_binds_view_push(ctx@, ctx0, ctx@[0].1);
                assert(bind_view(ctx@[0].1) == BindV::Var(ty_view(*ty)));
            }
            let tb = type_of(body, ctx);
            pop_bind(ctx);
            match tb {
                Ok(tbody) => Ok(Type::TyArr(Box::new(clone_type(ty)), Box::new(tbody))),
                Err(e) => Err(e),
            }
        },
        _ => Err(
            TypeError::UnboundVariable(
                TokenInfo(
                    Position { index: 0, line_col: (0, 0) },
                    Position { index: 0, line_col: (0, 0) },
                ),
            ),
        ),
    }
}

} // verus!
