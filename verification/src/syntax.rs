//! Abstract syntax of the calculus: terms, types, bindings and the
//! de Bruijn binding context, together with the mathematical views
//! (`TermV`, `TypeV`, `BindV`) that the contracts are stated over.
//!
//! Source positions (`Position`, `TokenInfo`) are diagnostic only: the
//! views erase them, so no contract lets them influence a result.
use vstd::prelude::*;
use std::collections::VecDeque;

verus! {

/// A point in the source text: byte offset plus (line, column).
#[derive(Debug, Clone, Copy, PartialEq, Eq, Default)]
pub struct Position {
    pub index: usize,
    pub line_col: (usize, usize),
}

/// Start and end position of the source region a node was parsed from.
#[derive(Debug, Clone, Copy, PartialEq, Eq, Default)]
pub struct TokenInfo(pub Position, pub Position);

/// Types of the calculus. Record fields are kept as a labelled sequence;
/// well-formed types have pairwise distinct labels and field order carries
/// no meaning (see `ty_eq` in the type checker).
#[derive(Debug)]
pub enum Type {
    TyBool,
    TyArr(Box<Type>, Box<Type>),
    TyTop,
    TyRecord(Vec<(String, Type)>),
}

/// Terms, each carrying the source region it came from. `Var` holds the
/// de Bruijn index and, for diagnostics only, the context length at the
/// occurrence. `Abst` keeps the bound variable's display name, which is
/// cosmetic.
#[derive(Debug)]
pub enum Term {
    True(TokenInfo),
    False(TokenInfo),
    Zero(TokenInfo),
    Pred(TokenInfo, Box<Term>),
    Succ(TokenInfo, Box<Term>),
    IsZero(TokenInfo, Box<Term>),
    If(TokenInfo, Box<Term>, Box<Term>, Box<Term>),
    Var(TokenInfo, i32, i32),
    App(TokenInfo, Box<Term>, Box<Term>),
    Abst(TokenInfo, String, Type, Box<Term>),
    Proj(TokenInfo, Box<Term>, String),
    Record(TokenInfo, Vec<(String, Term)>),
}

/// One top-level statement produced by the parser.
#[derive(Debug)]
pub struct Statement(pub Box<Term>);

/// What the context knows about a name: nothing beyond the name itself
/// (`NameBind`, a free variable seen by the parser) or a type
/// (`VarBind`, a lambda parameter).
#[derive(Debug)]
pub enum Bind {
    NameBind,
    VarBind(Type),
}

/// One context entry: a display name and its binding.
#[derive(Debug)]
pub struct VarContext(pub String, pub Bind);

/// The binding context, a stack: index 0 is the innermost binder.
pub type Context = VecDeque<VarContext>;

/// Mathematical view of a type: positions erased, labels as `Seq<char>`.
pub enum TypeV {
    Bool,
    Arr(Box<TypeV>, Box<TypeV>),
    Top,
    Record(Seq<(Seq<char>, TypeV)>),
}

/// Mathematical view of a term: positions erased, indices as `int`,
/// labels and names as `Seq<char>`.
pub enum TermV {
    True,
    False,
    Zero,
    Pred(Box<TermV>),
    Succ(Box<TermV>),
    IsZero(Box<TermV>),
    If(Box<TermV>, Box<TermV>, Box<TermV>),
    Var(int, int),
    App(Box<TermV>, Box<TermV>),
    Abst(Seq<char>, TypeV, Box<TermV>),
    Proj(Box<TermV>, Seq<char>),
    Record(Seq<(Seq<char>, TermV)>),
}

/// Mathematical view of a binding.
pub enum BindV {
    Name,
    Var(TypeV),
}

pub open spec fn ty_view(t: Type) -> TypeV
    decreases t,
{
    match t {
        Type::TyBool => TypeV::Bool,
        Type::TyTop => TypeV::Top,
        Type::TyArr(a, b) => TypeV::Arr(Box::new(ty_view(*a)), Box::new(ty_view(*b))),
        Type::TyRecord(fs) => TypeV::Record(ty_fields_view(fs@)),
    }
}

pub open spec fn ty_fields_view(fs: Seq<(String, Type)>) -> Seq<(Seq<char>, TypeV)>
    decreases fs,
{
    if fs.len() == 0 {
        Seq::empty()
    } else {
        ty_fields_view(fs.subrange(0, fs.len() - 1)).push(
            (fs[fs.len() - 1].0@, ty_view(fs[fs.len() - 1].1)),
        )
    }
}

pub open spec fn term_view(t: Term) -> TermV
    decreases t,
{
    match t {
        Term::True(_) => TermV::True,
        Term::False(_) => TermV::False,
        Term::Zero(_) => TermV::Zero,
        Term::Pred(_, t1) => TermV::Pred(Box::new(term_view(*t1))),
        Term::Succ(_, t1) => TermV::Succ(Box::new(term_view(*t1))),
        Term::IsZero(_, t1) => TermV::IsZero(Box::new(term_view(*t1))),
        Term::If(_, c, t1, t2) => TermV::If(
            Box::new(term_view(*c)),
            Box::new(term_view(*t1)),
            Box::new(term_view(*t2)),
        ),
        Term::Var(_, k, n) => TermV::Var(k as int, n as int),
        Term::App(_, f, a) => TermV::App(Box::new(term_view(*f)), Box::new(term_view(*a))),
        Term::Abst(_, x, ty, body) => TermV::Abst(x@, ty_view(ty), Box::new(term_view(*body))),
        Term::Proj(_, r, l) => TermV::Proj(Box::new(term_view(*r)), l@),
        Term::Record(_, fs) => TermV::Record(term_fields_view(fs@)),
    }
}

pub open spec fn term_fields_view(fs: Seq<(String, Term)>) -> Seq<(Seq<char>, TermV)>
    decreases fs,
{
    if fs.len() == 0 {
        Seq::empty()
    } else {
        term_fields_view(fs.subrange(0, fs.len() - 1)).push(
            (fs[fs.len() - 1].0@, term_view(fs[fs.len() - 1].1)),
        )
    }
}

pub open spec fn bind_view(b: Bind) -> BindV {
    match b {
        Bind::NameBind => BindV::Name,
        Bind::VarBind(t) => BindV::Var(ty_view(t)),
    }
}

impl View for Type {
    type V = TypeV;

    open spec fn view(&self) -> TypeV {
        ty_view(*self)
    }
}

impl View for Term {
    type V = TermV;

    open spec fn view(&self) -> TermV {
        term_view(*self)
    }
}

impl View for Bind {
    type V = BindV;

    open spec fn view(&self) -> BindV {
        bind_view(*self)
    }
}

impl View for VarContext {
    type V = (Seq<char>, BindV);

    open spec fn view(&self) -> (Seq<char>, BindV) {
        (self.0@, bind_view(self.1))
    }
}

/// The bindings of a context, innermost first, as the type checker sees them.
pub open spec fn binds_view(ctx: Seq<VarContext>) -> Seq<BindV> {
    ctx.map(|i: int, vc: VarContext| bind_view(vc.1))
}

pub proof fn lemma_ty_fields_view(fs: Seq<(String, Type)>)
    ensures
        ty_fields_view(fs).len() == fs.len(),
        forall|j: int|
            0 <= j < fs.len() ==> #[trigger] ty_fields_view(fs)[j] == (
                fs[j].0@,
                ty_view(fs[j].1),
            ),
    decreases fs.len(),
{
    if fs.len() > 0 {
        lemma_ty_fields_view(fs.subrange(0, fs.len() - 1));
        assert forall|j: int| 0 <= j < fs.len() implies #[trigger] ty_fields_view(fs)[j] == (
            fs[j].0@,
            ty_view(fs[j].1),
        ) by {
            if j < fs.len() - 1 {
                assert(fs.subrange(0, fs.len() - 1)[j] == fs[j]);
            }
        }
    }
}

pub proof fn lemma_term_fields_view(fs: Seq<(String, Term)>)
    ensures
        term_fields_view(fs).len() == fs.len(),
        forall|j: int|
            0 <= j < fs.len() ==> #[trigger] term_fields_view(fs)[j] == (
                fs[j].0@,
                term_view(fs[j].1),
            ),
    decreases fs.len(),
{
    if fs.len() > 0 {
        lemma_term_fields_view(fs.subrange(0, fs.len() - 1));
        assert forall|j: int| 0 <= j < fs.len() implies #[trigger] term_fields_view(fs)[j] == (
            fs[j].0@,
            term_view(fs[j].1),
        ) by {
            if j < fs.len() - 1 {
                assert(fs.subrange(0, fs.len() - 1)[j] == fs[j]);
            }
        }
    }
}

/// An empty binding context.
pub fn init_context() -> (ctx: Context)
    ensures
        ctx@ =~= Seq::<VarContext>::empty(),
{
    VecDeque::new()
}

/// Push a binding for `x` at index 0; every existing index shifts by one.
/// The returned index of the new binding is always 0.
pub fn add_bind(ctx: &mut Context, x: &str, b: Bind) -> (idx: i32)
    ensures
        final(ctx)@.len() == old(ctx)@.len() + 1,
        final(ctx)@[0].0@ == x@,
        final(ctx)@[0].1 == b,
        final(ctx)@.subrange(1, final(ctx)@.len() as int) =~= old(ctx)@,
        idx == 0,
{
    let bind = VarContext(x.to_owned(), b);
    ctx.push_front(bind);
    0
}

/// Pop the innermost binding; the exact inverse of `add_bind` after an
/// abstraction's body has been processed. Leaves an empty context alone.
pub fn pop_bind(ctx: &mut Context)
    ensures
        old(ctx)@.len() > 0 ==> final(ctx)@ =~= old(ctx)@.subrange(1, old(ctx)@.len() as int),
        old(ctx)@.len() == 0 ==> final(ctx)@ =~= old(ctx)@,
{
    ctx.pop_front();
}

/// The display name stored at context position `x`.
pub fn index2name(ctx: &Context, x: i32) -> (name: &str)
    requires
        0 <= x < ctx@.len(),
    ensures
        name@ == ctx@[x as int].0@,
{
    ctx[x as usize].0.as_str()
}

/// Structural deep copy of a type; the view is preserved exactly.
pub fn clone_type(t: &Type) -> (r: Type)
    ensures
        r@ == t@,
    decreases t,
{
    match t {
        Type::TyBool => Type::TyBool,
        Type::TyTop => Type::TyTop,
        Type::TyArr(a, b) => Type::TyArr(Box::new(clone_type(a)), Box::new(clone_type(b))),
        Type::TyRecord(fs) => {
            let mut out: Vec<(String, Type)> = Vec::new();
            let mut i: usize = 0;
            #[verifier::loop_isolation(false)]
            while i < fs.len()
                invariant
                    i <= fs.len(),
                    out@.len() == i as int,
                    forall|j: int|
                        0 <= j < i ==> #[trigger] out@[j].0@ == fs@[j].0@ && out@[j].1@ == fs@[j].1@,
                decreases fs.len() - i,
            {
                let p = &fs[i];
                proof {
                    assert(decreases_to!(*t => t->TyRecord_0));
                    assert(decreases_to!(*fs => fs@));
                    assert(decreases_to!(fs@ => fs@[i as int]));
                    assert(decreases_to!(fs@[i as int] => fs@[i as int].1));
                    assert(decreases_to!(*t => p.1));
                }
                out.push((p.0.clone(), clone_type(&p.1)));
                i = i + 1;
            }
            proof {
                lemma_ty_fields_view(out@);
                lemma_ty_fields_view(fs@);
                assert(ty_fields_view(out@) =~= ty_fields_view(fs@));
            }
            Type::TyRecord(out)
        },
    }
}

/// Structural deep copy of a term; the view is preserved exactly.
pub fn clone_term(t: &Term) -> (r: Term)
    ensures
        r@ == t@,
    decreases t,
{
    match t {
        Term::True(info) => Term::True(*info),
        Term::False(info) => Term::False(*info),
        Term::Zero(info) => Term::Zero(*info),
        Term::Pred(info, t1) => Term::Pred(*info, Box::new(clone_term(t1))),
        Term::Succ(info, t1) => Term::Succ(*info, Box::new(clone_term(t1))),
        Term::IsZero(info, t1) => Term::IsZero(*info, Box::new(clone_term(t1))),
        Term::If(info, c, t1, t2) => Term::If(
            *info,
            Box::new(clone_term(c)),
            Box::new(clone_term(t1)),
            Box::new(clone_term(t2)),
        ),
        Term::Var(info, k, l) => Term::Var(*info, *k, *l),
        Term::App(info, f, a) => Term::App(*info, Box::new(clone_term(f)), Box::new(clone_term(a))),
        Term::Abst(info, x, ty, body) => Term::Abst(
            *info,
            x.clone(),
            clone_type(ty),
            Box::new(clone_term(body)),
        ),
        Term::Proj(info, r0, l) => Term::Proj(*info, Box::new(clone_term(r0)), l.clone()),
        Term::Record(info, fs) => {
            let mut out: Vec<(String, Term)> = Vec::new();
            let mut i: usize = 0;
            #[verifier::loop_isolation(false)]
            while i < fs.len()
                invariant
                    i <= fs.len(),
                    out@.len() == i as int,
                    forall|j: int|
                        0 <= j < i ==> #[trigger] out@[j].0@ == fs@[j].0@ && out@[j].1@ == fs@[j].1@,
                decreases fs.len() - i,
            {
                let p = &fs[i];
                proof {
                    assert(decreases_to!(*t => t->Record_1));
                    assert(decreases_to!(*fs => fs@));
                    assert(decreases_to!(fs@ => fs@[i as int]));
                    assert(decreases_to!(fs@[i as int] => fs@[i as int].1));
                    assert(decreases_to!(*t => p.1));
                }
                out.push((p.0.clone(), clone_term(&p.1)));
                i = i + 1;
            }
            proof {
                lemma_term_fields_view(out@);
                lemma_term_fields_view(fs@);
                assert(term_fields_view(out@) =~= term_fields_view(fs@));
            }
            Term::Record(*info, out)
        },
    }
}

} // verus!

