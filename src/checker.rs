//! Static checks that a parsed program respects the reversibility rules:
//! unique procedure names, the call classes allowed in involution bodies,
//! no self-referencing mutation or repeated call argument, and at most
//! one use of each mutable variable along a path of an involution body.
use crate::ast::{
    Expr, ExprV, MainProc, Proc, ProcId, Program, Statement, StmtV, Type, TypedVariable, Variable,
    names, container_view,
};
use vstd::prelude::*;

verus! {

/// Why a program is rejected.
#[derive(Debug)]
pub enum CheckError {
    /// Two procedures share this name.
    DuplicateProc(ProcId),
    /// A call or uncall names a procedure that is not declared.
    UndefinedProc(ProcId),
    /// A call or uncall inside an involution body targets this injective procedure.
    InjectiveInInvolution(ProcId),
    /// A mutation reads its own target on the right-hand side.
    SelfReference(Variable),
    /// A call or uncall passes this variable more than once.
    RepeatedArgument(Variable),
    /// This mutable variable is used twice along one path of an involution body.
    NonLinearUse(Variable),
    /// An involution body holds a statement that has no place there.
    NotInvolutive,
}

/// The mathematical value of a `CheckError`.
pub enum CheckErrorV {
    DuplicateProc(Seq<char>),
    UndefinedProc(Seq<char>),
    InjectiveInInvolution(Seq<char>),
    SelfReference(Seq<char>),
    RepeatedArgument(Seq<char>),
    NonLinearUse(Seq<char>),
    NotInvolutive,
}

impl View for CheckError {
    type V = CheckErrorV;

    open spec fn view(&self) -> CheckErrorV {
        match self {
            CheckError::DuplicateProc(q) => CheckErrorV::DuplicateProc(q@),
            CheckError::UndefinedProc(q) => CheckErrorV::UndefinedProc(q@),
            CheckError::InjectiveInInvolution(q) => CheckErrorV::InjectiveInInvolution(q@),
            CheckError::SelfReference(x) => CheckErrorV::SelfReference(x@),
            CheckError::RepeatedArgument(x) => CheckErrorV::RepeatedArgument(x@),
            CheckError::NonLinearUse(x) => CheckErrorV::NonLinearUse(x@),
            CheckError::NotInvolutive => CheckErrorV::NotInvolutive,
        }
    }
}

/// The outcome of a check, over values.
pub open spec fn outcome_view(r: Result<(), CheckError>) -> Result<(), CheckErrorV> {
    match r {
        Ok(()) => Ok(()),
        Err(e) => Err(e@),
    }
}

// ---------------------------------------------------------------------
// Variables read by an expression
// ---------------------------------------------------------------------
/// The variables that an expression mentions, in the order of the text.
pub open spec fn expr_vars(e: ExprV) -> Seq<Seq<char>>
    decreases e,
{
    match e {
        ExprV::Const(_) => Seq::empty(),
        ExprV::Nil => Seq::empty(),
        ExprV::Variable(x) => seq![x],
        ExprV::Empty(x) => seq![x],
        ExprV::Size(x) => seq![x],
        ExprV::Array(es) => exprs_vars(es),
        ExprV::Indexed(x, i) => seq![x] + expr_vars(*i),
        ExprV::BinOp(l, _, r) => expr_vars(*l) + expr_vars(*r),
        ExprV::UnrOp(_, x) => expr_vars(*x),
        ExprV::Wrapped(x) => expr_vars(*x),
    }
}

pub open spec fn exprs_vars(es: Seq<ExprV>) -> Seq<Seq<char>>
    decreases es,
{
    if es.len() == 0 {
        Seq::empty()
    } else {
        exprs_vars(es.drop_last()) + expr_vars(es.last())
    }
}

// ---------------------------------------------------------------------
// Mutables: the mutable variables of an involution body, each with a
// flag that says whether it was used along the current path
// ---------------------------------------------------------------------
/// The position of the first entry for `x`, or -1.
pub open spec fn find(m: Seq<(Seq<char>, bool)>, x: Seq<char>) -> int
    decreases m.len(),
{
    if m.len() == 0 {
        -1
    } else if m[0].0 == x {
        0
    } else {
        let r = find(m.drop_first(), x);
        if r < 0 {
            -1
        } else {
            r + 1
        }
    }
}

/// One use of `x`: other names pass; a watched one is marked used,
/// and a second use is rejected.
pub open spec fn use_name(m: Seq<(Seq<char>, bool)>, x: Seq<char>) -> Result<
    Seq<(Seq<char>, bool)>,
    CheckErrorV,
> {
    let i = find(m, x);
    if i < 0 {
        Ok(m)
    } else if m[i].1 {
        Err(CheckErrorV::NonLinearUse(x))
    } else {
        Ok(m.update(i, (x, true)))
    }
}

/// Uses of `xs`, in order.
pub open spec fn use_names(m: Seq<(Seq<char>, bool)>, xs: Seq<Seq<char>>) -> Result<
    Seq<(Seq<char>, bool)>,
    CheckErrorV,
>
    decreases xs.len(),
{
    if xs.len() == 0 {
        Ok(m)
    } else {
        match use_names(m, xs.drop_last()) {
            Ok(m1) => use_name(m1, xs.last()),
            Err(e) => Err(e),
        }
    }
}

/// Tracks `x` afresh, as not yet used.
pub open spec fn bind(m: Seq<(Seq<char>, bool)>, x: Seq<char>) -> Seq<(Seq<char>, bool)> {
    let i = find(m, x);
    if i < 0 {
        m.push((x, false))
    } else {
        m.update(i, (x, false))
    }
}

/// Tracks each of `xs` afresh, in order.
pub open spec fn bind_all(m: Seq<(Seq<char>, bool)>, xs: Seq<Seq<char>>) -> Seq<(Seq<char>, bool)>
    decreases xs.len(),
{
    if xs.len() == 0 {
        m
    } else {
        bind(bind_all(m, xs.drop_last()), xs.last())
    }
}

/// Every watched variable marked used.
pub open spec fn all_used(m: Seq<(Seq<char>, bool)>) -> Seq<(Seq<char>, bool)> {
    Seq::new(m.len(), |i: int| (m[i].0, true))
}

/// After a two-armed conditional: a variable is used if either arm used it.
pub open spec fn merge(m: Seq<(Seq<char>, bool)>, c: Seq<(Seq<char>, bool)>) -> Seq<
    (Seq<char>, bool),
> {
    Seq::new(
        m.len(),
        |i: int|
            if i < c.len() {
                (m[i].0, m[i].1 || c[i].1)
            } else {
                m[i]
            },
    )
}

/// Uses of the containers of a for-loop and of their permutation indices.
pub open spec fn use_containers(
    m: Seq<(Seq<char>, bool)>,
    cs: Seq<(Seq<char>, Option<Seq<char>>)>,
) -> Result<Seq<(Seq<char>, bool)>, CheckErrorV>
    decreases cs.len(),
{
    if cs.len() == 0 {
        Ok(m)
    } else {
        match use_containers(m, cs.drop_last()) {
            Ok(m1) => match use_name(m1, cs.last().0) {
                Ok(m2) => match cs.last().1 {
                    Some(i) => use_name(m2, i),
                    None => Ok(m2),
                },
                Err(e) => Err(e),
            },
            Err(e) => Err(e),
        }
    }
}

/// Tracks afresh the first `k` packs of loop variables whose container is mutables.
pub open spec fn bind_packs(
    m: Seq<(Seq<char>, bool)>,
    vars: Seq<Seq<Seq<char>>>,
    cs: Seq<(Seq<char>, Option<Seq<char>>)>,
    k: nat,
) -> Seq<(Seq<char>, bool)>
    decreases k,
{
    if k == 0 {
        m
    } else {
        let m1 = bind_packs(m, vars, cs, (k - 1) as nat);
        if find(m1, cs[k - 1].0) >= 0 {
            bind_all(m1, vars[k - 1])
        } else {
            m1
        }
    }
}

pub open spec fn min_len(a: nat, b: nat) -> nat {
    if a <= b {
        a
    } else {
        b
    }
}

/// The linear-use check of a statement of an involution body: the
/// mutables variables afterwards, or the first violation.
pub open spec fn linear(s: StmtV, m: Seq<(Seq<char>, bool)>) -> Result<
    Seq<(Seq<char>, bool)>,
    CheckErrorV,
>
    decreases s,
{
    match s {
        StmtV::Mut(x, _, e) => use_names(m, seq![x] + expr_vars(e)),
        StmtV::IndexedMut(x, l, _, r) => use_names(m, seq![x] + expr_vars(l) + expr_vars(r)),
        StmtV::IndexedSwap(x, l, r) => use_names(m, seq![x] + expr_vars(l) + expr_vars(r)),
        StmtV::Call(_, args) => use_names(m, args),
        StmtV::Uncall(_, args) => use_names(m, args),
        StmtV::Skip => Ok(m),
        StmtV::Print(_) => Ok(m),
        StmtV::IfThenElse(e, l, r) => match use_names(m, expr_vars(e)) {
            Ok(m1) => match linear(*l, m1) {
                Ok(ml) => match linear(*r, m1) {
                    Ok(mr) => Ok(merge(mr, ml)),
                    Err(er) => Err(er),
                },
                Err(el) => Err(el),
            },
            Err(ee) => Err(ee),
        },
        StmtV::For(vars, cs, body) => match use_containers(m, cs) {
            Ok(m1) => match linear(
                *body,
                bind_packs(all_used(m1), vars, cs, min_len(vars.len(), cs.len())),
            ) {
                Ok(_) => Ok(m),
                Err(eb) => Err(eb),
            },
            Err(ec) => Err(ec),
        },
        StmtV::Sequence(l, r) => match linear(*l, m) {
            Ok(m1) => linear(*r, m1),
            Err(el) => Err(el),
        },
        _ => Err(CheckErrorV::NotInvolutive),
    }
}

/// The variables that an involution body tracks: the non-const ones of
/// the declarations, each not yet used.
pub open spec fn seed(decls: Seq<(Type, Seq<char>)>) -> Seq<(Seq<char>, bool)>
    decreases decls.len(),
{
    if decls.len() == 0 {
        Seq::empty()
    } else if decls.last().0.is_const {
        seed(decls.drop_last())
    } else {
        bind(seed(decls.drop_last()), decls.last().1)
    }
}

// ---------------------------------------------------------------------
// Self-reference and repeated arguments
// ---------------------------------------------------------------------
/// The first argument that repeats an earlier one.
pub open spec fn first_repeat(xs: Seq<Seq<char>>) -> Option<Seq<char>>
    decreases xs.len(),
{
    if xs.len() == 0 {
        None
    } else {
        match first_repeat(xs.drop_last()) {
            Some(x) => Some(x),
            None => if xs.drop_last().contains(xs.last()) {
                Some(xs.last())
            } else {
                None
            },
        }
    }
}

/// The first self-referencing mutation or repeated argument in `s`.
pub open spec fn dup_error(s: StmtV) -> Option<CheckErrorV>
    decreases s,
{
    match s {
        StmtV::Mut(x, _, e) => if expr_vars(e).contains(x) {
            Some(CheckErrorV::SelfReference(x))
        } else {
            None
        },
        StmtV::IndexedMut(x, _, _, e) => if expr_vars(e).contains(x) {
            Some(CheckErrorV::SelfReference(x))
        } else {
            None
        },
        StmtV::Call(_, xs) => match first_repeat(xs) {
            Some(x) => Some(CheckErrorV::RepeatedArgument(x)),
            None => None,
        },
        StmtV::Uncall(_, xs) => match first_repeat(xs) {
            Some(x) => Some(CheckErrorV::RepeatedArgument(x)),
            None => None,
        },
        StmtV::IfThenElseFi(_, l, r, _) => match dup_error(*l) {
            Some(e) => Some(e),
            None => dup_error(*r),
        },
        StmtV::FromDoLoopUntil(_, l, r, _) => match dup_error(*l) {
            Some(e) => Some(e),
            None => dup_error(*r),
        },
        StmtV::IfThenElse(_, l, r) => match dup_error(*l) {
            Some(e) => Some(e),
            None => dup_error(*r),
        },
        StmtV::Sequence(l, r) => match dup_error(*l) {
            Some(e) => Some(e),
            None => dup_error(*r),
        },
        StmtV::LocalDelocal(_, _, b, _, _) => dup_error(*b),
        StmtV::For(_, _, b) => dup_error(*b),
        _ => None,
    }
}

// ---------------------------------------------------------------------
// Procedure table and call classes
// ---------------------------------------------------------------------
/// The class of the first procedure named `q` in `t`: `Some(true)` for
/// an injective one.
pub open spec fn lookup(t: Seq<(Seq<char>, bool)>, q: Seq<char>) -> Option<bool> {
    let i = find(t, q);
    if i < 0 {
        None
    } else {
        Some(t[i].1)
    }
}

/// The table of procedure names and classes, or the first repeated name.
pub open spec fn proc_table(ps: Seq<(Seq<char>, bool)>) -> Result<
    Seq<(Seq<char>, bool)>,
    CheckErrorV,
>
    decreases ps.len(),
{
    if ps.len() == 0 {
        Ok(Seq::empty())
    } else {
        match proc_table(ps.drop_last()) {
            Ok(t) => if find(t, ps.last().0) >= 0 {
                Err(CheckErrorV::DuplicateProc(ps.last().0))
            } else {
                Ok(t.push(ps.last()))
            },
            Err(e) => Err(e),
        }
    }
}

/// The name and class (`true` for injective) of a procedure.
pub open spec fn proc_entry(p: Proc) -> (Seq<char>, bool) {
    (p.id()@, p is Inj)
}

/// The first call or uncall in the involution body `s` whose target is
/// undefined or injective.
pub open spec fn class_error(t: Seq<(Seq<char>, bool)>, s: StmtV) -> Option<CheckErrorV>
    decreases s,
{
    match s {
        StmtV::Call(q, _) => call_class_error(t, q),
        StmtV::Uncall(q, _) => call_class_error(t, q),
        StmtV::For(_, _, b) => class_error(t, *b),
        StmtV::IfThenElse(_, l, r) => match class_error(t, *l) {
            Some(e) => Some(e),
            None => class_error(t, *r),
        },
        StmtV::Sequence(l, r) => match class_error(t, *l) {
            Some(e) => Some(e),
            None => class_error(t, *r),
        },
        _ => None,
    }
}

pub open spec fn call_class_error(t: Seq<(Seq<char>, bool)>, q: Seq<char>) -> Option<CheckErrorV> {
    match lookup(t, q) {
        None => Some(CheckErrorV::UndefinedProc(q)),
        Some(true) => Some(CheckErrorV::InjectiveInInvolution(q)),
        Some(false) => None,
    }
}

// ---------------------------------------------------------------------
// Whole programs
// ---------------------------------------------------------------------
/// The checks of one body with an involution part, in order.
pub open spec fn invl_body_result(
    t: Seq<(Seq<char>, bool)>,
    decls: Seq<(Type, Seq<char>)>,
    fwd: StmtV,
    invl: StmtV,
) -> Result<(), CheckErrorV> {
    match class_error(t, invl) {
        Some(e) => Err(e),
        None => match dup_error(fwd) {
            Some(e) => Err(e),
            None => match dup_error(invl) {
                Some(e) => Err(e),
                None => match linear(invl, seed(decls)) {
                    Ok(_) => Ok(()),
                    Err(e) => Err(e),
                },
            },
        },
    }
}

pub open spec fn main_decls(main: MainProc) -> Seq<(Type, Seq<char>)> {
    main.0@.map_values(|d: (TypedVariable, Option<Expr>)| d.0@)
}

pub open spec fn params(ps: Seq<TypedVariable>) -> Seq<(Type, Seq<char>)> {
    ps.map_values(|p: TypedVariable| p@)
}

pub open spec fn proc_result(t: Seq<(Seq<char>, bool)>, p: Proc) -> Result<(), CheckErrorV> {
    match p {
        Proc::Inj(_, _, s) => match dup_error(s@) {
            Some(e) => Err(e),
            None => Ok(()),
        },
        Proc::Invl(_, ps, s, i) => invl_body_result(t, params(ps@), s@, i@),
        Proc::Mat(_, _) => Ok(()),
    }
}

pub open spec fn procs_result(t: Seq<(Seq<char>, bool)>, ps: Seq<Proc>) -> Result<(), CheckErrorV>
    decreases ps.len(),
{
    if ps.len() == 0 {
        Ok(())
    } else {
        match procs_result(t, ps.drop_last()) {
            Ok(()) => proc_result(t, ps.last()),
            Err(e) => Err(e),
        }
    }
}

/// The verdict on a program: the first error of the four analyses, in order.
pub open spec fn program_result(p: Program) -> Result<(), CheckErrorV> {
    match proc_table(p.1@.map_values(|q: Proc| proc_entry(q))) {
        Err(e) => Err(e),
        Ok(t) => match invl_body_result(t, main_decls(p.0), p.0.1@, p.0.2@) {
            Err(e) => Err(e),
            Ok(()) => procs_result(t, p.1@),
        },
    }
}

// ---------------------------------------------------------------------
// Lemmas
// ---------------------------------------------------------------------
proof fn lemma_find_first(m: Seq<(Seq<char>, bool)>, x: Seq<char>, i: int)
    requires
        0 <= i <= m.len(),
        forall|j: int| 0 <= j < i ==> m[j].0 != x,
        i < m.len() ==> m[i].0 == x,
    ensures
        find(m, x) == (if i < m.len() {
            i
        } else {
            -1
        }),
    decreases i,
{
    if i > 0 {
        lemma_find_first(m.drop_first(), x, i - 1);
    }
}

proof fn lemma_find_range(m: Seq<(Seq<char>, bool)>, x: Seq<char>)
    ensures
        -1 <= find(m, x) < m.len(),
        find(m, x) >= 0 ==> m[find(m, x)].0 == x,
    decreases m.len(),
{
    if m.len() > 0 {
        lemma_find_range(m.drop_first(), x);
    }
}

proof fn lemma_use_names_err(m: Seq<(Seq<char>, bool)>, xs: Seq<Seq<char>>, k: int)
    requires
        0 <= k <= xs.len(),
        use_names(m, xs.take(k)) is Err,
    ensures
        use_names(m, xs) == use_names(m, xs.take(k)),
    decreases xs.len(),
{
    if k == xs.len() {
        assert(xs.take(k) =~= xs);
    } else {
        assert(xs.drop_last().take(k) =~= xs.take(k));
        lemma_use_names_err(m, xs.drop_last(), k);
    }
}

proof fn lemma_first_repeat_some(xs: Seq<Seq<char>>, k: int)
    requires
        0 <= k <= xs.len(),
        first_repeat(xs.take(k)) is Some,
    ensures
        first_repeat(xs) == first_repeat(xs.take(k)),
    decreases xs.len(),
{
    if k == xs.len() {
        assert(xs.take(k) =~= xs);
    } else {
        assert(xs.drop_last().take(k) =~= xs.take(k));
        lemma_first_repeat_some(xs.drop_last(), k);
    }
}

proof fn lemma_proc_table_err(ps: Seq<(Seq<char>, bool)>, k: int)
    requires
        0 <= k <= ps.len(),
        proc_table(ps.take(k)) is Err,
    ensures
        proc_table(ps) == proc_table(ps.take(k)),
    decreases ps.len(),
{
    if k == ps.len() {
        assert(ps.take(k) =~= ps);
    } else {
        assert(ps.drop_last().take(k) =~= ps.take(k));
        lemma_proc_table_err(ps.drop_last(), k);
    }
}

proof fn lemma_procs_result_err(t: Seq<(Seq<char>, bool)>, ps: Seq<Proc>, k: int)
    requires
        0 <= k <= ps.len(),
        procs_result(t, ps.take(k)) is Err,
    ensures
        procs_result(t, ps) == procs_result(t, ps.take(k)),
    decreases ps.len(),
{
    if k == ps.len() {
        assert(ps.take(k) =~= ps);
    } else {
        assert(ps.drop_last().take(k) =~= ps.take(k));
        lemma_procs_result_err(t, ps.drop_last(), k);
    }
}

proof fn lemma_use_containers_err(
    m: Seq<(Seq<char>, bool)>,
    cs: Seq<(Seq<char>, Option<Seq<char>>)>,
    k: int,
)
    requires
        0 <= k <= cs.len(),
        use_containers(m, cs.take(k)) is Err,
    ensures
        use_containers(m, cs) == use_containers(m, cs.take(k)),
    decreases cs.len(),
{
    if k == cs.len() {
        assert(cs.take(k) =~= cs);
    } else {
        assert(cs.drop_last().take(k) =~= cs.take(k));
        lemma_use_containers_err(m, cs.drop_last(), k);
    }
}

// ---------------------------------------------------------------------
// Executable mutables
// ---------------------------------------------------------------------
/// The mutables variables with their flags, over values.
pub open spec fn entries_view(m: Seq<(Variable, bool)>) -> Seq<(Seq<char>, bool)> {
    m.map_values(|p: (Variable, bool)| (p.0@, p.1))
}

/// Whether an executable outcome and state match a specified outcome.
pub open spec fn agrees(
    r: Result<(), CheckError>,
    m: Seq<(Variable, bool)>,
    want: Result<Seq<(Seq<char>, bool)>, CheckErrorV>,
) -> bool {
    match want {
        Ok(m1) => r is Ok && entries_view(m) == m1,
        Err(e) => match r {
            Err(e2) => e2@ == e,
            Ok(_) => false,
        },
    }
}

fn find_entry(m: &Vec<(Variable, bool)>, x: &Variable) -> (r: Option<usize>)
    ensures
        match r {
            Some(i) => i as int == find(entries_view(m@), x@) && i < m.len(),
            None => find(entries_view(m@), x@) < 0,
        },
{
    let mut i: usize = 0;
    while i < m.len()
        invariant
            i <= m.len(),
            forall|j: int| 0 <= j < i ==> entries_view(m@)[j].0 != x@,
        decreases m.len() - i,
    {
        if m[i].0 == *x {
            proof {
                lemma_find_first(entries_view(m@), x@, i as int);
            }
            return Some(i);
        }
        i = i + 1;
    }
    proof {
        lemma_find_first(entries_view(m@), x@, i as int);
    }
    None
}

fn clone_entries(m: &Vec<(Variable, bool)>) -> (r: Vec<(Variable, bool)>)
    ensures
        r@ == m@,
{
    let mut r: Vec<(Variable, bool)> = Vec::new();
    let mut i: usize = 0;
    while i < m.len()
        invariant
            i <= m.len(),
            r@ == m@.take(i as int),
        decreases m.len() - i,
    {
        r.push((m[i].0.clone(), m[i].1));
        i = i + 1;
        assert(r@ =~= m@.take(i as int));
    }
    assert(r@ =~= m@);
    r
}

/// One use of `x` in an involution body.
fn use_variable(m: &mut Vec<(Variable, bool)>, x: &Variable) -> (r: Result<(), CheckError>)
    ensures
        agrees(r, final(m)@, use_name(entries_view(old(m)@), x@)),
{
    match find_entry(m, x) {
        None => Ok(()),
        Some(i) => {
            if m[i].1 {
                Err(CheckError::NonLinearUse(x.clone()))
            } else {
                let ghost before = entries_view(m@);
                m.set(i, (x.clone(), true));
                assert(entries_view(m@) =~= before.update(i as int, (x@, true)));
                Ok(())
            }
        },
    }
}

/// Uses of the variables `xs`, in order.
fn use_all(m: &mut Vec<(Variable, bool)>, xs: &Vec<Variable>) -> (r: Result<(), CheckError>)
    ensures
        agrees(r, final(m)@, use_names(entries_view(old(m)@), names(xs@))),
{
    let ghost m0 = entries_view(m@);
    let ghost ns = names(xs@);
    let mut i: usize = 0;
    while i < xs.len()
        invariant
            i <= xs.len(),
            ns == names(xs@),
            m0 == entries_view(old(m)@),
            use_names(m0, ns.take(i as int)) == Ok::<Seq<(Seq<char>, bool)>, CheckErrorV>(
                entries_view(m@),
            ),
        decreases xs.len() - i,
    {
        assert(ns.take(i + 1).drop_last() =~= ns.take(i as int));
        assert(ns.take(i + 1).last() == xs@[i as int]@);
        let ghost mb = entries_view(m@);
        assert(use_names(m0, ns.take(i + 1)) == use_name(mb, xs@[i as int]@));
        let r = use_variable(m, &xs[i]);
        match r {
            Err(e) => {
                proof {
                    assert(use_name(mb, xs@[i as int]@) is Err);
                    lemma_use_names_err(m0, ns, i + 1);
                    assert(use_names(m0, ns) == use_name(mb, xs@[i as int]@));
                    assert(agrees(Err(e), m@, use_names(m0, ns)));
                }
                return Err(e);
            },
            Ok(()) => {},
        }
        i = i + 1;
    }
    assert(ns.take(i as int) =~= ns);
    Ok(())
}

/// Tracks `x` afresh, as not yet used.
fn bind_variable(m: &mut Vec<(Variable, bool)>, x: &Variable)
    ensures
        entries_view(final(m)@) == bind(entries_view(old(m)@), x@),
{
    let ghost before = entries_view(m@);
    match find_entry(m, x) {
        None => {
            m.push((x.clone(), false));
            assert(entries_view(m@) =~= before.push((x@, false)));
        },
        Some(i) => {
            m.set(i, (x.clone(), false));
            assert(entries_view(m@) =~= before.update(i as int, (x@, false)));
        },
    }
}

fn bind_variables(m: &mut Vec<(Variable, bool)>, xs: &Vec<Variable>)
    ensures
        entries_view(final(m)@) == bind_all(entries_view(old(m)@), names(xs@)),
{
    let ghost m0 = entries_view(m@);
    let ghost ns = names(xs@);
    let mut i: usize = 0;
    while i < xs.len()
        invariant
            i <= xs.len(),
            ns == names(xs@),
            entries_view(m@) == bind_all(m0, ns.take(i as int)),
        decreases xs.len() - i,
    {
        assert(ns.take(i + 1).drop_last() =~= ns.take(i as int));
        bind_variable(m, &xs[i]);
        i = i + 1;
    }
    assert(ns.take(i as int) =~= ns);
}

fn mark_all_used(m: &mut Vec<(Variable, bool)>)
    ensures
        entries_view(final(m)@) == all_used(entries_view(old(m)@)),
{
    let ghost raw = m@;
    let ghost m0 = entries_view(m@);
    let mut i: usize = 0;
    while i < m.len()
        invariant
            i <= m.len(),
            m0 == entries_view(raw),
            m@.len() == raw.len(),
            forall|j: int| 0 <= j < i ==> #[trigger] m@[j] == (raw[j].0, true),
            forall|j: int| i <= j < m@.len() ==> #[trigger] m@[j] == raw[j],
        decreases m.len() - i,
    {
        let name = m[i].0.clone();
        m.set(i, (name, true));
        i = i + 1;
    }
    assert(entries_view(m@) =~= all_used(m0));
}

/// Marks as used in `m` each variable that `c` marks used.
fn merge_into(m: &mut Vec<(Variable, bool)>, c: &Vec<(Variable, bool)>)
    ensures
        entries_view(final(m)@) == merge(entries_view(old(m)@), entries_view(c@)),
{
    let ghost raw = m@;
    let ghost m0 = entries_view(m@);
    let ghost want = merge(m0, entries_view(c@));
    let mut i: usize = 0;
    while i < m.len() && i < c.len()
        invariant
            i <= m.len(),
            i <= c.len(),
            m0 == entries_view(raw),
            m@.len() == raw.len(),
            want == merge(m0, entries_view(c@)),
            forall|j: int| 0 <= j < i ==> #[trigger] m@[j] == (raw[j].0, raw[j].1 || c@[j].1),
            forall|j: int| i <= j < m@.len() ==> #[trigger] m@[j] == raw[j],
        decreases m.len() - i,
    {
        let b = m[i].1 || c[i].1;
        let name = m[i].0.clone();
        m.set(i, (name, b));
        i = i + 1;
    }
    assert(entries_view(c@).len() == c@.len());
    assert forall|j: int| 0 <= j < m@.len() implies #[trigger] entries_view(m@)[j] == want[j] by {
        if j < i {
        } else {
            assert(j >= c@.len());
        }
    }
    assert(entries_view(m@) =~= want);
}

// ---------------------------------------------------------------------
// Expressions
// ---------------------------------------------------------------------
proof fn lemma_names_push(vs: Seq<Variable>, v: Variable)
    ensures
        names(vs.push(v)) == names(vs).push(v@),
{
    assert(names(vs.push(v)) =~= names(vs).push(v@));
}

/// Appends the variables that the expressions mention, in order.
fn collect_all_variables(es: &Vec<Expr>, out: &mut Vec<Variable>)
    ensures
        names(final(out)@) == names(old(out)@) + exprs_vars(crate::ast::exprs_view(es@)),
    decreases es@,
{
    let ghost before = names(out@);
    let ghost ev = crate::ast::exprs_view(es@);
    proof {
        crate::ast::lemma_exprs_view(es@);
    }
    let mut i: usize = 0;
    while i < es.len()
        invariant
            i <= es.len(),
            ev == crate::ast::exprs_view(es@),
            ev.len() == es@.len(),
            forall|j: int| 0 <= j < es@.len() ==> #[trigger] ev[j] == es@[j]@,
            names(out@) == before + exprs_vars(ev.take(i as int)),
        decreases es.len() - i,
    {
        proof {
            assert(decreases_to!(es@ => es@[i as int]));
        }
        assert(ev.take(i + 1).drop_last() =~= ev.take(i as int));
        es[i].collect_variables(out);
        i = i + 1;
        assert(names(out@) =~= before + exprs_vars(ev.take(i as int)));
    }
    assert(ev.take(i as int) =~= ev);
}

impl Expr {
    /// Appends the variables that this expression mentions, in the order of the text.
    fn collect_variables(&self, out: &mut Vec<Variable>)
        ensures
            names(final(out)@) == names(old(out)@) + expr_vars(self@),
        decreases self,
    {
        let ghost before = names(out@);
        match self {
            Expr::Const(_) | Expr::Nil => {
                assert(names(out@) =~= before + expr_vars(self@));
            },
            Expr::Variable(x) | Expr::Empty(x) | Expr::Size(x) => {
                proof {
                    lemma_names_push(out@, *x);
                }
                out.push(x.clone());
                assert(names(out@) =~= before + expr_vars(self@));
            },
            Expr::Array(es) => {
                collect_all_variables(es, out);
            },
            Expr::Indexed(x, e) => {
                proof {
                    lemma_names_push(out@, *x);
                }
                out.push(x.clone());
                e.collect_variables(out);
                assert(names(out@) =~= before + expr_vars(self@));
            },
            Expr::BinOp(l, _, r) => {
                l.collect_variables(out);
                r.collect_variables(out);
                assert(names(out@) =~= before + expr_vars(self@));
            },
            Expr::UnrOp(_, e) | Expr::Wrapped(e) => {
                e.collect_variables(out);
            },
        }
    }

    /// The variables that this expression mentions, in the order of the text.
    pub fn variables(&self) -> (r: Vec<Variable>)
        ensures
            names(r@) == expr_vars(self@),
    {
        let mut out: Vec<Variable> = Vec::new();
        assert(names(out@) =~= Seq::<Seq<char>>::empty());
        self.collect_variables(&mut out);
        assert(names(out@) =~= expr_vars(self@));
        out
    }

    /// Whether this expression mentions `x`.
    pub fn has_variable(&self, x: &Variable) -> (r: bool)
        ensures
            r == expr_vars(self@).contains(x@),
    {
        let vs = self.variables();
        let mut i: usize = 0;
        while i < vs.len()
            invariant
                i <= vs.len(),
                names(vs@) == expr_vars(self@),
                forall|j: int| 0 <= j < i ==> names(vs@)[j] != x@,
            decreases vs.len() - i,
        {
            if vs[i] == *x {
                assert(names(vs@)[i as int] == x@);
                return true;
            }
            i = i + 1;
        }
        false
    }
}

// ---------------------------------------------------------------------
// Statements
// ---------------------------------------------------------------------
/// Uses of the containers of a for-loop and of their permutation indices.
fn use_loop_containers(
    m: &mut Vec<(Variable, bool)>,
    cs: &Vec<(Variable, Option<Variable>)>,
) -> (r: Result<(), CheckError>)
    ensures
        agrees(
            r,
            final(m)@,
            use_containers(entries_view(old(m)@), cs@.map_values(|c: (Variable, Option<Variable>)| container_view(c))),
        ),
{
    let ghost m0 = entries_view(m@);
    let ghost cv = cs@.map_values(|c: (Variable, Option<Variable>)| container_view(c));
    let mut k: usize = 0;
    while k < cs.len()
        invariant
            k <= cs.len(),
            m0 == entries_view(old(m)@),
            cv == cs@.map_values(|c: (Variable, Option<Variable>)| container_view(c)),
            use_containers(m0, cv.take(k as int)) == Ok::<Seq<(Seq<char>, bool)>, CheckErrorV>(
                entries_view(m@),
            ),
        decreases cs.len() - k,
    {
        assert(cv.take(k + 1).drop_last() =~= cv.take(k as int));
        assert(cv.take(k + 1).last() == container_view(cs@[k as int]));
        let ghost mb = entries_view(m@);
        match use_variable(m, &cs[k].0) {
            Err(e) => {
                proof {
                    lemma_use_containers_err(m0, cv, k + 1);
                }
                return Err(e);
            },
            Ok(()) => {},
        }
        match &cs[k].1 {
            Some(i) => {
                match use_variable(m, i) {
                    Err(e) => {
                        proof {
                            lemma_use_containers_err(m0, cv, k + 1);
                        }
                        return Err(e);
                    },
                    Ok(()) => {},
                }
            },
            None => {},
        }
        k = k + 1;
    }
    assert(cv.take(k as int) =~= cv);
    Ok(())
}

/// Tracks afresh the packs of loop variables whose container is mutables.
fn bind_loop_packs(
    m: &mut Vec<(Variable, bool)>,
    vars: &Vec<Vec<Variable>>,
    cs: &Vec<(Variable, Option<Variable>)>,
)
    ensures
        entries_view(final(m)@) == bind_packs(
            entries_view(old(m)@),
            vars@.map_values(|vs: Vec<Variable>| names(vs@)),
            cs@.map_values(|c: (Variable, Option<Variable>)| container_view(c)),
            min_len(vars@.len(), cs@.len()),
        ),
{
    let ghost m0 = entries_view(m@);
    let ghost vv = vars@.map_values(|vs: Vec<Variable>| names(vs@));
    let ghost cv = cs@.map_values(|c: (Variable, Option<Variable>)| container_view(c));
    let n = if vars.len() <= cs.len() {
        vars.len()
    } else {
        cs.len()
    };
    let mut k: usize = 0;
    while k < n
        invariant
            k <= n,
            n == min_len(vars@.len(), cs@.len()),
            m0 == entries_view(old(m)@),
            vv == vars@.map_values(|vs: Vec<Variable>| names(vs@)),
            cv == cs@.map_values(|c: (Variable, Option<Variable>)| container_view(c)),
            entries_view(m@) == bind_packs(m0, vv, cv, k as nat),
        decreases n - k,
    {
        assert(cv[k as int].0 == cs@[k as int].0@);
        assert(vv[k as int] == names(vars@[k as int]@));
        if find_entry(m, &cs[k].0).is_some() {
            bind_variables(m, &vars[k]);
        }
        k = k + 1;
    }
}

impl Statement {
    /// The linear-use check of this statement of an involution body,
    /// against the mutables variables `m`.
    pub fn check_mut(&self, m: &mut Vec<(Variable, bool)>) -> (r: Result<(), CheckError>)
        ensures
            agrees(r, final(m)@, linear(self@, entries_view(old(m)@))),
        decreases self,
    {
        match self {
            Statement::Mut(x, _, e) => {
                let mut xs: Vec<Variable> = Vec::new();
                xs.push(x.clone());
                assert(names(xs@) =~= seq![x@]);
                e.collect_variables(&mut xs);
                use_all(m, &xs)
            },
            Statement::IndexedMut(x, l, _, e) | Statement::IndexedSwap(x, l, e) => {
                let mut xs: Vec<Variable> = Vec::new();
                xs.push(x.clone());
                assert(names(xs@) =~= seq![x@]);
                l.collect_variables(&mut xs);
                e.collect_variables(&mut xs);
                use_all(m, &xs)
            },
            Statement::Call(_, args) | Statement::Uncall(_, args) => use_all(m, args),
            Statement::Skip | Statement::Print(_) => Ok(()),
            Statement::IfThenElse(e, sl, sr) => {
                let xs = e.variables();
                match use_all(m, &xs) {
                    Err(err) => return Err(err),
                    Ok(()) => {},
                }
                let mut cloned = clone_entries(m);
                match sl.check_mut(&mut cloned) {
                    Err(err) => return Err(err),
                    Ok(()) => {},
                }
                match sr.check_mut(m) {
                    Err(err) => return Err(err),
                    Ok(()) => {},
                }
                merge_into(m, &cloned);
                Ok(())
            },
            Statement::For(f) => {
                let snapshot = clone_entries(m);
                match use_loop_containers(m, &f.containers) {
                    Err(err) => return Err(err),
                    Ok(()) => {},
                }
                mark_all_used(m);
                bind_loop_packs(m, &f.vars, &f.containers);
                match f.statement.check_mut(m) {
                    Err(err) => return Err(err),
                    Ok(()) => {},
                }
                *m = snapshot;
                Ok(())
            },
            Statement::Sequence(l, r) => {
                match l.check_mut(m) {
                    Err(err) => return Err(err),
                    Ok(()) => {},
                }
                r.check_mut(m)
            },
            _ => Err(CheckError::NotInvolutive),
        }
    }
}

/// The first argument that repeats an earlier one.
fn repeated_argument(xs: &Vec<Variable>) -> (r: Option<Variable>)
    ensures
        match first_repeat(names(xs@)) {
            Some(x) => r matches Some(v) && v@ == x,
            None => r is None,
        },
{
    let ghost ns = names(xs@);
    let mut i: usize = 0;
    while i < xs.len()
        invariant
            i <= xs.len(),
            ns == names(xs@),
            first_repeat(ns.take(i as int)) is None,
        decreases xs.len() - i,
    {
        assert(ns.take(i + 1).drop_last() =~= ns.take(i as int));
        let mut j: usize = 0;
        while j < i
            invariant
                j <= i < xs.len(),
                ns == names(xs@),
                first_repeat(ns.take(i as int)) is None,
                forall|k: int| 0 <= k < j ==> ns[k] != ns[i as int],
            decreases i - j,
        {
            if xs[j] == xs[i] {
                proof {
                    assert(ns.take(i + 1).drop_last() =~= ns.take(i as int));
                    assert(ns[j as int] == xs@[j as int]@);
                    assert(ns[i as int] == xs@[i as int]@);
                    assert(ns.take(i + 1).drop_last()[j as int] == ns.take(i + 1).last());
                    assert(ns.take(i + 1).drop_last().contains(ns.take(i + 1).last()));
                    lemma_first_repeat_some(ns, i + 1);
                }
                return Some(xs[i].clone());
            }
            j = j + 1;
        }
        assert(!ns.take(i + 1).drop_last().contains(ns.take(i + 1).last())) by {
            assert forall|k: int| 0 <= k < i implies #[trigger] ns.take(i + 1).drop_last()[k] != ns.take(i + 1).last() by {
                assert(ns.take(i + 1).drop_last()[k] == ns[k]);
            }
        }
        i = i + 1;
    }
    assert(ns.take(i as int) =~= ns);
    None
}

/// Whether an executable outcome matches an optional specified error.
pub open spec fn agrees_opt(r: Result<(), CheckError>, want: Option<CheckErrorV>) -> bool {
    match want {
        None => r is Ok,
        Some(e) => match r {
            Err(e2) => e2@ == e,
            Ok(_) => false,
        },
    }
}

/// Rejects a mutation whose right-hand side reads its own target, and a
/// call or uncall that passes one variable twice.
fn check_dup(s: &Statement) -> (r: Result<(), CheckError>)
    ensures
        agrees_opt(r, dup_error(s@)),
    decreases s,
{
    match s {
        Statement::Mut(x, _, e) | Statement::IndexedMut(x, _, _, e) => {
            if e.has_variable(x) {
                Err(CheckError::SelfReference(x.clone()))
            } else {
                Ok(())
            }
        },
        Statement::Call(_, xs) | Statement::Uncall(_, xs) => match repeated_argument(xs) {
            Some(x) => Err(CheckError::RepeatedArgument(x)),
            None => Ok(()),
        },
        Statement::IfThenElseFi(_, l, r, _)
        | Statement::FromDoLoopUntil(_, l, r, _)
        | Statement::IfThenElse(_, l, r)
        | Statement::Sequence(l, r) => {
            match check_dup(l) {
                Err(e) => return Err(e),
                Ok(()) => {},
            }
            check_dup(r)
        },
        Statement::LocalDelocal(_, _, b, _, _) => check_dup(b),
        Statement::For(f) => check_dup(&f.statement),
        _ => Ok(()),
    }
}

// ---------------------------------------------------------------------
// Programs
// ---------------------------------------------------------------------
/// The procedure table of a program: each name with its class, `true`
/// for an injective procedure.
#[derive(Debug)]
pub struct Checker {
    proc_types: Vec<(ProcId, bool)>,
}

pub open spec fn table_view(t: Seq<(ProcId, bool)>) -> Seq<(Seq<char>, bool)> {
    t.map_values(|p: (ProcId, bool)| (p.0@, p.1))
}

/// The names and classes of the procedures of a program.
pub open spec fn proc_entries(ps: Seq<Proc>) -> Seq<(Seq<char>, bool)> {
    ps.map_values(|q: Proc| proc_entry(q))
}

fn find_proc(t: &Vec<(ProcId, bool)>, q: &ProcId) -> (r: Option<usize>)
    ensures
        match r {
            Some(i) => i as int == find(table_view(t@), q@) && i < t.len(),
            None => find(table_view(t@), q@) < 0,
        },
{
    let mut i: usize = 0;
    while i < t.len()
        invariant
            i <= t.len(),
            forall|j: int| 0 <= j < i ==> table_view(t@)[j].0 != q@,
        decreases t.len() - i,
    {
        if t[i].0 == *q {
            proof {
                lemma_find_first(table_view(t@), q@, i as int);
            }
            return Some(i);
        }
        i = i + 1;
    }
    proof {
        lemma_find_first(table_view(t@), q@, i as int);
    }
    None
}

impl Proc {
    fn proc_id(&self) -> (r: &ProcId)
        ensures
            *r == self.id(),
    {
        match self {
            Proc::Inj(q, _, _) => q,
            Proc::Invl(q, _, _, _) => q,
            Proc::Mat(q, _) => q,
        }
    }
}

impl Checker {
    pub closed spec fn table(&self) -> Seq<(Seq<char>, bool)> {
        table_view(self.proc_types@)
    }

    /// Checks a program: on success every rule holds; otherwise the
    /// first violation found, in the order of the analyses.
    pub fn check(program: &Program) -> (r: Result<(), CheckError>)
        ensures
            outcome_view(r) == program_result(*program),
    {
        match Checker::new(program) {
            Err(e) => Err(e),
            Ok(c) => c.check_program(program),
        }
    }

    /// Builds the procedure table, rejecting a repeated name.
    fn new(program: &Program) -> (r: Result<Checker, CheckError>)
        ensures
            match proc_table(proc_entries(program.1@)) {
                Ok(t) => r matches Ok(c) && c.table() == t,
                Err(e) => r matches Err(e2) && e2@ == e,
            },
    {
        let procs = &program.1;
        let ghost es = proc_entries(procs@);
        let mut proc_types: Vec<(ProcId, bool)> = Vec::new();
        let mut k: usize = 0;
        assert(es.take(0) =~= Seq::<(Seq<char>, bool)>::empty());
        assert(table_view(proc_types@) =~= Seq::<(Seq<char>, bool)>::empty());
        while k < procs.len()
            invariant
                k <= procs.len(),
                procs == &program.1,
                es == proc_entries(procs@),
                proc_table(es.take(k as int)) == Ok::<Seq<(Seq<char>, bool)>, CheckErrorV>(
                    table_view(proc_types@),
                ),
            decreases procs.len() - k,
        {
            assert(es.take(k + 1).drop_last() =~= es.take(k as int));
            assert(es.take(k + 1).last() == proc_entry(procs@[k as int]));
            let p = &procs[k];
            let id = p.proc_id();
            if find_proc(&proc_types, id).is_some() {
                proof {
                    lemma_proc_table_err(es, k + 1);
                }
                return Err(CheckError::DuplicateProc(id.clone()));
            }
            let is_inj = match p {
                Proc::Inj(_, _, _) => true,
                _ => false,
            };
            let ghost before = table_view(proc_types@);
            proc_types.push((id.clone(), is_inj));
            assert(table_view(proc_types@) =~= before.push(proc_entry(*p)));
            k = k + 1;
        }
        assert(es.take(k as int) =~= es);
        Ok(Checker { proc_types })
    }

    /// Checks that `id` names an involutive or matrix procedure.
    fn assert_invl(&self, id: &ProcId) -> (r: Result<(), CheckError>)
        ensures
            agrees_opt(r, call_class_error(self.table(), id@)),
    {
        match find_proc(&self.proc_types, id) {
            None => Err(CheckError::UndefinedProc(id.clone())),
            Some(i) => {
                if self.proc_types[i].1 {
                    Err(CheckError::InjectiveInInvolution(id.clone()))
                } else {
                    Ok(())
                }
            },
        }
    }

    /// Rejects a call or uncall, in the involution body `invl`, of an
    /// undefined or injective procedure.
    fn ban_inj_call(&self, invl: &Statement) -> (r: Result<(), CheckError>)
        ensures
            agrees_opt(r, class_error(self.table(), invl@)),
        decreases invl,
    {
        match invl {
            Statement::Call(id, _) | Statement::Uncall(id, _) => self.assert_invl(id),
            Statement::For(f) => self.ban_inj_call(&f.statement),
            Statement::IfThenElse(_, l, r) | Statement::Sequence(l, r) => {
                match self.ban_inj_call(l) {
                    Err(e) => return Err(e),
                    Ok(()) => {},
                }
                self.ban_inj_call(r)
            },
            _ => Ok(()),
        }
    }

    /// The checks of a body with an involution part.
    fn check_invl_body(
        &self,
        mutables: &mut Vec<(Variable, bool)>,
        fwd: &Statement,
        invl: &Statement,
    ) -> (r: Result<(), CheckError>)
        ensures
            outcome_view(r) == (match class_error(self.table(), invl@) {
                Some(e) => Err(e),
                None => match dup_error(fwd@) {
                    Some(e) => Err(e),
                    None => match dup_error(invl@) {
                        Some(e) => Err(e),
                        None => match linear(invl@, entries_view(old(mutables)@)) {
                            Ok(_) => Ok(()),
                            Err(e) => Err(e),
                        },
                    },
                },
            }),
    {
        match self.ban_inj_call(invl) {
            Err(e) => return Err(e),
            Ok(()) => {},
        }
        match check_dup(fwd) {
            Err(e) => return Err(e),
            Ok(()) => {},
        }
        match check_dup(invl) {
            Err(e) => return Err(e),
            Ok(()) => {},
        }
        invl.check_mut(mutables)
    }

    fn check_main(&self, main: &MainProc) -> (r: Result<(), CheckError>)
        ensures
            outcome_view(r) == invl_body_result(self.table(), main_decls(*main), main.1@, main.2@),
    {
        let decls = &main.0;
        let ghost dv = main_decls(*main);
        let mut mutables: Vec<(Variable, bool)> = Vec::new();
        let mut k: usize = 0;
        assert(entries_view(mutables@) =~= seed(dv.take(0)));
        while k < decls.len()
            invariant
                k <= decls.len(),
                decls == &main.0,
                dv == main_decls(*main),
                entries_view(mutables@) == seed(dv.take(k as int)),
            decreases decls.len() - k,
        {
            assert(dv.take(k + 1).drop_last() =~= dv.take(k as int));
            assert(dv.take(k + 1).last() == decls@[k as int].0@);
            let tv = &decls[k].0;
            if !tv.0.is_const {
                bind_variable(&mut mutables, &tv.1);
            }
            k = k + 1;
        }
        assert(dv.take(k as int) =~= dv);
        self.check_invl_body(&mut mutables, &main.1, &main.2)
    }

    fn check_proc(&self, proc: &Proc) -> (r: Result<(), CheckError>)
        ensures
            outcome_view(r) == proc_result(self.table(), *proc),
    {
        match proc {
            Proc::Invl(_, ps, fwd, invl) => {
                let ghost pv = params(ps@);
                let mut mutables: Vec<(Variable, bool)> = Vec::new();
                let mut k: usize = 0;
                assert(entries_view(mutables@) =~= seed(pv.take(0)));
                while k < ps.len()
                    invariant
                        k <= ps.len(),
                        pv == params(ps@),
                        entries_view(mutables@) == seed(pv.take(k as int)),
                    decreases ps.len() - k,
                {
                    assert(pv.take(k + 1).drop_last() =~= pv.take(k as int));
                    assert(pv.take(k + 1).last() == ps@[k as int]@);
                    let tv = &ps[k];
                    if !tv.0.is_const {
                        bind_variable(&mut mutables, &tv.1);
                    }
                    k = k + 1;
                }
                assert(pv.take(k as int) =~= pv);
                self.check_invl_body(&mut mutables, fwd, invl)
            },
            Proc::Inj(_, _, s) => check_dup(s),
            Proc::Mat(_, _) => Ok(()),
        }
    }

    fn check_program(&self, program: &Program) -> (r: Result<(), CheckError>)
        ensures
            outcome_view(r) == (match invl_body_result(
                self.table(),
                main_decls(program.0),
                program.0.1@,
                program.0.2@,
            ) {
                Err(e) => Err(e),
                Ok(()) => procs_result(self.table(), program.1@),
            }),
    {
        match self.check_main(&program.0) {
            Err(e) => return Err(e),
            Ok(()) => {},
        }
        self.check_procs(&program.1)
    }

    fn check_procs(&self, procs: &Vec<Proc>) -> (r: Result<(), CheckError>)
        ensures
            outcome_view(r) == procs_result(self.table(), procs@),
    {
        let ghost t = self.table();
        let mut k: usize = 0;
        while k < procs.len()
            invariant
                k <= procs.len(),
                t == self.table(),
                procs_result(t, procs@.take(k as int)) == Ok::<(), CheckErrorV>(()),
            decreases procs.len() - k,
        {
            assert(procs@.take(k + 1).drop_last() =~= procs@.take(k as int));
            assert(procs@.take(k + 1).last() == procs@[k as int]);
            let r = self.check_proc(&procs[k]);
            match r {
                Err(e) => {
                    proof {
                        lemma_procs_result_err(t, procs@, k + 1);
                    }
                    return Err(e);
                },
                Ok(()) => {},
            }
            k = k + 1;
        }
        assert(procs@.take(k as int) =~= procs@);
        Ok(())
    }
}

} // verus!
