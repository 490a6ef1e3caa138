//! A meaning for a fragment of statements, on integer and list bindings,
//! and the law that running a statement and then its inverse restores them.
use crate::ast::{BinOp, ExprV, MutOp, OperandV, StmtV, UnrOp};
use crate::checker::expr_vars;
use crate::flip::inverse;
use vstd::prelude::*;

verus! {

/// Integer values of variables.
pub type Bindings = Map<Seq<char>, int>;

/// The values of integer variables and of list variables.
pub struct State {
    pub ints: Bindings,
    pub lists: Map<Seq<char>, Seq<int>>,
}

pub open spec fn truth(b: bool) -> int {
    if b {
        1
    } else {
        0
    }
}

/// The value of an expression over integer bindings. Forms that read
/// containers have no integer value here and count as 0.
pub open spec fn eval(e: ExprV, st: Bindings) -> int
    decreases e,
{
    match e {
        ExprV::Const(n) => n as int,
        ExprV::Variable(x) => st[x],
        ExprV::BinOp(l, op, r) => {
            let a = eval(*l, st);
            let b = eval(*r, st);
            match op {
                BinOp::Add => a + b,
                BinOp::Sub => a - b,
                BinOp::Mul => a * b,
                BinOp::LogicalAnd => truth(a != 0 && b != 0),
                BinOp::LogicalOr => truth(a != 0 || b != 0),
                BinOp::LessThan => truth(a < b),
                BinOp::GreaterThan => truth(a > b),
                BinOp::Equal => truth(a == b),
                BinOp::NotEqual => truth(a != b),
                BinOp::LessEqual => truth(a <= b),
                BinOp::GreaterEqual => truth(a >= b),
                _ => 0,
            }
        },
        ExprV::UnrOp(UnrOp::Negative, x) => -eval(*x, st),
        ExprV::UnrOp(UnrOp::Not, x) => truth(eval(*x, st) == 0),
        ExprV::Wrapped(x) => eval(*x, st),
        _ => 0,
    }
}

/// The statements given a meaning here: additions and subtractions whose
/// right-hand side does not read their target, swaps of two distinct
/// variables, pushes and pops at either end of a list, local blocks whose
/// two sides agree and whose values do not read the local, skip, print,
/// sequences and assertion-guarded conditionals. Xor has no meaning on
/// mathematical integers, and a call needs the procedures' bodies, so
/// neither is given one here.
pub open spec fn in_fragment(s: StmtV) -> bool
    decreases s,
{
    match s {
        StmtV::Mut(x, MutOp::Add, e) => !expr_vars(e).contains(x),
        StmtV::Mut(x, MutOp::Sub, e) => !expr_vars(e).contains(x),
        StmtV::Mut(x, MutOp::Swap, ExprV::Variable(y)) => x != y,
        StmtV::PushFront(_, _) => true,
        StmtV::PushBack(_, _) => true,
        StmtV::PopFront(_, _) => true,
        StmtV::PopBack(_, _) => true,
        StmtV::Skip => true,
        StmtV::Print(_) => true,
        StmtV::Sequence(l, r) => in_fragment(*l) && in_fragment(*r),
        StmtV::IfThenElseFi(_, l, r, _) => in_fragment(*l) && in_fragment(*r),
        StmtV::LocalDelocal(tl, el, b, tr, er) => tl == tr && !expr_vars(el).contains(tl.1)
            && !expr_vars(er).contains(tl.1) && in_fragment(*b),
        _ => false,
    }
}

/// Whether `o` names a bound integer variable, if it names one.
pub open spec fn operand_bound(ints: Set<Seq<char>>, o: OperandV) -> bool {
    match o {
        OperandV::Variable(x) => ints.contains(x),
        OperandV::Literal(_) => true,
    }
}

/// Whether every variable that `s` writes has a binding: integers in
/// `ints`, lists in `lists`.
pub open spec fn binds(ints: Set<Seq<char>>, lists: Set<Seq<char>>, s: StmtV) -> bool
    decreases s,
{
    match s {
        StmtV::Mut(x, MutOp::Swap, ExprV::Variable(y)) => ints.contains(x) && ints.contains(y),
        StmtV::Mut(x, _, _) => ints.contains(x),
        StmtV::PushFront(o, l) => operand_bound(ints, o) && lists.contains(l),
        StmtV::PushBack(o, l) => operand_bound(ints, o) && lists.contains(l),
        StmtV::PopFront(o, l) => operand_bound(ints, o) && lists.contains(l),
        StmtV::PopBack(o, l) => operand_bound(ints, o) && lists.contains(l),
        StmtV::Sequence(l, r) => binds(ints, lists, *l) && binds(ints, lists, *r),
        StmtV::IfThenElseFi(_, l, r, _) => binds(ints, lists, *l) && binds(ints, lists, *r),
        StmtV::LocalDelocal(tl, _, b, _, _) => binds(ints.insert(tl.1), lists, *b),
        _ => true,
    }
}

/// A push at the front (`front`) or back of list `l`: a literal is pushed;
/// a variable's value is moved onto the list, and the variable is zeroed.
pub open spec fn push(st: State, o: OperandV, l: Seq<char>, front: bool) -> State {
    let v = match o {
        OperandV::Literal(n) => n as int,
        OperandV::Variable(x) => st.ints[x],
    };
    State {
        ints: match o {
            OperandV::Literal(_) => st.ints,
            OperandV::Variable(x) => st.ints.insert(x, 0),
        },
        lists: st.lists.insert(
            l,
            if front {
                seq![v] + st.lists[l]
            } else {
                st.lists[l].push(v)
            },
        ),
    }
}

/// A pop at the front (`front`) or back of list `l`: the list must not be
/// empty; a literal must equal the item popped; a variable must be zero,
/// and receives the item.
pub open spec fn pop(st: State, o: OperandV, l: Seq<char>, front: bool) -> Option<State> {
    let items = st.lists[l];
    if items.len() == 0 {
        None
    } else {
        let v = if front {
            items[0]
        } else {
            items.last()
        };
        let rest = if front {
            items.drop_first()
        } else {
            items.drop_last()
        };
        match o {
            OperandV::Literal(n) => if v == n as int {
                Some(State { ints: st.ints, lists: st.lists.insert(l, rest) })
            } else {
                None
            },
            OperandV::Variable(x) => if st.ints[x] == 0 {
                Some(State { ints: st.ints.insert(x, v), lists: st.lists.insert(l, rest) })
            } else {
                None
            },
        }
    }
}

/// The state after running `s` from `st`; `None` where an assertion
/// fails or `s` lies outside the fragment. A local block binds its
/// variable, unbound before, to the entry value, runs its body, checks the
/// exit value, and unbinds the variable.
pub open spec fn run(s: StmtV, st: State) -> Option<State>
    decreases s,
{
    match s {
        StmtV::Mut(x, MutOp::Add, e) => Some(
            State { ints: st.ints.insert(x, st.ints[x] + eval(e, st.ints)), lists: st.lists },
        ),
        StmtV::Mut(x, MutOp::Sub, e) => Some(
            State { ints: st.ints.insert(x, st.ints[x] - eval(e, st.ints)), lists: st.lists },
        ),
        StmtV::Mut(x, MutOp::Swap, ExprV::Variable(y)) => Some(
            State { ints: st.ints.insert(x, st.ints[y]).insert(y, st.ints[x]), lists: st.lists },
        ),
        StmtV::PushFront(o, l) => Some(push(st, o, l, true)),
        StmtV::PushBack(o, l) => Some(push(st, o, l, false)),
        StmtV::PopFront(o, l) => pop(st, o, l, true),
        StmtV::PopBack(o, l) => pop(st, o, l, false),
        StmtV::Skip => Some(st),
        StmtV::Print(_) => Some(st),
        StmtV::LocalDelocal(tl, el, b, tr, er) => if st.ints.contains_key(tl.1) || tl != tr {
            None
        } else {
            match run(
                *b,
                State { ints: st.ints.insert(tl.1, eval(el, st.ints)), lists: st.lists },
            ) {
                Some(m) => if m.ints.contains_key(tr.1) && m.ints[tr.1] == eval(er, m.ints) {
                    Some(State { ints: m.ints.remove(tr.1), lists: m.lists })
                } else {
                    None
                },
                None => None,
            }
        },
        StmtV::Sequence(l, r) => match run(*l, st) {
            Some(m) => run(*r, m),
            None => None,
        },
        StmtV::IfThenElseFi(el, sl, sr, er) => if eval(el, st.ints) != 0 {
            match run(*sl, st) {
                Some(m) => if eval(er, m.ints) != 0 {
                    Some(m)
                } else {
                    None
                },
                None => None,
            }
        } else {
            match run(*sr, st) {
                Some(m) => if eval(er, m.ints) == 0 {
                    Some(m)
                } else {
                    None
                },
                None => None,
            }
        },
        _ => None,
    }
}

proof fn lemma_eval_frame(e: ExprV, st: Bindings, x: Seq<char>, v: int)
    requires
        !expr_vars(e).contains(x),
    ensures
        eval(e, st.insert(x, v)) == eval(e, st),
    decreases e,
{
    match e {
        ExprV::Variable(y) => {
            assert(expr_vars(e)[0] == y);
        },
        ExprV::BinOp(l, _, r) => {
            assert forall|z: Seq<char>| expr_vars(*l).contains(z) implies expr_vars(e).contains(z) by {
                let i = choose|i: int| 0 <= i < expr_vars(*l).len() && expr_vars(*l)[i] == z;
                assert(expr_vars(e)[i] == z);
            }
            assert forall|z: Seq<char>| expr_vars(*r).contains(z) implies expr_vars(e).contains(z) by {
                let i = choose|i: int| 0 <= i < expr_vars(*r).len() && expr_vars(*r)[i] == z;
                assert(expr_vars(e)[expr_vars(*l).len() + i] == z);
            }
            lemma_eval_frame(*l, st, x, v);
            lemma_eval_frame(*r, st, x, v);
        },
        ExprV::UnrOp(_, y) => {
            lemma_eval_frame(*y, st, x, v);
        },
        ExprV::Wrapped(y) => {
            lemma_eval_frame(*y, st, x, v);
        },
        _ => {},
    }
}

proof fn lemma_run_dom(s: StmtV, st: State)
    requires
        binds(st.ints.dom(), st.lists.dom(), s),
        run(s, st) is Some,
    ensures
        run(s, st)->0.ints.dom() == st.ints.dom(),
        run(s, st)->0.lists.dom() == st.lists.dom(),
    decreases s,
{
    match s {
        StmtV::Sequence(l, r) => {
            lemma_run_dom(*l, st);
            lemma_run_dom(*r, run(*l, st)->0);
        },
        StmtV::IfThenElseFi(el, sl, sr, er) => {
            if eval(el, st.ints) != 0 {
                lemma_run_dom(*sl, st);
            } else {
                lemma_run_dom(*sr, st);
            }
        },
        StmtV::LocalDelocal(tl, el, b, tr, er) => {
            let x = tl.1;
            let s1 = State { ints: st.ints.insert(x, eval(el, st.ints)), lists: st.lists };
            assert(s1.ints.dom() =~= st.ints.dom().insert(x));
            lemma_run_dom(*b, s1);
            assert(run(s, st)->0.ints.dom() =~= st.ints.dom());
            assert(run(s, st)->0.lists.dom() =~= st.lists.dom());
        },
        _ => {
            assert(run(s, st)->0.ints.dom() =~= st.ints.dom());
            assert(run(s, st)->0.lists.dom() =~= st.lists.dom());
        },
    }
}

/// Running a statement of the fragment and then its inverse gives back
/// the state it started from, whenever the first run succeeds (every
/// assertion holds, every pop finds its item, and every local block is
/// entered with its variable unbound and left with its exit value) and
/// every variable it writes is bound.
pub proof fn lemma_semantic_inverse(s: StmtV, st: State)
    requires
        in_fragment(s),
        binds(st.ints.dom(), st.lists.dom(), s),
        run(s, st) is Some,
    ensures
        run(inverse(s), run(s, st)->0) == Some(st),
    decreases s,
{
    let m = run(s, st)->0;
    match s {
        StmtV::Mut(x, op, e) => {
            match op {
                MutOp::Add => {
                    lemma_eval_frame(e, st.ints, x, st.ints[x] + eval(e, st.ints));
                    assert(m.ints.insert(x, m.ints[x] - eval(e, m.ints)) =~= st.ints);
                },
                MutOp::Sub => {
                    lemma_eval_frame(e, st.ints, x, st.ints[x] - eval(e, st.ints));
                    assert(m.ints.insert(x, m.ints[x] + eval(e, m.ints)) =~= st.ints);
                },
                _ => {
                    let y = e->Variable_0;
                    assert(m.ints.insert(x, m.ints[y]).insert(y, m.ints[x]) =~= st.ints);
                },
            }
            assert(m.lists =~= st.lists);
        },
        StmtV::PushFront(o, l) => {
            lemma_push_pop(st, o, l, true);
        },
        StmtV::PushBack(o, l) => {
            lemma_push_pop(st, o, l, false);
        },
        StmtV::PopFront(o, l) => {
            lemma_pop_push(st, o, l, true);
        },
        StmtV::PopBack(o, l) => {
            lemma_pop_push(st, o, l, false);
        },
        StmtV::Sequence(l, r) => {
            let m1 = run(*l, st)->0;
            lemma_run_dom(*l, st);
            lemma_semantic_inverse(*l, st);
            lemma_semantic_inverse(*r, m1);
        },
        StmtV::IfThenElseFi(el, sl, sr, er) => {
            if eval(el, st.ints) != 0 {
                lemma_semantic_inverse(*sl, st);
            } else {
                lemma_semantic_inverse(*sr, st);
            }
        },
        StmtV::LocalDelocal(tl, el, b, tr, er) => {
            let x = tl.1;
            let v1 = eval(el, st.ints);
            let s1 = State { ints: st.ints.insert(x, v1), lists: st.lists };
            assert(s1.ints.dom() =~= st.ints.dom().insert(x));
            let m1 = run(*b, s1)->0;
            lemma_run_dom(*b, s1);
            let v2 = m1.ints[x];
            assert(m.ints =~= m1.ints.remove(x));
            assert(!m.ints.contains_key(x));
            assert(m.ints.insert(x, v2) =~= m1.ints);
            lemma_eval_frame(er, m.ints, x, v2);
            let s2 = State { ints: m.ints.insert(x, eval(er, m.ints)), lists: m.lists };
            assert(s2 == m1);
            lemma_semantic_inverse(*b, s1);
            lemma_eval_frame(el, st.ints, x, v1);
            assert(s1.ints.contains_key(x) && s1.ints[x] == eval(el, s1.ints));
            assert(s1.ints.remove(x) =~= st.ints);
        },
        _ => {},
    }
}

proof fn lemma_push_pop(st: State, o: OperandV, l: Seq<char>, front: bool)
    requires
        operand_bound(st.ints.dom(), o),
        st.lists.dom().contains(l),
    ensures
        pop(push(st, o, l, front), o, l, front) == Some(st),
{
    let m = push(st, o, l, front);
    if front {
        assert((seq![m.lists[l][0]] + st.lists[l]).drop_first() =~= st.lists[l]);
        assert(m.lists[l].drop_first() =~= st.lists[l]);
    } else {
        assert(m.lists[l].drop_last() =~= st.lists[l]);
    }
    let r = pop(m, o, l, front)->0;
    assert(r.lists =~= st.lists);
    assert(r.ints =~= st.ints);
}

proof fn lemma_pop_push(st: State, o: OperandV, l: Seq<char>, front: bool)
    requires
        operand_bound(st.ints.dom(), o),
        st.lists.dom().contains(l),
        pop(st, o, l, front) is Some,
    ensures
        push(pop(st, o, l, front)->0, o, l, front) == st,
{
    let m = pop(st, o, l, front)->0;
    let items = st.lists[l];
    if front {
        assert(seq![items[0]] + items.drop_first() =~= items);
    } else {
        assert(items.drop_last().push(items.last()) =~= items);
    }
    let r = push(m, o, l, front);
    assert(r.lists =~= st.lists);
    assert(r.ints =~= st.ints);
}

} // verus!
