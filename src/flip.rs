//! The syntactic inverse of a statement.
use crate::ast::{clone_vars, MutOp, Statement, StmtV};
use vstd::prelude::*;

verus! {

/// The operator that undoes `op`.
pub open spec fn inverse_op(op: MutOp) -> MutOp {
    match op {
        MutOp::Add => MutOp::Sub,
        MutOp::Sub => MutOp::Add,
        MutOp::Xor => MutOp::Xor,
        MutOp::Swap => MutOp::Swap,
    }
}

/// Whether `s` lies in the subset that inversion is defined on: it holds
/// no plain two-armed conditional and no for-loop.
pub open spec fn invertible(s: StmtV) -> bool
    decreases s,
{
    match s {
        StmtV::For(_, _, _) => false,
        StmtV::IfThenElse(_, _, _) => false,
        StmtV::IfThenElseFi(_, l, r, _) => invertible(*l) && invertible(*r),
        StmtV::FromDoLoopUntil(_, l, r, _) => invertible(*l) && invertible(*r),
        StmtV::LocalDelocal(_, _, b, _, _) => invertible(*b),
        StmtV::Sequence(l, r) => invertible(*l) && invertible(*r),
        _ => true,
    }
}

/// The inverse of a statement of the invertible subset.
pub open spec fn inverse(s: StmtV) -> StmtV
    decreases s,
{
    match s {
        StmtV::Mut(x, op, e) => StmtV::Mut(x, inverse_op(op), e),
        StmtV::IndexedMut(x, i, op, e) => StmtV::IndexedMut(x, i, inverse_op(op), e),
        StmtV::IfThenElseFi(el, sl, sr, er) => StmtV::IfThenElseFi(
            er,
            Box::new(inverse(*sl)),
            Box::new(inverse(*sr)),
            el,
        ),
        StmtV::FromDoLoopUntil(el, sl, sr, er) => StmtV::FromDoLoopUntil(
            er,
            Box::new(inverse(*sl)),
            Box::new(inverse(*sr)),
            el,
        ),
        StmtV::PushFront(l, r) => StmtV::PopFront(l, r),
        StmtV::PushBack(l, r) => StmtV::PopBack(l, r),
        StmtV::PopFront(l, r) => StmtV::PushFront(l, r),
        StmtV::PopBack(l, r) => StmtV::PushBack(l, r),
        StmtV::LocalDelocal(tl, el, b, tr, er) => StmtV::LocalDelocal(
            tr,
            er,
            Box::new(inverse(*b)),
            tl,
            el,
        ),
        StmtV::Call(q, args) => StmtV::Uncall(q, args),
        StmtV::Uncall(q, args) => StmtV::Call(q, args),
        StmtV::Sequence(l, r) => StmtV::Sequence(Box::new(inverse(*r)), Box::new(inverse(*l))),
        _ => s,
    }
}

/// Inverting twice gives back the statement: the inverse of any statement
/// of the invertible subset is in that subset too, and its inverse is the
/// statement itself.
pub proof fn lemma_flip_involution(s: StmtV)
    requires
        invertible(s),
    ensures
        invertible(inverse(s)),
        inverse(inverse(s)) == s,
    decreases s,
{
    match s {
        StmtV::IfThenElseFi(_, l, r, _) => {
            lemma_flip_involution(*l);
            lemma_flip_involution(*r);
        },
        StmtV::FromDoLoopUntil(_, l, r, _) => {
            lemma_flip_involution(*l);
            lemma_flip_involution(*r);
        },
        StmtV::LocalDelocal(_, _, b, _, _) => {
            lemma_flip_involution(*b);
        },
        StmtV::Sequence(l, r) => {
            lemma_flip_involution(*l);
            lemma_flip_involution(*r);
        },
        StmtV::Mut(_, op, _) => {
            assert(inverse_op(inverse_op(op)) == op);
        },
        StmtV::IndexedMut(_, _, op, _) => {
            assert(inverse_op(inverse_op(op)) == op);
        },
        _ => {},
    }
}

impl MutOp {
    /// The operator that undoes this one.
    pub fn flip(&self) -> (r: MutOp)
        ensures
            r == inverse_op(*self),
    {
        match self {
            MutOp::Add => MutOp::Sub,
            MutOp::Sub => MutOp::Add,
            MutOp::Xor => MutOp::Xor,
            MutOp::Swap => MutOp::Swap,
        }
    }
}

impl Statement {
    /// The inverse of this statement; `None` where it holds a plain
    /// two-armed conditional or a for-loop, which have no inverse.
    pub fn flip(&self) -> (r: Option<Statement>)
        ensures
            r is Some <==> invertible(self@),
            r matches Some(t) ==> t@ == inverse(self@),
        decreases self,
    {
        match self {
            Statement::Mut(x, op, e) => Some(Statement::Mut(x.clone(), op.flip(), e.clone())),
            Statement::IndexedMut(x, i, op, e) => Some(
                Statement::IndexedMut(x.clone(), i.clone(), op.flip(), e.clone()),
            ),
            Statement::IfThenElseFi(el, sl, sr, er) => {
                let fl = match sl.flip() {
                    Some(t) => t,
                    None => return None,
                };
                let fr = match sr.flip() {
                    Some(t) => t,
                    None => return None,
                };
                Some(Statement::IfThenElseFi(er.clone(), Box::new(fl), Box::new(fr), el.clone()))
            },
            Statement::FromDoLoopUntil(el, sl, sr, er) => {
                let fl = match sl.flip() {
                    Some(t) => t,
                    None => return None,
                };
                let fr = match sr.flip() {
                    Some(t) => t,
                    None => return None,
                };
                Some(
                    Statement::FromDoLoopUntil(er.clone(), Box::new(fl), Box::new(fr), el.clone()),
                )
            },
            Statement::IndexedSwap(x, l, r) => Some(
                Statement::IndexedSwap(x.clone(), l.clone(), r.clone()),
            ),
            Statement::PushFront(l, r) => Some(Statement::PopFront(l.clone(), r.clone())),
            Statement::PushBack(l, r) => Some(Statement::PopBack(l.clone(), r.clone())),
            Statement::PopFront(l, r) => Some(Statement::PushFront(l.clone(), r.clone())),
            Statement::PopBack(l, r) => Some(Statement::PushBack(l.clone(), r.clone())),
            Statement::LocalDelocal(tl, el, b, tr, er) => {
                let fb = match b.flip() {
                    Some(t) => t,
                    None => return None,
                };
                Some(
                    Statement::LocalDelocal(
                        tr.clone(),
                        er.clone(),
                        Box::new(fb),
                        tl.clone(),
                        el.clone(),
                    ),
                )
            },
            Statement::Call(q, args) => Some(Statement::Uncall(q.clone(), clone_vars(args))),
            Statement::Uncall(q, args) => Some(Statement::Call(q.clone(), clone_vars(args))),
            Statement::Skip => Some(Statement::Skip),
            Statement::Print(x) => Some(Statement::Print(x.clone())),
            Statement::For(_) => None,
            Statement::IfThenElse(_, _, _) => None,
            Statement::Sequence(l, r) => {
                let fl = match l.flip() {
                    Some(t) => t,
                    None => return None,
                };
                let fr = match r.flip() {
                    Some(t) => t,
                    None => return None,
                };
                Some(Statement::Sequence(Box::new(fr), Box::new(fl)))
            },
        }
    }
}

} // verus!
