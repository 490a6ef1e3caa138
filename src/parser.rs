//! A recursive-descent parser from tokens to a program, with precedence
//! climbing for binary operators.
use crate::ast::{
    OperandV, exprs_view, BinOp, Direction, Expr, ExprV, InnerType, MainProc, MutOp, Proc,
    ProcId, Program, Statement, StmtV, stmt_view, names, container_view, Type, TypedVariable, UnrOp, Variable, VariableOrLiteral, For,
};
use crate::mat::{is_involutory, sq, InvlMat, MatError};
use crate::token::{binop_symbol, prec, token_binop, Symbol, Token, TokenV};
use vstd::prelude::*;

verus! {

/// Why a token sequence is not a program.
#[derive(Debug)]
pub enum ParseError {
    /// This token does not fit where it stands.
    UnexpectedToken(Token),
    /// The tokens ran out where more were needed.
    UnexpectedEnd,
    /// The two sides of a `local` / `delocal` pair declare different variables or types.
    LocalMismatch(TypedVariable, TypedVariable),
    /// A for-loop names this many packs of variables and this many containers.
    ForArity(usize, usize),
    /// An array size that is not a positive literal.
    InvalidArraySize(i32),
    /// The negation of this literal does not fit in an `i32`.
    LiteralOutOfRange(i32),
    /// A matrix procedure whose elements are not an involutory matrix.
    Matrix(MatError),
}

// ---------------------------------------------------------------------
// The tokens of an expression
// ---------------------------------------------------------------------
pub open spec fn sym(s: Symbol) -> TokenV {
    TokenV::Symbol(s)
}

/// The tokens that spell an expression.
pub open spec fn expr_tokens(e: ExprV) -> Seq<TokenV>
    decreases e,
{
    match e {
        ExprV::Const(n) => seq![TokenV::Literal(n)],
        ExprV::Variable(x) => seq![TokenV::Name(x)],
        ExprV::Array(es) => seq![sym(Symbol::LBracket)] + items_tokens(es) + seq![
            sym(Symbol::RBracket),
        ],
        ExprV::Indexed(x, i) => seq![TokenV::Name(x), sym(Symbol::LBracket)] + expr_tokens(*i)
            + seq![sym(Symbol::RBracket)],
        ExprV::BinOp(l, op, r) => expr_tokens(*l) + seq![sym(binop_symbol(op))] + expr_tokens(*r),
        ExprV::UnrOp(UnrOp::Negative, x) => seq![sym(Symbol::Minus)] + expr_tokens(*x),
        ExprV::UnrOp(UnrOp::Not, x) => seq![sym(Symbol::Exclamation)] + expr_tokens(*x),
        ExprV::Empty(x) => seq![
            sym(Symbol::Empty),
            sym(Symbol::LParen),
            TokenV::Name(x),
            sym(Symbol::RParen),
        ],
        ExprV::Size(x) => seq![
            sym(Symbol::Size),
            sym(Symbol::LParen),
            TokenV::Name(x),
            sym(Symbol::RParen),
        ],
        ExprV::Nil => seq![sym(Symbol::Nil)],
        ExprV::Wrapped(x) => seq![sym(Symbol::LParen)] + expr_tokens(*x) + seq![
            sym(Symbol::RParen),
        ],
    }
}

/// The tokens of array items, separated by commas.
pub open spec fn items_tokens(es: Seq<ExprV>) -> Seq<TokenV>
    decreases es,
{
    if es.len() == 0 {
        Seq::empty()
    } else if es.len() == 1 {
        expr_tokens(es[0])
    } else {
        items_tokens(es.drop_last()) + seq![sym(Symbol::Comma)] + expr_tokens(es.last())
    }
}

/// Whether the operator tree respects precedence and right associativity:
/// a binary operation's left operand binds tighter, its right operand at
/// least as tight, and a unary operand is no bare binary operation.
pub open spec fn prec_ok(e: ExprV) -> bool
    decreases e,
{
    match e {
        ExprV::BinOp(l, op, r) => prec_ok(*l) && prec_ok(*r) && (match *l {
            ExprV::BinOp(_, lop, _) => prec(lop) > prec(op),
            _ => true,
        }) && (match *r {
            ExprV::BinOp(_, rop, _) => prec(rop) >= prec(op),
            _ => true,
        }),
        ExprV::UnrOp(_, x) => prec_ok(*x) && !(*x is BinOp),
        ExprV::Indexed(_, x) => prec_ok(*x),
        ExprV::Wrapped(x) => prec_ok(*x),
        ExprV::Array(es) => items_prec_ok(es),
        _ => true,
    }
}

pub open spec fn items_prec_ok(es: Seq<ExprV>) -> bool
    decreases es,
{
    if es.len() == 0 {
        true
    } else {
        items_prec_ok(es.drop_last()) && prec_ok(es.last())
    }
}

/// The precedence of the operator at the root of `e`, or none for an operand.
pub open spec fn top_prec_at_least(e: ExprV, min_prec: int) -> bool {
    match e {
        ExprV::BinOp(_, op, _) => prec(op) >= min_prec,
        _ => true,
    }
}

/// Whether the token at `pos` is a binary operator of precedence at least `min_prec`.
pub open spec fn binop_at_least(ts: Seq<TokenV>, pos: int, min_prec: int) -> bool {
    0 <= pos < ts.len() && match token_binop(ts[pos]) {
        Some(op) => prec(op) >= min_prec,
        None => false,
    }
}

/// The tokens of names separated by commas.
pub open spec fn names_tokens(xs: Seq<Seq<char>>) -> Seq<TokenV>
    decreases xs.len(),
{
    if xs.len() == 0 {
        Seq::empty()
    } else if xs.len() == 1 {
        seq![TokenV::Name(xs[0])]
    } else {
        names_tokens(xs.drop_last()) + seq![sym(Symbol::Comma), TokenV::Name(xs.last())]
    }
}

/// Whether `t` spells the integer `v`: a literal, or a minus and a literal.
pub open spec fn literal_spelled(v: int, t: Seq<TokenV>) -> bool {
    (t.len() == 1 && t[0] is Literal && t[0]->Literal_0 as int == v) || (t.len() == 2 && t[0] == sym(
        Symbol::Minus,
    ) && t[1] is Literal && -(t[1]->Literal_0 as int) == v)
}

pub open spec fn inner_spelled(inner: InnerType, t: Seq<TokenV>) -> bool {
    match inner {
        InnerType::Int => t == seq![sym(Symbol::Int)],
        InnerType::List => t == seq![sym(Symbol::List)],
        InnerType::Array(n) => t.len() >= 3 && t[0] == sym(Symbol::Array) && t[1] == sym(
            Symbol::LAngleBracket,
        ) && t.last() == sym(Symbol::RAngleBracket) && literal_spelled(
            n as int,
            t.subrange(2, t.len() - 1),
        ),
    }
}

pub open spec fn type_spelled(ty: Type, t: Seq<TokenV>) -> bool {
    if ty.is_const {
        t.len() >= 1 && t[0] == sym(Symbol::Const) && inner_spelled(ty.inner, t.skip(1))
    } else {
        inner_spelled(ty.inner, t)
    }
}

/// Whether `t` spells a declaration: a type, then the name.
pub open spec fn decl_spelled(tv: (Type, Seq<char>), t: Seq<TokenV>) -> bool {
    t.len() >= 1 && t.last() == TokenV::Name(tv.1) && type_spelled(tv.0, t.drop_last())
}

pub open spec fn mut_symbol(op: MutOp) -> Symbol {
    match op {
        MutOp::Add => Symbol::PlusEqual,
        MutOp::Sub => Symbol::MinusEqual,
        MutOp::Xor => Symbol::CaretEqual,
        MutOp::Swap => Symbol::Spaceship,
    }
}

/// Whether `t` spells a pack of loop variables: one name, or names in brackets.
pub open spec fn pack_spelled(vs: Seq<Seq<char>>, t: Seq<TokenV>) -> bool {
    (vs.len() == 1 && t == seq![TokenV::Name(vs[0])]) || (vs.len() >= 1 && t == seq![
        sym(Symbol::LBracket),
    ] + names_tokens(vs) + seq![sym(Symbol::RBracket)])
}

/// The tokens of a container with its optional permutation index.
pub open spec fn container_tokens(c: (Seq<char>, Option<Seq<char>>)) -> Seq<TokenV> {
    match c.1 {
        None => seq![TokenV::Name(c.0)],
        Some(i) => seq![TokenV::Name(c.0), sym(Symbol::LBracket), TokenV::Name(i), sym(Symbol::RBracket)],
    }
}

/// The tokens of containers separated by commas.
pub open spec fn containers_tokens(cs: Seq<(Seq<char>, Option<Seq<char>>)>) -> Seq<TokenV>
    decreases cs.len(),
{
    if cs.len() == 0 {
        Seq::empty()
    } else if cs.len() == 1 {
        container_tokens(cs[0])
    } else {
        containers_tokens(cs.drop_last()) + seq![sym(Symbol::Comma)] + container_tokens(cs.last())
    }
}

/// Whether `t` spells packs of loop variables separated by commas.
pub open spec fn packs_spelled(vars: Seq<Seq<Seq<char>>>, t: Seq<TokenV>) -> bool
    decreases vars.len(),
{
    if vars.len() == 0 {
        false
    } else if vars.len() == 1 {
        pack_spelled(vars[0], t)
    } else {
        exists|u: Seq<TokenV>, w: Seq<TokenV>|
            #![trigger u + seq![sym(Symbol::Comma)] + w]
            packs_spelled(vars.drop_last(), u) && pack_spelled(vars.last(), w) && t == u + seq![
                sym(Symbol::Comma),
            ] + w
    }
}

/// Whether `t` spells the loop variables of a for-loop: one pack, or
/// packs in parentheses.
pub open spec fn loop_vars_spelled(vars: Seq<Seq<Seq<char>>>, t: Seq<TokenV>) -> bool {
    (vars.len() == 1 && pack_spelled(vars[0], t)) || (t.len() >= 2 && t[0] == sym(Symbol::LParen)
        && t.last() == sym(Symbol::RParen) && packs_spelled(vars, t.subrange(1, t.len() - 1)))
}

/// Whether `t` spells the containers of a for-loop: one container, or
/// containers in parentheses.
pub open spec fn loop_containers_spelled(cs: Seq<(Seq<char>, Option<Seq<char>>)>, t: Seq<TokenV>) -> bool {
    (cs.len() == 1 && t == container_tokens(cs[0])) || (cs.len() >= 1 && t == seq![
        sym(Symbol::LParen),
    ] + containers_tokens(cs) + seq![sym(Symbol::RParen)])
}

pub open spec fn operand_tokens(o: OperandV) -> Seq<TokenV> {
    match o {
        OperandV::Variable(x) => seq![TokenV::Name(x)],
        OperandV::Literal(n) => seq![TokenV::Literal(n)],
    }
}

pub open spec fn list_op_tokens(kw: Symbol, o: OperandV, r: Seq<char>) -> Seq<TokenV> {
    seq![sym(kw), sym(Symbol::LParen)] + operand_tokens(o) + seq![
        sym(Symbol::Comma),
        TokenV::Name(r),
        sym(Symbol::RParen),
    ]
}

pub open spec fn if_end_tokens(e: ExprV, a: Seq<TokenV>) -> Seq<TokenV> {
    seq![sym(Symbol::If)] + expr_tokens(e) + seq![sym(Symbol::Then)] + a + seq![sym(Symbol::End)]
}

pub open spec fn if_else_end_tokens(e: ExprV, a: Seq<TokenV>, b: Seq<TokenV>) -> Seq<TokenV> {
    seq![sym(Symbol::If)] + expr_tokens(e) + seq![sym(Symbol::Then)] + a + seq![sym(Symbol::Else)]
        + b + seq![sym(Symbol::End)]
}

pub open spec fn if_fi_tokens(el: ExprV, a: Seq<TokenV>, er: ExprV) -> Seq<TokenV> {
    seq![sym(Symbol::If)] + expr_tokens(el) + seq![sym(Symbol::Then)] + a + seq![sym(Symbol::Fi)]
        + expr_tokens(er)
}

pub open spec fn if_else_fi_tokens(el: ExprV, a: Seq<TokenV>, b: Seq<TokenV>, er: ExprV) -> Seq<
    TokenV,
> {
    seq![sym(Symbol::If)] + expr_tokens(el) + seq![sym(Symbol::Then)] + a + seq![sym(Symbol::Else)]
        + b + seq![sym(Symbol::Fi)] + expr_tokens(er)
}

pub open spec fn from_loop_tokens(el: ExprV, b: Seq<TokenV>, er: ExprV) -> Seq<TokenV> {
    seq![sym(Symbol::From)] + expr_tokens(el) + seq![sym(Symbol::Loop)] + b + seq![sym(Symbol::Until)]
        + expr_tokens(er)
}

pub open spec fn from_do_loop_tokens(el: ExprV, a: Seq<TokenV>, b: Seq<TokenV>, er: ExprV) -> Seq<
    TokenV,
> {
    seq![sym(Symbol::From)] + expr_tokens(el) + seq![sym(Symbol::Do)] + a + seq![sym(Symbol::Loop)]
        + b + seq![sym(Symbol::Until)] + expr_tokens(er)
}

pub open spec fn local_tokens(
    a: Seq<TokenV>,
    el: ExprV,
    c: Seq<TokenV>,
    d: Seq<TokenV>,
    er: ExprV,
) -> Seq<TokenV> {
    seq![sym(Symbol::Local)] + a + seq![sym(Symbol::Equal)] + expr_tokens(el) + c + seq![
        sym(Symbol::Delocal),
    ] + d + seq![sym(Symbol::Equal)] + expr_tokens(er)
}

pub open spec fn for_tokens(a: Seq<TokenV>, c: Seq<TokenV>, d: Seq<TokenV>) -> Seq<TokenV> {
    seq![sym(Symbol::For)] + a + seq![sym(Symbol::In)] + c + d + seq![sym(Symbol::End)]
}

/// Whether `t` spells `s`, read as a sequence of statements.
pub open spec fn spells(s: StmtV, t: Seq<TokenV>) -> bool
    decreases s,
{
    match s {
        StmtV::Sequence(l, r) => !(*l is Sequence) && exists|a: Seq<TokenV>, b: Seq<TokenV>|
            #![trigger a + b]
            spells(*l, a) && spells(*r, b) && t == a + b,
        StmtV::Mut(x, op, e) => t == seq![TokenV::Name(x), sym(mut_symbol(op))] + expr_tokens(e),
        StmtV::IndexedMut(x, i, op, e) => t == seq![TokenV::Name(x), sym(Symbol::LBracket)]
            + expr_tokens(i) + seq![sym(Symbol::RBracket), sym(mut_symbol(op))] + expr_tokens(e),
        StmtV::IfThenElse(e, sl, sr) => (*sr is Skip && exists|a: Seq<TokenV>|
            #![trigger if_end_tokens(e, a)]
            spells(*sl, a) && t == if_end_tokens(e, a)) || exists|a: Seq<TokenV>, b: Seq<TokenV>|
            #![trigger if_else_end_tokens(e, a, b)]
            spells(*sl, a) && spells(*sr, b) && t == if_else_end_tokens(e, a, b),
        StmtV::IfThenElseFi(el, sl, sr, er) => (*sr is Skip && exists|a: Seq<TokenV>|
            #![trigger if_fi_tokens(el, a, er)]
            spells(*sl, a) && t == if_fi_tokens(el, a, er)) || exists|
            a: Seq<TokenV>,
            b: Seq<TokenV>,
        |
            #![trigger if_else_fi_tokens(el, a, b, er)]
            spells(*sl, a) && spells(*sr, b) && t == if_else_fi_tokens(el, a, b, er),
        StmtV::FromDoLoopUntil(el, sl, sr, er) => (*sl is Skip && exists|b: Seq<TokenV>|
            #![trigger from_loop_tokens(el, b, er)]
            spells(*sr, b) && t == from_loop_tokens(el, b, er)) || exists|
            a: Seq<TokenV>,
            b: Seq<TokenV>,
        |
            #![trigger from_do_loop_tokens(el, a, b, er)]
            spells(*sl, a) && spells(*sr, b) && t == from_do_loop_tokens(el, a, b, er),
        StmtV::IndexedSwap(x, l, r) => t == seq![
            sym(Symbol::Swap),
            sym(Symbol::LParen),
            TokenV::Name(x),
            sym(Symbol::Comma),
        ] + expr_tokens(l) + seq![sym(Symbol::Comma)] + expr_tokens(r) + seq![sym(Symbol::RParen)],
        StmtV::PushFront(o, r) => t == list_op_tokens(Symbol::PushFront, o, r),
        StmtV::PushBack(o, r) => t == list_op_tokens(Symbol::PushBack, o, r),
        StmtV::PopFront(o, r) => t == list_op_tokens(Symbol::PopFront, o, r),
        StmtV::PopBack(o, r) => t == list_op_tokens(Symbol::PopBack, o, r),
        StmtV::LocalDelocal(tl, el, b, tr, er) => exists|
            a: Seq<TokenV>,
            c: Seq<TokenV>,
            d: Seq<TokenV>,
        |
            #![trigger local_tokens(a, el, c, d, er)]
            decl_spelled(tl, a) && spells(*b, c) && decl_spelled(tr, d) && t == local_tokens(a, el, c, d, er),
        StmtV::Call(q, args) => t == seq![sym(Symbol::Call), TokenV::Name(q), sym(Symbol::LParen)]
            + names_tokens(args) + seq![sym(Symbol::RParen)],
        StmtV::Uncall(q, args) => t == seq![sym(Symbol::Uncall), TokenV::Name(q), sym(Symbol::LParen)]
            + names_tokens(args) + seq![sym(Symbol::RParen)],
        StmtV::Skip => t == seq![sym(Symbol::Skip)],
        StmtV::Print(x) => t == seq![
            sym(Symbol::Print),
            sym(Symbol::LParen),
            TokenV::Name(x),
            sym(Symbol::RParen),
        ],
        StmtV::For(vars, cs, b) => exists|a: Seq<TokenV>, c: Seq<TokenV>, d: Seq<TokenV>|
            #![trigger for_tokens(a, c, d)]
            loop_vars_spelled(vars, a) && loop_containers_spelled(cs, c) && spells(*b, d) && t
                == for_tokens(a, c, d),
    }
}

pub open spec fn packs_of(vars: Seq<Vec<Variable>>) -> Seq<Seq<Seq<char>>> {
    vars.map_values(|vs: Vec<Variable>| names(vs@))
}

pub open spec fn containers_of(cs: Seq<(Variable, Option<Variable>)>) -> Seq<(Seq<char>, Option<Seq<char>>)> {
    cs.map_values(|c: (Variable, Option<Variable>)| container_view(c))
}

/// Two runs of tokens, one after the other.
pub open spec fn cat(u: Seq<TokenV>, w: Seq<TokenV>) -> Seq<TokenV> {
    u + w
}

/// Whether `t` spells declarations separated by commas.
pub open spec fn decls_spelled(ps: Seq<(Type, Seq<char>)>, t: Seq<TokenV>) -> bool
    decreases ps.len(),
{
    if ps.len() == 0 {
        t.len() == 0
    } else if ps.len() == 1 {
        decl_spelled(ps[0], t)
    } else {
        exists|u: Seq<TokenV>, w: Seq<TokenV>|
            #![trigger u + seq![sym(Symbol::Comma)] + w]
            decls_spelled(ps.drop_last(), u) && decl_spelled(ps.last(), w) && t == u + seq![
                sym(Symbol::Comma),
            ] + w
    }
}

/// How many tokens the integer at the front of `t` takes: two after a minus.
pub open spec fn lit_len(t: Seq<TokenV>) -> int {
    if t.len() > 0 && t[0] == sym(Symbol::Minus) {
        2
    } else {
        1
    }
}

/// Whether `t` spells the elements of a matrix literal: integers, each
/// after the first optionally preceded by a semicolon.
pub open spec fn numbers_spelled(ns: Seq<i32>, t: Seq<TokenV>) -> bool
    decreases ns.len(),
{
    if ns.len() == 0 {
        t.len() == 0
    } else {
        let j = lit_len(t);
        let rest = t.skip(j);
        j <= t.len() && literal_spelled(ns[0] as int, t.take(j)) && if ns.len() == 1 {
            rest.len() == 0
        } else if rest.len() > 0 && rest[0] == sym(Symbol::Semicolon) {
            numbers_spelled(ns.skip(1), rest.skip(1))
        } else {
            numbers_spelled(ns.skip(1), rest)
        }
    }
}

/// Whether the tokens of `ts` from `pos` up to a closing bracket at `k`
/// spell the elements `ns`.
pub open spec fn mat_at(ts: Seq<TokenV>, pos: int, k: int, ns: Seq<i32>) -> bool {
    0 <= pos <= k < ts.len() && ts[k] == sym(Symbol::RBracket) && numbers_spelled(
        ns,
        ts.subrange(pos, k),
    )
}

proof fn lemma_numbers_start(ns: Seq<i32>, t: Seq<TokenV>)
    requires
        numbers_spelled(ns, t),
        ns.len() > 0,
    ensures
        1 <= lit_len(t) <= t.len(),
        t[0] is Literal || (t[0] == sym(Symbol::Minus) && t[1] is Literal),
        t[0] != sym(Symbol::RBracket),
        t[0] != sym(Symbol::Semicolon),
        literal_spelled(ns[0] as int, t.take(lit_len(t))),
{
    assert(t.take(lit_len(t))[0] == t[0]);
    if lit_len(t) == 2 {
        assert(t.take(2)[1] == t[1]);
    }
}

proof fn lemma_numbers_snoc(ns: Seq<i32>, t: Seq<TokenV>, v: i32, w: Seq<TokenV>, semi: bool)
    requires
        numbers_spelled(ns, t),
        literal_spelled(v as int, w),
        semi ==> ns.len() > 0,
    ensures
        numbers_spelled(
            ns.push(v),
            t + (if semi {
                seq![sym(Symbol::Semicolon)]
            } else {
                Seq::empty()
            }) + w,
        ),
    decreases ns.len(),
{
    let s = if semi {
        seq![sym(Symbol::Semicolon)]
    } else {
        Seq::<TokenV>::empty()
    };
    let t2 = t + s + w;
    let xs = ns.push(v);
    assert(lit_len(w) == w.len());
    if ns.len() == 0 {
        assert(t2 =~= w);
        assert(w.take(lit_len(w)) =~= w);
        assert(w.skip(lit_len(w)).len() == 0);
    } else {
        lemma_numbers_start(ns, t);
        let j = lit_len(t);
        assert(t2[0] == t[0]);
        assert(lit_len(t2) == j);
        assert(t2.take(j) =~= t.take(j));
        let rest = t.skip(j);
        let rest2 = t2.skip(j);
        assert(rest2 =~= rest + s + w);
        assert(xs[0] == ns[0]);
        assert(xs.skip(1) =~= ns.skip(1).push(v));
        if ns.len() == 1 {
            assert(rest.len() == 0);
            assert(rest2 =~= s + w);
            if semi {
                assert(rest2.skip(1) =~= w);
                lemma_numbers_snoc(Seq::empty(), Seq::empty(), v, w, false);
                assert(Seq::<TokenV>::empty() + Seq::<TokenV>::empty() + w =~= w);
                assert(ns.skip(1).push(v) =~= seq![v]);
                assert(Seq::<i32>::empty().push(v) =~= seq![v]);
            } else {
                assert(rest2 =~= w);
                if w[0] == sym(Symbol::Semicolon) {
                    assert(false);
                }
                lemma_numbers_snoc(Seq::empty(), Seq::empty(), v, w, false);
                assert(Seq::<TokenV>::empty() + Seq::<TokenV>::empty() + w =~= w);
                assert(ns.skip(1).push(v) =~= seq![v]);
                assert(Seq::<i32>::empty().push(v) =~= seq![v]);
            }
        } else if rest.len() > 0 && rest[0] == sym(Symbol::Semicolon) {
            lemma_numbers_snoc(ns.skip(1), rest.skip(1), v, w, semi);
            assert(rest2[0] == rest[0]);
            assert(rest2.skip(1) =~= rest.skip(1) + s + w);
        } else {
            lemma_numbers_snoc(ns.skip(1), rest, v, w, semi);
            lemma_numbers_start(ns.skip(1), rest);
            assert(rest2[0] == rest[0]);
        }
    }
}

/// Whether `t` spells the bodies of an involutive block: a forward body,
/// which may be left out when it is a skip, `with`, and the involution body.
pub open spec fn bodies_spelled(s: StmtV, i: StmtV, t: Seq<TokenV>) -> bool {
    (s is Skip && exists|b: Seq<TokenV>|
        #![trigger seq![sym(Symbol::With)] + b]
        spells(i, b) && t == seq![sym(Symbol::With)] + b) || exists|a: Seq<TokenV>, b: Seq<TokenV>|
        #![trigger a + seq![sym(Symbol::With)] + b]
        spells(s, a) && spells(i, b) && t == a + seq![sym(Symbol::With)] + b
}

pub open spec fn main_decl_view(d: (TypedVariable, Option<Expr>)) -> ((Type, Seq<char>), Option<ExprV>) {
    (
        d.0@,
        match d.1 {
            Some(e) => Some(e@),
            None => None,
        },
    )
}

/// Whether `t` spells one declaration of the main block, with its optional initial value.
pub open spec fn main_decl_spelled(d: ((Type, Seq<char>), Option<ExprV>), t: Seq<TokenV>) -> bool {
    match d.1 {
        None => decl_spelled(d.0, t),
        Some(e) => exists|a: Seq<TokenV>|
            #![trigger a + seq![sym(Symbol::Equal)]]
            decl_spelled(d.0, a) && t == a + seq![sym(Symbol::Equal)] + expr_tokens(e),
    }
}

pub open spec fn main_decls_spelled(ds: Seq<((Type, Seq<char>), Option<ExprV>)>, t: Seq<TokenV>) -> bool
    decreases ds.len(),
{
    if ds.len() == 0 {
        t.len() == 0
    } else {
        exists|u: Seq<TokenV>, w: Seq<TokenV>|
            #![trigger cat(u, w)]
            main_decls_spelled(ds.drop_last(), u) && main_decl_spelled(ds.last(), w) && t == cat(u, w)
    }
}

pub open spec fn main_head() -> Seq<TokenV> {
    seq![sym(Symbol::Invl), sym(Symbol::Main), sym(Symbol::LParen), sym(Symbol::RParen)]
}

/// Whether `t` spells the main block.
pub open spec fn main_spelled(m: MainProc, t: Seq<TokenV>) -> bool {
    exists|a: Seq<TokenV>, b: Seq<TokenV>|
        #![trigger main_head() + a + b]
        main_decls_spelled(m.0@.map_values(|d: (TypedVariable, Option<Expr>)| main_decl_view(d)), a)
            && bodies_spelled(m.1@, m.2@, b) && t == main_head() + a + b
}

pub open spec fn decls_of(ps: Seq<TypedVariable>) -> Seq<(Type, Seq<char>)> {
    ps.map_values(|p: TypedVariable| p@)
}

pub open spec fn proc_head(kw: Symbol, q: Seq<char>, open: Symbol) -> Seq<TokenV> {
    seq![sym(kw), TokenV::Name(q), sym(open)]
}

/// Whether `t` spells a procedure.
pub open spec fn proc_spelled(p: Proc, t: Seq<TokenV>) -> bool {
    match p {
        Proc::Inj(q, ps, s) => exists|a: Seq<TokenV>, c: Seq<TokenV>|
            #![trigger proc_head(Symbol::Inj, q@, Symbol::LParen) + a + seq![sym(Symbol::RParen)] + c]
            decls_spelled(decls_of(ps@), a) && spells(s@, c) && t == proc_head(
                Symbol::Inj,
                q@,
                Symbol::LParen,
            ) + a + seq![sym(Symbol::RParen)] + c,
        Proc::Invl(q, ps, s, i) => exists|a: Seq<TokenV>, b: Seq<TokenV>|
            #![trigger proc_head(Symbol::Invl, q@, Symbol::LParen) + a + seq![sym(Symbol::RParen)] + b]
            decls_spelled(decls_of(ps@), a) && bodies_spelled(s@, i@, b) && t == proc_head(
                Symbol::Invl,
                q@,
                Symbol::LParen,
            ) + a + seq![sym(Symbol::RParen)] + b,
        Proc::Mat(q, m) => exists|kw: Symbol, n: Seq<TokenV>|
            #![trigger proc_head(kw, q@, Symbol::LBracket) + n]
            (kw == Symbol::Inj || kw == Symbol::Invl) && numbers_spelled(m.square().elems(), n) && t
                == proc_head(kw, q@, Symbol::LBracket) + n + seq![sym(Symbol::RBracket)],
    }
}

pub open spec fn procs_spelled(ps: Seq<Proc>, t: Seq<TokenV>) -> bool
    decreases ps.len(),
{
    if ps.len() == 0 {
        t.len() == 0
    } else {
        exists|u: Seq<TokenV>, w: Seq<TokenV>|
            #![trigger cat(u, w)]
            procs_spelled(ps.drop_last(), u) && proc_spelled(ps.last(), w) && t == cat(u, w)
    }
}

/// Whether `t` spells a program: its main block, then its procedures.
pub open spec fn program_spelled(p: Program, t: Seq<TokenV>) -> bool {
    exists|a: Seq<TokenV>, b: Seq<TokenV>|
        #![trigger cat(a, b)]
        main_spelled(p.0, a) && procs_spelled(p.1@, b) && t == cat(a, b)
}

/// Whether a statement can start with the token `t`.
pub open spec fn starts_statement(t: TokenV) -> bool {
    match t {
        TokenV::Name(_) => true,
        TokenV::Symbol(s) => s == Symbol::If || s == Symbol::From || s == Symbol::PushFront || s
            == Symbol::PushBack || s == Symbol::PopFront || s == Symbol::PopBack || s == Symbol::Local
            || s == Symbol::Call || s == Symbol::Uncall || s == Symbol::Skip || s == Symbol::Print || s
            == Symbol::For || s == Symbol::Swap,
        TokenV::Literal(_) => false,
    }
}

/// The shape that the parser gives statements: both sides of a
/// `local` / `delocal` pair agree, a for-loop has one pack of variables
/// per container, and sequences nest to the right.
pub open spec fn stmt_wf(s: StmtV) -> bool
    decreases s,
{
    match s {
        StmtV::LocalDelocal(tl, _, b, tr, _) => tl == tr && stmt_wf(*b),
        StmtV::For(vars, cs, b) => vars.len() == cs.len() && cs.len() >= 1 && stmt_wf(*b),
        StmtV::IfThenElseFi(_, l, r, _) => stmt_wf(*l) && stmt_wf(*r),
        StmtV::FromDoLoopUntil(_, l, r, _) => stmt_wf(*l) && stmt_wf(*r),
        StmtV::IfThenElse(_, l, r) => stmt_wf(*l) && stmt_wf(*r),
        StmtV::Sequence(l, r) => !(*l is Sequence) && stmt_wf(*l) && stmt_wf(*r),
        _ => true,
    }
}

/// The shape that the parser gives procedures; a matrix procedure's
/// matrix is involutory.
pub open spec fn proc_wf(p: Proc) -> bool {
    match p {
        Proc::Inj(_, _, s) => stmt_wf(s@),
        Proc::Invl(_, _, s, i) => stmt_wf(s@) && stmt_wf(i@),
        Proc::Mat(_, m) => m.wf(),
    }
}

/// The shape that the parser gives programs.
pub open spec fn program_wf(p: Program) -> bool {
    stmt_wf(p.0.1@) && stmt_wf(p.0.2@) && forall|i: int| 0 <= i < p.1@.len() ==> #[trigger] proc_wf(p.1@[i])
}

proof fn lemma_join(ts: Seq<TokenV>, a: int, b: int, c: int)
    requires
        0 <= a <= b <= c <= ts.len(),
    ensures
        ts.subrange(a, c) == cat(ts.subrange(a, b), ts.subrange(b, c)),
{
    assert(ts.subrange(a, c) =~= ts.subrange(a, b) + ts.subrange(b, c));
}

proof fn lemma_split(ts: Seq<TokenV>, a: int, b: int, c: int)
    requires
        0 <= a <= b < c <= ts.len(),
    ensures
        ts.subrange(a, c) == ts.subrange(a, b) + seq![ts[b]] + ts.subrange(b + 1, c),
{
    assert(ts.subrange(a, c) =~= ts.subrange(a, b) + seq![ts[b]] + ts.subrange(b + 1, c));
}

/// Whether `a` lies on the left spine of `e`: `e` itself, or on the left
/// spine of its left operand.
pub open spec fn is_left_sub(a: ExprV, e: ExprV) -> bool
    decreases e,
{
    if a == e {
        true
    } else {
        match e {
            ExprV::BinOp(l, _, _) => is_left_sub(a, *l),
            _ => false,
        }
    }
}

/// The node of the left spine of `e` whose left operand is `a`.
pub open spec fn spine_parent(a: ExprV, e: ExprV) -> ExprV
    decreases e,
{
    match e {
        ExprV::BinOp(l, _, _) => if *l == a {
            e
        } else {
            spine_parent(a, *l)
        },
        _ => e,
    }
}

/// The operand at the bottom of the left spine of `e`.
pub open spec fn leftmost(e: ExprV) -> ExprV
    decreases e,
{
    match e {
        ExprV::BinOp(l, _, _) => leftmost(*l),
        _ => e,
    }
}

/// Whether the `n` tokens of `ts` at `pos` spell `e`, an expression that
/// respects precedence, whose operators bind at least as tight as
/// `min_prec`, and after which stands neither such an operator nor an
/// opening bracket.
pub open spec fn expr_at(ts: Seq<TokenV>, pos: int, n: int, e: ExprV, min_prec: int) -> bool {
    0 <= pos && 0 < n && pos + n <= ts.len() && ts.subrange(pos, pos + n) == expr_tokens(e)
        && prec_ok(e) && top_prec_at_least(e, min_prec) && !binop_at_least(ts, pos + n, min_prec)
        && !(pos + n < ts.len() && ts[pos + n] == sym(Symbol::LBracket))
}

/// Whether the `n` tokens of `ts` at `pos` spell the array literal of `es`.
pub open spec fn array_at(ts: Seq<TokenV>, pos: int, n: int, es: Seq<ExprV>) -> bool {
    0 <= pos && 0 < n && pos + n <= ts.len() && ts.subrange(pos, pos + n) == expr_tokens(
        ExprV::Array(es),
    ) && items_prec_ok(es)
}

proof fn lemma_prec_bound(op: BinOp)
    ensures
        0 <= prec(op) <= 8,
        token_binop(sym(binop_symbol(op))) == Some(op),
{
}

proof fn lemma_first_token(f: ExprV)
    ensures
        expr_tokens(f).len() >= 1,
        match f {
            ExprV::Const(n) => expr_tokens(f)[0] == TokenV::Literal(n),
            ExprV::Variable(x) => expr_tokens(f)[0] == TokenV::Name(x) && expr_tokens(f).len() == 1,
            ExprV::Indexed(x, _) => expr_tokens(f)[0] == TokenV::Name(x) && expr_tokens(f)[1] == sym(
                Symbol::LBracket,
            ),
            ExprV::Array(_) => expr_tokens(f)[0] == sym(Symbol::LBracket),
            ExprV::UnrOp(UnrOp::Negative, _) => expr_tokens(f)[0] == sym(Symbol::Minus),
            ExprV::UnrOp(UnrOp::Not, _) => expr_tokens(f)[0] == sym(Symbol::Exclamation),
            ExprV::Empty(_) => expr_tokens(f)[0] == sym(Symbol::Empty),
            ExprV::Size(_) => expr_tokens(f)[0] == sym(Symbol::Size),
            ExprV::Nil => expr_tokens(f)[0] == sym(Symbol::Nil),
            ExprV::Wrapped(_) => expr_tokens(f)[0] == sym(Symbol::LParen),
            ExprV::BinOp(l, _, _) => expr_tokens(f)[0] == expr_tokens(*l)[0],
        },
    decreases f,
{
    match f {
        ExprV::BinOp(l, _, _) => {
            lemma_first_token(*l);
        },
        ExprV::Indexed(_, i) => {
            lemma_first_token(*i);
        },
        ExprV::UnrOp(_, x) => {
            lemma_first_token(*x);
        },
        ExprV::Wrapped(x) => {
            lemma_first_token(*x);
        },
        _ => {},
    }
}

/// Facts about a node `a` on the left spine of `e`: its tokens begin those
/// of `e`, it respects precedence, and unless it is `e` its spine parent's
/// operator follows it, binding at least as tight as `e`'s.
proof fn lemma_spine(a: ExprV, e: ExprV, m: int)
    requires
        is_left_sub(a, e),
        prec_ok(e),
        top_prec_at_least(e, m),
    ensures
        prec_ok(a),
        expr_tokens(a).len() <= expr_tokens(e).len(),
        expr_tokens(e).subrange(0, expr_tokens(a).len() as int) == expr_tokens(a),
        a != e ==> expr_tokens(a).len() < expr_tokens(e).len(),
        a != e ==> (spine_parent(a, e) matches ExprV::BinOp(l, op, _) && *l == a && prec(op) >= m
            && is_left_sub(spine_parent(a, e), e) && expr_tokens(e)[expr_tokens(a).len() as int]
            == sym(binop_symbol(op))),
        a != e ==> (a matches ExprV::BinOp(_, aop, _) ==> prec(aop) > prec(spine_parent(a, e)->BinOp_1)),
    decreases e,
{
    if a != e {
        match e {
            ExprV::BinOp(l, op, r) => {
                lemma_first_token(*r);
                if *l == a {
                    assert(expr_tokens(e).subrange(0, expr_tokens(a).len() as int) =~= expr_tokens(a));
                } else {
                    lemma_spine(a, *l, prec(op) + 1);
                    assert(expr_tokens(e).subrange(0, expr_tokens(a).len() as int) =~= expr_tokens(
                        *l,
                    ).subrange(0, expr_tokens(a).len() as int));
                    assert(expr_tokens(e)[expr_tokens(a).len() as int] == expr_tokens(
                        *l,
                    )[expr_tokens(a).len() as int]);
                }
            },
            _ => {},
        }
    } else {
        assert(expr_tokens(e).subrange(0, expr_tokens(a).len() as int) =~= expr_tokens(a));
    }
}

proof fn lemma_leftmost(e: ExprV)
    ensures
        is_left_sub(leftmost(e), e),
        !(leftmost(e) is BinOp),
    decreases e,
{
    match e {
        ExprV::BinOp(l, _, _) => {
            lemma_leftmost(*l);
        },
        _ => {},
    }
}

/// The operand at the start of a spelled expression, and what follows it.
proof fn lemma_prim(ts: Seq<TokenV>, start: int, n: int, e: ExprV, m: int)
    requires
        expr_at(ts, start, n, e, m),
    ensures
        !(leftmost(e) is BinOp),
        prec_ok(leftmost(e)),
        is_left_sub(leftmost(e), e),
        0 < expr_tokens(leftmost(e)).len() <= n,
        ts.subrange(start, start + expr_tokens(leftmost(e)).len()) == expr_tokens(leftmost(e)),
        ({
            let j = start + expr_tokens(leftmost(e)).len();
            !(j < ts.len() && ts[j] == sym(Symbol::LBracket))
        }),
{
    let lm = leftmost(e);
    lemma_leftmost(e);
    lemma_spine(lm, e, m);
    lemma_first_token(lm);
    let k = expr_tokens(lm).len() as int;
    assert(ts.subrange(start, start + k) =~= ts.subrange(start, start + n).subrange(0, k));
    if lm != e {
        let op = spine_parent(lm, e)->BinOp_1;
        assert(ts[start + k] == ts.subrange(start, start + n)[k]);
        assert(binop_symbol(op) != Symbol::LBracket);
    }
}

/// One step up the left spine of a spelled expression: unless `f` is the
/// whole of `e`, its spine parent's operator and right operand follow it.
proof fn lemma_step(ts: Seq<TokenV>, start: int, n: int, e: ExprV, m: int, f: ExprV)
    requires
        expr_at(ts, start, n, e, m),
        is_left_sub(f, e),
        start + expr_tokens(f).len() <= ts.len(),
        ts.subrange(start, start + expr_tokens(f).len()) == expr_tokens(f),
    ensures
        f == e ==> expr_tokens(f).len() == n,
        f != e ==> ({
            let p = spine_parent(f, e);
            let j = start + expr_tokens(f).len();
            &&& p matches ExprV::BinOp(l, op, r) && *l == f && j < ts.len() && ts[j] == sym(
                binop_symbol(op),
            ) && token_binop(ts[j]) == Some(op) && prec(op) >= m && expr_at(
                ts,
                j + 1,
                expr_tokens(*r).len() as int,
                *r,
                prec(op) as int,
            )
            &&& is_left_sub(p, e)
            &&& ts.subrange(start, start + expr_tokens(p).len()) == expr_tokens(p)
        }),
{
    lemma_spine(f, e, m);
    if f == e {
        assert(expr_tokens(f).len() == n);
    } else {
        let p = spine_parent(f, e);
        let op = p->BinOp_1;
        let r = *p->BinOp_2;
        let kf = expr_tokens(f).len() as int;
        let kp = expr_tokens(p).len() as int;
        lemma_spine(p, e, m);
        lemma_prec_bound(op);
        lemma_first_token(r);
        assert(ts.subrange(start, start + kp) =~= ts.subrange(start, start + n).subrange(0, kp));
        assert(ts[start + kf] == ts.subrange(start, start + n)[kf]);
        let j = start + kf;
        assert(ts.subrange(j + 1, j + 1 + expr_tokens(r).len()) =~= ts.subrange(start, start + kp).subrange(
            kf + 1,
            kp,
        ));
        let end = start + kp;
        assert(kp == kf + 1 + expr_tokens(r).len());
        assert(expr_tokens(p).subrange(kf + 1, kp) =~= expr_tokens(r));
        assert(ts.subrange(j + 1, j + 1 + expr_tokens(r).len()) == expr_tokens(r));
        assert(prec_ok(p));
        assert(prec_ok(r));
        assert(top_prec_at_least(r, prec(op) as int));
        if p != e {
            let gop = spine_parent(p, e)->BinOp_1;
            lemma_prec_bound(gop);
            assert(ts[end] == ts.subrange(start, start + n)[kp]);
            assert(binop_symbol(gop) != Symbol::LBracket);
            assert(prec(gop) < prec(op));
            assert(!binop_at_least(ts, end, prec(op) as int));
            assert(ts[end] != sym(Symbol::LBracket));
        } else {
            assert(end == start + n);
            assert(!binop_at_least(ts, end, prec(op) as int));
        }
        assert(expr_at(ts, j + 1, expr_tokens(r).len() as int, r, prec(op) as int));
        assert(token_binop(ts[j]) == Some(op));
    }
}

proof fn lemma_first_not_closing(f: ExprV)
    ensures
        expr_tokens(f).len() >= 1,
        expr_tokens(f)[0] != sym(Symbol::RBracket),
    decreases f,
{
    lemma_first_token(f);
    if let ExprV::BinOp(l, _, _) = f {
        lemma_first_not_closing(*l);
    }
}

/// An operand spelled at `a` and closed by a token that is neither an
/// operator nor an opening bracket is spelled there at precedence 0.
proof fn lemma_enclosed(ts: Seq<TokenV>, a: int, x: ExprV)
    requires
        0 <= a,
        a + expr_tokens(x).len() < ts.len(),
        ts.subrange(a, a + expr_tokens(x).len()) == expr_tokens(x),
        prec_ok(x),
        token_binop(ts[a + expr_tokens(x).len()]) is None,
        ts[a + expr_tokens(x).len()] != sym(Symbol::LBracket),
    ensures
        expr_at(ts, a, expr_tokens(x).len() as int, x, 0),
{
    lemma_first_token(x);
    if let ExprV::BinOp(_, op, _) = x {
        lemma_prec_bound(op);
    }
}

/// The operand of a unary operator, spelled at `a`, is spelled there at
/// the highest precedence.
proof fn lemma_unary_operand(ts: Seq<TokenV>, a: int, x: ExprV)
    requires
        0 <= a,
        a + expr_tokens(x).len() <= ts.len(),
        ts.subrange(a, a + expr_tokens(x).len()) == expr_tokens(x),
        prec_ok(x),
        !(x is BinOp),
        !(a + expr_tokens(x).len() < ts.len() && ts[a + expr_tokens(x).len()] == sym(Symbol::LBracket)),
    ensures
        expr_at(ts, a, expr_tokens(x).len() as int, x, 255),
{
    lemma_first_token(x);
    let j = a + expr_tokens(x).len();
    if j < ts.len() {
        if let Some(op) = token_binop(ts[j]) {
            lemma_prec_bound(op);
        }
    }
}

proof fn lemma_array_at(ts: Seq<TokenV>, start: int, n: int, es: Seq<ExprV>)
    requires
        array_at(ts, start, n, es),
    ensures
        n >= 2,
        n == items_tokens(es).len() + 2,
        ts[start] == sym(Symbol::LBracket),
        ts[start + 1] == ts.subrange(start, start + n)[1],
        es.len() == 0 ==> ts[start + 1] == sym(Symbol::RBracket),
{
    assert(expr_tokens(ExprV::Array(es)).len() >= 2);
    assert(ts[start] == ts.subrange(start, start + n)[0]);
}

proof fn lemma_items_prefix(es: Seq<ExprV>, k: int)
    requires
        1 <= k <= es.len(),
    ensures
        items_tokens(es.take(k)).len() <= items_tokens(es).len(),
        items_tokens(es).subrange(0, items_tokens(es.take(k)).len() as int) == items_tokens(es.take(k)),
        k < es.len() ==> items_tokens(es.take(k + 1)) == items_tokens(es.take(k)) + seq![
            sym(Symbol::Comma),
        ] + expr_tokens(es[k]),
    decreases es.len() - k,
{
    if k < es.len() {
        assert(es.take(k + 1).drop_last() =~= es.take(k));
        assert(es.take(k + 1).last() == es[k]);
        lemma_items_prefix(es, k + 1);
        assert(items_tokens(es).subrange(0, items_tokens(es.take(k)).len() as int) =~= items_tokens(
            es,
        ).subrange(0, items_tokens(es.take(k + 1)).len() as int).subrange(
            0,
            items_tokens(es.take(k)).len() as int,
        ));
    } else {
        assert(es.take(k) =~= es);
        assert(items_tokens(es).subrange(0, items_tokens(es).len() as int) =~= items_tokens(es));
    }
}

proof fn lemma_items_prec(es: Seq<ExprV>, i: int)
    requires
        items_prec_ok(es),
        0 <= i < es.len(),
    ensures
        prec_ok(es[i]),
    decreases es.len(),
{
    if i < es.len() - 1 {
        lemma_items_prec(es.drop_last(), i);
    }
}

/// Within a spelled array literal, the items up to index `i` are followed
/// by a comma when more items follow, and by the closing bracket otherwise;
/// item `i` stands after the items before it, and is spelled there.
proof fn lemma_items_close(ts: Seq<TokenV>, start: int, n: int, es: Seq<ExprV>, i: int)
    requires
        array_at(ts, start, n, es),
        0 <= i < es.len(),
    ensures
        ({
            let before: int = if i == 0 {
                0
            } else {
                items_tokens(es.take(i)).len() + 1int
            };
            let b = start + 1 + before;
            let after = start + 1 + items_tokens(es.take(i + 1)).len();
            &&& after < ts.len()
            &&& after == b + expr_tokens(es[i]).len()
            &&& ts.subrange(b, after) == expr_tokens(es[i])
            &&& (i + 1 < es.len() ==> ts[after] == sym(Symbol::Comma))
            &&& (i + 1 == es.len() ==> ts[after] == sym(Symbol::RBracket) && after + 1 == start + n)
            &&& (i > 0 ==> ts[b - 1] == sym(Symbol::Comma))
            &&& (prec_ok(es[i]) ==> expr_at(ts, b, expr_tokens(es[i]).len() as int, es[i], 0))
        }),
{
    lemma_array_at(ts, start, n, es);
    let whole = ts.subrange(start, start + n);
    let it = items_tokens(es);
    lemma_items_prefix(es, i + 1);
    lemma_first_token(es[i]);
    assert(whole =~= seq![sym(Symbol::LBracket)] + it + seq![sym(Symbol::RBracket)]);
    let ki1 = items_tokens(es.take(i + 1)).len() as int;
    let ki: int = if i == 0 {
        0
    } else {
        items_tokens(es.take(i)).len() + 1int
    };
    if i == 0 {
        assert(es.take(1) =~= seq![es[0]]);
    } else {
        lemma_items_prefix(es, i);
        assert(es.take(i + 1).drop_last() =~= es.take(i));
    }
    assert(ts.subrange(start + 1 + ki, start + 1 + ki1) =~= whole.subrange(1 + ki, 1 + ki1));
    assert(items_tokens(es.take(i + 1)).subrange(ki, ki1) =~= expr_tokens(es[i]));
    assert(whole.subrange(1 + ki, 1 + ki1) =~= it.subrange(ki, ki1));
    assert(it.subrange(ki, ki1) =~= items_tokens(es.take(i + 1)).subrange(ki, ki1));
    assert(ts[start + 1 + ki1] == whole[1 + ki1]);
    if i > 0 {
        assert(ts[start + ki] == whole[ki]);
        assert(whole[ki] == it[ki - 1]);
        assert(it[ki - 1] == items_tokens(es.take(i + 1))[ki - 1]);
    }
    if i + 1 < es.len() {
        lemma_items_prefix(es, i + 2);
        assert(es.take(i + 2).drop_last() =~= es.take(i + 1));
        assert(whole[1 + ki1] == it[ki1]);
        assert(it[ki1] == items_tokens(es.take(i + 2))[ki1]);
    } else {
        assert(es.take(i + 1) =~= es);
    }
}

/// Whether the token at `j`, if any, can end an expression: it is neither
/// a binary operator nor an opening bracket.
pub open spec fn end_ok(ts: Seq<TokenV>, j: int) -> bool {
    !(0 <= j < ts.len() && (token_binop(ts[j]) is Some || ts[j] == sym(Symbol::LBracket)))
}

/// Whether the token at `j`, if any, can end a sequence of statements.
pub open spec fn follows_ok(ts: Seq<TokenV>, j: int) -> bool {
    end_ok(ts, j) && !(0 <= j < ts.len() && starts_statement(ts[j]))
}

/// Whether a declared type is one a literal can spell: an array size is a
/// positive `i32`.
pub open spec fn type_ok(t: Type) -> bool {
    match t.inner {
        InnerType::Array(n) => 0 < n <= i32::MAX,
        _ => true,
    }
}

/// Whether every expression of `s` respects precedence and every declared
/// type is one a literal can spell.
pub open spec fn stmt_ok(s: StmtV) -> bool
    decreases s,
{
    match s {
        StmtV::Mut(_, _, e) => prec_ok(e),
        StmtV::IndexedMut(_, i, _, e) => prec_ok(i) && prec_ok(e),
        StmtV::IfThenElseFi(el, l, r, er) => prec_ok(el) && prec_ok(er) && stmt_ok(*l) && stmt_ok(*r),
        StmtV::FromDoLoopUntil(el, l, r, er) => prec_ok(el) && prec_ok(er) && stmt_ok(*l) && stmt_ok(*r),
        StmtV::IndexedSwap(_, l, r) => prec_ok(l) && prec_ok(r),
        StmtV::LocalDelocal(tl, el, b, tr, er) => type_ok(tl.0) && type_ok(tr.0) && prec_ok(el)
            && prec_ok(er) && stmt_ok(*b),
        StmtV::For(_, _, _) => false,
        StmtV::IfThenElse(e, l, r) => prec_ok(e) && stmt_ok(*l) && stmt_ok(*r),
        StmtV::Sequence(l, r) => stmt_ok(*l) && stmt_ok(*r),
        _ => true,
    }
}

/// Whether the `n` tokens at `pos` spell the single statement `s`, after
/// which stands neither a binary operator nor an opening bracket.
pub open spec fn single_at(ts: Seq<TokenV>, pos: int, n: int, s: StmtV) -> bool {
    0 <= pos && 0 < n && pos + n <= ts.len() && spells(s, ts.subrange(pos, pos + n)) && stmt_wf(s)
        && stmt_ok(s) && !(s is Sequence) && end_ok(ts, pos + n)
}

/// Whether the `n` tokens at `pos` spell the statements `s`, after which
/// stands no token that could continue them.
pub open spec fn stmt_at(ts: Seq<TokenV>, pos: int, n: int, s: StmtV) -> bool {
    0 <= pos && 0 < n && pos + n <= ts.len() && spells(s, ts.subrange(pos, pos + n)) && stmt_wf(s)
        && stmt_ok(s) && follows_ok(ts, pos + n)
}

/// The token a statement starts with.
pub open spec fn stmt_head(s: StmtV) -> TokenV
    decreases s,
{
    match s {
        StmtV::Mut(x, _, _) => TokenV::Name(x),
        StmtV::IndexedMut(x, _, _, _) => TokenV::Name(x),
        StmtV::IfThenElseFi(_, _, _, _) => sym(Symbol::If),
        StmtV::IfThenElse(_, _, _) => sym(Symbol::If),
        StmtV::FromDoLoopUntil(_, _, _, _) => sym(Symbol::From),
        StmtV::IndexedSwap(_, _, _) => sym(Symbol::Swap),
        StmtV::PushFront(_, _) => sym(Symbol::PushFront),
        StmtV::PushBack(_, _) => sym(Symbol::PushBack),
        StmtV::PopFront(_, _) => sym(Symbol::PopFront),
        StmtV::PopBack(_, _) => sym(Symbol::PopBack),
        StmtV::LocalDelocal(_, _, _, _, _) => sym(Symbol::Local),
        StmtV::Call(_, _) => sym(Symbol::Call),
        StmtV::Uncall(_, _) => sym(Symbol::Uncall),
        StmtV::Skip => sym(Symbol::Skip),
        StmtV::Print(_) => sym(Symbol::Print),
        StmtV::For(_, _, _) => sym(Symbol::For),
        StmtV::Sequence(l, _) => stmt_head(*l),
    }
}

proof fn lemma_spells_head(s: StmtV, t: Seq<TokenV>)
    requires
        spells(s, t),
    ensures
        t.len() >= 1,
        t[0] == stmt_head(s),
        starts_statement(t[0]),
        token_binop(t[0]) is None,
        t[0] != sym(Symbol::LBracket),
    decreases s,
{
    match s {
        StmtV::Sequence(l, r) => {
            let (a, b) = choose|a: Seq<TokenV>, b: Seq<TokenV>|
                #![trigger a + b]
                spells(*l, a) && spells(*r, b) && t == a + b;
            lemma_spells_head(*l, a);
            assert(t[0] == a[0]);
        },
        StmtV::IfThenElse(e, sl, sr) => {
            if *sr is Skip && exists|a: Seq<TokenV>|
                #![trigger if_end_tokens(e, a)]
                spells(*sl, a) && t == if_end_tokens(e, a) {
                let a = choose|a: Seq<TokenV>|
                    #![trigger if_end_tokens(e, a)]
                    spells(*sl, a) && t == if_end_tokens(e, a);
                assert(t[0] == if_end_tokens(e, a)[0]);
            } else {
                let (a, b) = choose|a: Seq<TokenV>, b: Seq<TokenV>|
                    #![trigger if_else_end_tokens(e, a, b)]
                    spells(*sl, a) && spells(*sr, b) && t == if_else_end_tokens(e, a, b);
                assert(t[0] == if_else_end_tokens(e, a, b)[0]);
            }
        },
        StmtV::IfThenElseFi(el, sl, sr, er) => {
            if *sr is Skip && exists|a: Seq<TokenV>|
                #![trigger if_fi_tokens(el, a, er)]
                spells(*sl, a) && t == if_fi_tokens(el, a, er) {
                let a = choose|a: Seq<TokenV>|
                    #![trigger if_fi_tokens(el, a, er)]
                    spells(*sl, a) && t == if_fi_tokens(el, a, er);
                assert(t[0] == if_fi_tokens(el, a, er)[0]);
            } else {
                let (a, b) = choose|a: Seq<TokenV>, b: Seq<TokenV>|
                    #![trigger if_else_fi_tokens(el, a, b, er)]
                    spells(*sl, a) && spells(*sr, b) && t == if_else_fi_tokens(el, a, b, er);
                assert(t[0] == if_else_fi_tokens(el, a, b, er)[0]);
            }
        },
        StmtV::FromDoLoopUntil(el, sl, sr, er) => {
            if *sl is Skip && exists|b: Seq<TokenV>|
                #![trigger from_loop_tokens(el, b, er)]
                spells(*sr, b) && t == from_loop_tokens(el, b, er) {
                let b = choose|b: Seq<TokenV>|
                    #![trigger from_loop_tokens(el, b, er)]
                    spells(*sr, b) && t == from_loop_tokens(el, b, er);
                assert(t[0] == from_loop_tokens(el, b, er)[0]);
            } else {
                let (a, b) = choose|a: Seq<TokenV>, b: Seq<TokenV>|
                    #![trigger from_do_loop_tokens(el, a, b, er)]
                    spells(*sl, a) && spells(*sr, b) && t == from_do_loop_tokens(el, a, b, er);
                assert(t[0] == from_do_loop_tokens(el, a, b, er)[0]);
            }
        },
        StmtV::LocalDelocal(tl, el, b, tr, er) => {
            let (a, c, d) = choose|a: Seq<TokenV>, c: Seq<TokenV>, d: Seq<TokenV>|
                #![trigger local_tokens(a, el, c, d, er)]
                decl_spelled(tl, a) && spells(*b, c) && decl_spelled(tr, d) && t == local_tokens(
                    a,
                    el,
                    c,
                    d,
                    er,
                );
            assert(t[0] == local_tokens(a, el, c, d, er)[0]);
        },
        StmtV::For(vars, cs, b) => {
            let (a, c, d) = choose|a: Seq<TokenV>, c: Seq<TokenV>, d: Seq<TokenV>|
                #![trigger for_tokens(a, c, d)]
                loop_vars_spelled(vars, a) && loop_containers_spelled(cs, c) && spells(*b, d) && t
                    == for_tokens(a, c, d);
            assert(t[0] == for_tokens(a, c, d)[0]);
        },
        StmtV::Mut(_, _, e) => {
            assert(t[0] == TokenV::Name(s->Mut_0));
        },
        StmtV::IndexedMut(_, _, _, _) => {
            assert(t[0] == TokenV::Name(s->IndexedMut_0));
        },
        StmtV::Call(_, _) => {
            assert(t[0] == sym(Symbol::Call));
        },
        StmtV::Uncall(_, _) => {
            assert(t[0] == sym(Symbol::Uncall));
        },
        StmtV::IndexedSwap(_, _, _) => {
            assert(t[0] == sym(Symbol::Swap));
        },
        StmtV::PushFront(o, r) => {
            assert(t[0] == list_op_tokens(Symbol::PushFront, o, r)[0]);
        },
        StmtV::PushBack(o, r) => {
            assert(t[0] == list_op_tokens(Symbol::PushBack, o, r)[0]);
        },
        StmtV::PopFront(o, r) => {
            assert(t[0] == list_op_tokens(Symbol::PopFront, o, r)[0]);
        },
        StmtV::PopBack(o, r) => {
            assert(t[0] == list_op_tokens(Symbol::PopBack, o, r)[0]);
        },
        _ => {},
    }
}

/// A sequence spelled at `start` splits into its first statement, spelled
/// alone, and the rest, spelled after it.
proof fn lemma_seq_split(ts: Seq<TokenV>, start: int, n: int, s: StmtV) -> (k: int)
    requires
        stmt_at(ts, start, n, s),
        s is Sequence,
    ensures
        0 < k < n,
        single_at(ts, start, k, *s->Sequence_0),
        stmt_at(ts, start + k, n - k, *s->Sequence_1),
        starts_statement(ts[start + k]),
{
    let l = *s->Sequence_0;
    let r = *s->Sequence_1;
    let t = ts.subrange(start, start + n);
    let (a, b) = choose|a: Seq<TokenV>, b: Seq<TokenV>|
        #![trigger a + b]
        spells(l, a) && spells(r, b) && t == a + b;
    lemma_spells_head(l, a);
    lemma_spells_head(r, b);
    let k = a.len() as int;
    assert(ts.subrange(start, start + k) =~= t.subrange(0, k));
    assert(t.subrange(0, k) =~= a);
    assert(ts.subrange(start + k, start + n) =~= t.subrange(k, n));
    assert(t.subrange(k, n) =~= b);
    assert(ts[start + k] == t[k]);
    assert(t[k] == b[0]);
    k
}

proof fn lemma_single_of(ts: Seq<TokenV>, start: int, n: int, s: StmtV)
    requires
        stmt_at(ts, start, n, s),
        !(s is Sequence),
    ensures
        single_at(ts, start, n, s),
        !(start + n < ts.len() && starts_statement(ts[start + n])),
{
}

/// An expression spelled at `p` and ending where an expression may end is
/// spelled there at precedence 0.
proof fn lemma_expr_end(ts: Seq<TokenV>, p: int, e: ExprV)
    requires
        0 <= p,
        p + expr_tokens(e).len() <= ts.len(),
        ts.subrange(p, p + expr_tokens(e).len()) == expr_tokens(e),
        prec_ok(e),
        end_ok(ts, p + expr_tokens(e).len()),
    ensures
        expr_at(ts, p, expr_tokens(e).len() as int, e, 0),
{
    lemma_first_token(e);
    if let ExprV::BinOp(_, op, _) = e {
        lemma_prec_bound(op);
    }
}

/// A piece of a run of tokens spelled at `start`.
proof fn lemma_piece(ts: Seq<TokenV>, start: int, t: Seq<TokenV>, off: int, len: int)
    requires
        0 <= start,
        start + t.len() <= ts.len(),
        ts.subrange(start, start + t.len()) == t,
        0 <= off,
        0 <= len,
        off + len <= t.len(),
    ensures
        ts.subrange(start + off, start + off + len) == t.subrange(off, off + len),
        len > 0 ==> ts[start + off] == t[off],
{
    assert(ts.subrange(start + off, start + off + len) =~= t.subrange(off, off + len));
    if len > 0 {
        assert(ts[start + off] == t[off]);
    }
}

proof fn lemma_single_head(ts: Seq<TokenV>, start: int, n: int, s: StmtV)
    requires
        single_at(ts, start, n, s),
    ensures
        ts[start] == stmt_head(s),
{
    lemma_spells_head(s, ts.subrange(start, start + n));
    assert(ts[start] == ts.subrange(start, start + n)[0]);
}

proof fn lemma_mut_parts(ts: Seq<TokenV>, start: int, n: int, s: StmtV)
    requires
        single_at(ts, start, n, s),
        s is Mut || s is IndexedMut,
    ensures
        s matches StmtV::Mut(_, op, e) ==> ts[start + 1] == sym(mut_symbol(op)) && n == 2
            + expr_tokens(e).len() && expr_at(ts, start + 2, expr_tokens(e).len() as int, e, 0),
        s matches StmtV::IndexedMut(_, i, op, e) ==> ({
            let ki = expr_tokens(i).len() as int;
            &&& ts[start + 1] == sym(Symbol::LBracket)
            &&& expr_at(ts, start + 2, ki, i, 0)
            &&& ts[start + 2 + ki] == sym(Symbol::RBracket)
            &&& ts[start + 3 + ki] == sym(mut_symbol(op))
            &&& n == 4 + ki + expr_tokens(e).len()
            &&& expr_at(ts, start + 4 + ki, expr_tokens(e).len() as int, e, 0)
        }),
{
    let t = ts.subrange(start, start + n);
    match s {
        StmtV::Mut(x, op, e) => {
            let ke = expr_tokens(e).len() as int;
            lemma_piece(ts, start, t, 1, 1);
            lemma_piece(ts, start, t, 2, ke);
            assert(t.subrange(2, 2 + ke) =~= expr_tokens(e));
            lemma_expr_end(ts, start + 2, e);
        },
        StmtV::IndexedMut(x, i, op, e) => {
            let ki = expr_tokens(i).len() as int;
            let ke = expr_tokens(e).len() as int;
            lemma_piece(ts, start, t, 1, 1);
            lemma_piece(ts, start, t, 2, ki);
            lemma_piece(ts, start, t, 2 + ki, 1);
            lemma_piece(ts, start, t, 3 + ki, 1);
            lemma_piece(ts, start, t, 4 + ki, ke);
            assert(t.subrange(2, 2 + ki) =~= expr_tokens(i));
            assert(t.subrange(4 + ki, 4 + ki + ke) =~= expr_tokens(e));
            lemma_enclosed(ts, start + 2, i);
            lemma_expr_end(ts, start + 4 + ki, e);
        },
        _ => {},
    }
}

proof fn lemma_swap_parts(ts: Seq<TokenV>, start: int, n: int, s: StmtV)
    requires
        single_at(ts, start, n, s),
        s is IndexedSwap,
    ensures
        ({
            let l = s->IndexedSwap_1;
            let r = s->IndexedSwap_2;
            let kl = expr_tokens(l).len() as int;
            let kr = expr_tokens(r).len() as int;
            &&& ts[start + 1] == sym(Symbol::LParen)
            &&& ts[start + 2] == TokenV::Name(s->IndexedSwap_0)
            &&& ts[start + 3] == sym(Symbol::Comma)
            &&& expr_at(ts, start + 4, kl, l, 0)
            &&& ts[start + 4 + kl] == sym(Symbol::Comma)
            &&& expr_at(ts, start + 5 + kl, kr, r, 0)
            &&& ts[start + 5 + kl + kr] == sym(Symbol::RParen)
            &&& n == 6 + kl + kr
        }),
{
    let t = ts.subrange(start, start + n);
    let l = s->IndexedSwap_1;
    let r = s->IndexedSwap_2;
    let kl = expr_tokens(l).len() as int;
    let kr = expr_tokens(r).len() as int;
    lemma_first_token(l);
    lemma_first_token(r);
    lemma_piece(ts, start, t, 1, 1);
    lemma_piece(ts, start, t, 2, 1);
    lemma_piece(ts, start, t, 3, 1);
    lemma_piece(ts, start, t, 4, kl);
    lemma_piece(ts, start, t, 4 + kl, 1);
    lemma_piece(ts, start, t, 5 + kl, kr);
    lemma_piece(ts, start, t, 5 + kl + kr, 1);
    assert(t.subrange(4, 4 + kl) =~= expr_tokens(l));
    assert(t.subrange(5 + kl, 5 + kl + kr) =~= expr_tokens(r));
    lemma_enclosed(ts, start + 4, l);
    lemma_enclosed(ts, start + 5 + kl, r);
}

proof fn lemma_list_parts(ts: Seq<TokenV>, start: int, n: int, s: StmtV)
    requires
        single_at(ts, start, n, s),
        s is PushFront || s is PushBack || s is PopFront || s is PopBack,
    ensures
        ({
            let (o, r) = match s {
                StmtV::PushFront(o, r) => (o, r),
                StmtV::PushBack(o, r) => (o, r),
                StmtV::PopFront(o, r) => (o, r),
                StmtV::PopBack(o, r) => (o, r),
                _ => (OperandV::Literal(0), Seq::empty()),
            };
            &&& n == 6
            &&& ts[start + 1] == sym(Symbol::LParen)
            &&& ts[start + 2] == operand_tokens(o)[0]
            &&& ts[start + 3] == sym(Symbol::Comma)
            &&& ts[start + 4] == TokenV::Name(r)
            &&& ts[start + 5] == sym(Symbol::RParen)
        }),
{
    let t = ts.subrange(start, start + n);
    let (kw, o, r) = match s {
        StmtV::PushFront(o, r) => (Symbol::PushFront, o, r),
        StmtV::PushBack(o, r) => (Symbol::PushBack, o, r),
        StmtV::PopFront(o, r) => (Symbol::PopFront, o, r),
        StmtV::PopBack(o, r) => (Symbol::PopBack, o, r),
        _ => (Symbol::Skip, OperandV::Literal(0), Seq::empty()),
    };
    assert(t == list_op_tokens(kw, o, r));
    assert(operand_tokens(o).len() == 1);
    assert(t.len() == 6);
    assert(ts[start + 1] == t[1]);
    assert(ts[start + 2] == t[2]);
    assert(ts[start + 3] == t[3]);
    assert(ts[start + 4] == t[4]);
    assert(ts[start + 5] == t[5]);
}

proof fn lemma_names_index(xs: Seq<Seq<char>>, j: int)
    requires
        0 <= j < xs.len(),
    ensures
        names_tokens(xs).len() == 2 * xs.len() - 1,
        names_tokens(xs)[2 * j] == TokenV::Name(xs[j]),
        j + 1 < xs.len() ==> names_tokens(xs)[2 * j + 1] == sym(Symbol::Comma),
    decreases xs.len(),
{
    if xs.len() > 1 {
        if j < xs.len() - 1 {
            lemma_names_index(xs.drop_last(), j);
        } else {
            lemma_names_index(xs.drop_last(), j - 1);
        }
    }
}

/// The arguments of a call or uncall.
pub open spec fn call_args(s: StmtV) -> Seq<Seq<char>> {
    match s {
        StmtV::Call(_, a) => a,
        StmtV::Uncall(_, a) => a,
        _ => Seq::empty(),
    }
}

pub open spec fn call_target(s: StmtV) -> Seq<char> {
    match s {
        StmtV::Call(q, _) => q,
        StmtV::Uncall(q, _) => q,
        _ => Seq::empty(),
    }
}

proof fn lemma_call_parts(ts: Seq<TokenV>, start: int, n: int, s: StmtV)
    requires
        single_at(ts, start, n, s),
        s is Call || s is Uncall,
    ensures
        ({
            let a = call_args(s);
            &&& ts[start + 1] == TokenV::Name(call_target(s))
            &&& ts[start + 2] == sym(Symbol::LParen)
            &&& a.len() == 0 ==> n == 4 && ts[start + 3] == sym(Symbol::RParen)
            &&& a.len() > 0 ==> n == 2 * a.len() + 3 && ts[start + 2 + 2 * a.len()] == sym(
                Symbol::RParen,
            ) && ts[start + 3] == TokenV::Name(a[0])
            &&& forall|j: int|
                0 <= j < a.len() ==> #[trigger] ts[start + 3 + 2 * j] == TokenV::Name(a[j]) && (j + 1
                    < a.len() ==> ts[start + 4 + 2 * j] == sym(Symbol::Comma))
        }),
{
    let t = ts.subrange(start, start + n);
    let a = call_args(s);
    let kw = if s is Call {
        Symbol::Call
    } else {
        Symbol::Uncall
    };
    assert(t == seq![sym(kw), TokenV::Name(call_target(s)), sym(Symbol::LParen)] + names_tokens(a)
        + seq![sym(Symbol::RParen)]);
    if a.len() > 0 {
        lemma_names_index(a, 0);
    } else {
        assert(names_tokens(a).len() == 0);
    }
    assert(t.len() == n);
    assert(ts[start + 1] == t[1]);
    assert(ts[start + 2] == t[2]);
    assert(ts[start + n - 1] == t[n - 1]);
    if a.len() > 0 {
        assert(ts[start + 3] == t[3]);
    }
    assert forall|j: int| 0 <= j < a.len() implies #[trigger] ts[start + 3 + 2 * j] == TokenV::Name(
        a[j],
    ) && (j + 1 < a.len() ==> ts[start + 4 + 2 * j] == sym(Symbol::Comma)) by {
        lemma_names_index(a, j);
        assert(ts[start + 3 + 2 * j] == t[3 + 2 * j]);
        if j + 1 < a.len() {
            assert(ts[start + 4 + 2 * j] == t[4 + 2 * j]);
        }
    }
}

/// Keywords that close a statement inside a compound statement.
proof fn lemma_closer(s: Symbol)
    requires
        s == Symbol::End || s == Symbol::Fi || s == Symbol::Else || s == Symbol::Loop || s
            == Symbol::Until || s == Symbol::Delocal || s == Symbol::With || s == Symbol::Then || s
            == Symbol::Do || s == Symbol::Equal || s == Symbol::Comma || s == Symbol::RParen || s
            == Symbol::RBracket || s == Symbol::In,
    ensures
        s != Symbol::Equal ==> token_binop(sym(s)) is None,
        !starts_statement(sym(s)),
        sym(s) != sym(Symbol::LBracket),
{
}

/// The parts of a conditional spelled at `start`: the lengths of its
/// arms, and what stands between and after them.
#[verifier::rlimit(100)]
proof fn lemma_if_end_parts(ts: Seq<TokenV>, start: int, n: int, s: StmtV) -> (r: (int, int))
    requires
        single_at(ts, start, n, s),
        s is IfThenElse,
    ensures
        ({
            let (e, sl, sr) = match s {
                StmtV::IfThenElse(e, sl, sr) => (e, *sl, *sr),
                StmtV::IfThenElseFi(e, sl, sr, _) => (e, *sl, *sr),
                _ => (ExprV::Nil, StmtV::Skip, StmtV::Skip),
            };
            let ke = expr_tokens(e).len() as int;
            let p = start + 2 + ke;
            let (ka, kb) = r;
            let q = p + ka;
            &&& expr_at(ts, start + 1, ke, e, 0)
            &&& ts[start + 1 + ke] == sym(Symbol::Then)
            &&& stmt_at(ts, p, ka, sl)
            &&& q < ts.len()
            &&& (ts[q] == sym(Symbol::End) ==> s is IfThenElse && sr is Skip && n == q + 1 - start)
            &&& (ts[q] == sym(Symbol::Fi) ==> s is IfThenElseFi && sr is Skip && expr_at(
                ts,
                q + 1,
                expr_tokens(s->IfThenElseFi_3).len() as int,
                s->IfThenElseFi_3,
                0,
            ) && n == q + 1 + expr_tokens(s->IfThenElseFi_3).len() - start)
            &&& (ts[q] == sym(Symbol::Else) ==> stmt_at(ts, q + 1, kb, sr) && q + 1 + kb < ts.len()
                && (s is IfThenElse ==> ts[q + 1 + kb] == sym(Symbol::End) && n == q + 2 + kb - start)
                && (s is IfThenElseFi ==> ts[q + 1 + kb] == sym(Symbol::Fi) && expr_at(
                ts,
                q + 2 + kb,
                expr_tokens(s->IfThenElseFi_3).len() as int,
                s->IfThenElseFi_3,
                0,
            ) && n == q + 2 + kb + expr_tokens(s->IfThenElseFi_3).len() - start))
            &&& (ts[q] == sym(Symbol::End) || ts[q] == sym(Symbol::Fi) || ts[q] == sym(Symbol::Else))
        }),
{
    let t = ts.subrange(start, start + n);
    lemma_closer(Symbol::End);
    lemma_closer(Symbol::Fi);
    lemma_closer(Symbol::Else);
    lemma_closer(Symbol::Then);
    match s {
        StmtV::IfThenElse(e, sl, sr) => {
            let ke = expr_tokens(e).len() as int;
            let p = start + 2 + ke;
            if *sr is Skip && exists|a: Seq<TokenV>|
                #![trigger if_end_tokens(e, a)]
                spells(*sl, a) && t == if_end_tokens(e, a) {
                let a = choose|a: Seq<TokenV>|
                    #![trigger if_end_tokens(e, a)]
                    spells(*sl, a) && t == if_end_tokens(e, a);
                let ka = a.len() as int;
                lemma_piece(ts, start, t, 1, ke);
                assert(t.subrange(1, 1 + ke) =~= expr_tokens(e));
                lemma_piece(ts, start, t, 1 + ke, 1);
                lemma_piece(ts, start, t, 2 + ke, ka);
                assert(t.subrange(2 + ke, 2 + ke + ka) =~= a);
                lemma_piece(ts, start, t, 2 + ke + ka, 1);
                lemma_enclosed(ts, start + 1, e);
                lemma_spells_head(*sl, a);
                (ka, 0)
            } else {
                let (a, b) = choose|a: Seq<TokenV>, b: Seq<TokenV>|
                    #![trigger if_else_end_tokens(e, a, b)]
                    spells(*sl, a) && spells(*sr, b) && t == if_else_end_tokens(e, a, b);
                let ka = a.len() as int;
                let kb = b.len() as int;
                lemma_piece(ts, start, t, 1, ke);
                assert(t.subrange(1, 1 + ke) =~= expr_tokens(e));
                lemma_piece(ts, start, t, 1 + ke, 1);
                lemma_piece(ts, start, t, 2 + ke, ka);
                assert(t.subrange(2 + ke, 2 + ke + ka) =~= a);
                lemma_piece(ts, start, t, 2 + ke + ka, 1);
                lemma_piece(ts, start, t, 3 + ke + ka, kb);
                assert(t.subrange(3 + ke + ka, 3 + ke + ka + kb) =~= b);
                lemma_piece(ts, start, t, 3 + ke + ka + kb, 1);
                lemma_enclosed(ts, start + 1, e);
                lemma_spells_head(*sl, a);
                lemma_spells_head(*sr, b);
                (ka, kb)
            }
        },
        _ => (0, 0),
    }
}

/// The parts of an asserted conditional spelled at `start`: the lengths of its
/// arms, and what stands between and after them.
#[verifier::rlimit(100)]
proof fn lemma_if_fi_parts(ts: Seq<TokenV>, start: int, n: int, s: StmtV) -> (r: (int, int))
    requires
        single_at(ts, start, n, s),
        s is IfThenElseFi,
    ensures
        ({
            let (e, sl, sr) = match s {
                StmtV::IfThenElse(e, sl, sr) => (e, *sl, *sr),
                StmtV::IfThenElseFi(e, sl, sr, _) => (e, *sl, *sr),
                _ => (ExprV::Nil, StmtV::Skip, StmtV::Skip),
            };
            let ke = expr_tokens(e).len() as int;
            let p = start + 2 + ke;
            let (ka, kb) = r;
            let q = p + ka;
            &&& expr_at(ts, start + 1, ke, e, 0)
            &&& ts[start + 1 + ke] == sym(Symbol::Then)
            &&& stmt_at(ts, p, ka, sl)
            &&& q < ts.len()
            &&& (ts[q] == sym(Symbol::End) ==> s is IfThenElse && sr is Skip && n == q + 1 - start)
            &&& (ts[q] == sym(Symbol::Fi) ==> s is IfThenElseFi && sr is Skip && expr_at(
                ts,
                q + 1,
                expr_tokens(s->IfThenElseFi_3).len() as int,
                s->IfThenElseFi_3,
                0,
            ) && n == q + 1 + expr_tokens(s->IfThenElseFi_3).len() - start)
            &&& (ts[q] == sym(Symbol::Else) ==> stmt_at(ts, q + 1, kb, sr) && q + 1 + kb < ts.len()
                && (s is IfThenElse ==> ts[q + 1 + kb] == sym(Symbol::End) && n == q + 2 + kb - start)
                && (s is IfThenElseFi ==> ts[q + 1 + kb] == sym(Symbol::Fi) && expr_at(
                ts,
                q + 2 + kb,
                expr_tokens(s->IfThenElseFi_3).len() as int,
                s->IfThenElseFi_3,
                0,
            ) && n == q + 2 + kb + expr_tokens(s->IfThenElseFi_3).len() - start))
            &&& (ts[q] == sym(Symbol::End) || ts[q] == sym(Symbol::Fi) || ts[q] == sym(Symbol::Else))
        }),
{
    let t = ts.subrange(start, start + n);
    lemma_closer(Symbol::End);
    lemma_closer(Symbol::Fi);
    lemma_closer(Symbol::Else);
    lemma_closer(Symbol::Then);
    match s {
        StmtV::IfThenElseFi(e, sl, sr, er) => {
            let ke = expr_tokens(e).len() as int;
            let kr = expr_tokens(er).len() as int;
            lemma_first_token(er);
            if *sr is Skip && exists|a: Seq<TokenV>|
                #![trigger if_fi_tokens(e, a, er)]
                spells(*sl, a) && t == if_fi_tokens(e, a, er) {
                let a = choose|a: Seq<TokenV>|
                    #![trigger if_fi_tokens(e, a, er)]
                    spells(*sl, a) && t == if_fi_tokens(e, a, er);
                let ka = a.len() as int;
                lemma_piece(ts, start, t, 1, ke);
                assert(t.subrange(1, 1 + ke) =~= expr_tokens(e));
                lemma_piece(ts, start, t, 1 + ke, 1);
                lemma_piece(ts, start, t, 2 + ke, ka);
                assert(t.subrange(2 + ke, 2 + ke + ka) =~= a);
                lemma_piece(ts, start, t, 2 + ke + ka, 1);
                lemma_piece(ts, start, t, 3 + ke + ka, kr);
                assert(t.subrange(3 + ke + ka, 3 + ke + ka + kr) =~= expr_tokens(er));
                lemma_enclosed(ts, start + 1, e);
                lemma_expr_end(ts, start + 3 + ke + ka, er);
                lemma_spells_head(*sl, a);
                (ka, 0)
            } else {
                let (a, b) = choose|a: Seq<TokenV>, b: Seq<TokenV>|
                    #![trigger if_else_fi_tokens(e, a, b, er)]
                    spells(*sl, a) && spells(*sr, b) && t == if_else_fi_tokens(e, a, b, er);
                let ka = a.len() as int;
                let kb = b.len() as int;
                lemma_piece(ts, start, t, 1, ke);
                assert(t.subrange(1, 1 + ke) =~= expr_tokens(e));
                lemma_piece(ts, start, t, 1 + ke, 1);
                lemma_piece(ts, start, t, 2 + ke, ka);
                assert(t.subrange(2 + ke, 2 + ke + ka) =~= a);
                lemma_piece(ts, start, t, 2 + ke + ka, 1);
                lemma_piece(ts, start, t, 3 + ke + ka, kb);
                assert(t.subrange(3 + ke + ka, 3 + ke + ka + kb) =~= b);
                lemma_piece(ts, start, t, 3 + ke + ka + kb, 1);
                lemma_piece(ts, start, t, 4 + ke + ka + kb, kr);
                assert(t.subrange(4 + ke + ka + kb, 4 + ke + ka + kb + kr) =~= expr_tokens(er));
                lemma_enclosed(ts, start + 1, e);
                lemma_expr_end(ts, start + 4 + ke + ka + kb, er);
                lemma_spells_head(*sl, a);
                lemma_spells_head(*sr, b);
                (ka, kb)
            }
        },
        _ => (0, 0),
    }
}

/// The parts of a loop spelled at `start`: the lengths of its forward body
/// (0 when left out) and of its loop body, and what stands around them.
#[verifier::rlimit(100)]
proof fn lemma_from_parts(ts: Seq<TokenV>, start: int, n: int, s: StmtV) -> (r: (int, int))
    requires
        single_at(ts, start, n, s),
        s is FromDoLoopUntil,
    ensures
        ({
            let el = s->FromDoLoopUntil_0;
            let sl = *s->FromDoLoopUntil_1;
            let sr = *s->FromDoLoopUntil_2;
            let er = s->FromDoLoopUntil_3;
            let ke = expr_tokens(el).len() as int;
            let kr = expr_tokens(er).len() as int;
            let q = start + 1 + ke;
            let (ka, kb) = r;
            &&& expr_at(ts, start + 1, ke, el, 0)
            &&& q < ts.len()
            &&& (ts[q] == sym(Symbol::Do) || ts[q] == sym(Symbol::Loop))
            &&& (ts[q] == sym(Symbol::Loop) ==> sl is Skip && stmt_at(ts, q + 1, kb, sr) && ts[q + 1
                + kb] == sym(Symbol::Until) && expr_at(ts, q + 2 + kb, kr, er, 0) && n == q + 2 + kb
                + kr - start)
            &&& (ts[q] == sym(Symbol::Do) ==> stmt_at(ts, q + 1, ka, sl) && ts[q + 1 + ka] == sym(
                Symbol::Loop,
            ) && stmt_at(ts, q + 2 + ka, kb, sr) && ts[q + 2 + ka + kb] == sym(Symbol::Until)
                && expr_at(ts, q + 3 + ka + kb, kr, er, 0) && n == q + 3 + ka + kb + kr - start)
        }),
{
    let t = ts.subrange(start, start + n);
    lemma_closer(Symbol::Do);
    lemma_closer(Symbol::Loop);
    lemma_closer(Symbol::Until);
    let el = s->FromDoLoopUntil_0;
    let sl = *s->FromDoLoopUntil_1;
    let sr = *s->FromDoLoopUntil_2;
    let er = s->FromDoLoopUntil_3;
    let ke = expr_tokens(el).len() as int;
    let kr = expr_tokens(er).len() as int;
    lemma_first_token(er);
    if sl is Skip && exists|b: Seq<TokenV>|
        #![trigger from_loop_tokens(el, b, er)]
        spells(sr, b) && t == from_loop_tokens(el, b, er) {
        let b = choose|b: Seq<TokenV>|
            #![trigger from_loop_tokens(el, b, er)]
            spells(sr, b) && t == from_loop_tokens(el, b, er);
        let kb = b.len() as int;
        lemma_piece(ts, start, t, 1, ke);
        assert(t.subrange(1, 1 + ke) =~= expr_tokens(el));
        lemma_piece(ts, start, t, 1 + ke, 1);
        lemma_piece(ts, start, t, 2 + ke, kb);
        assert(t.subrange(2 + ke, 2 + ke + kb) =~= b);
        lemma_piece(ts, start, t, 2 + ke + kb, 1);
        lemma_piece(ts, start, t, 3 + ke + kb, kr);
        assert(t.subrange(3 + ke + kb, 3 + ke + kb + kr) =~= expr_tokens(er));
        lemma_enclosed(ts, start + 1, el);
        lemma_expr_end(ts, start + 3 + ke + kb, er);
        lemma_spells_head(sr, b);
        (0, kb)
    } else {
        let (a, b) = choose|a: Seq<TokenV>, b: Seq<TokenV>|
            #![trigger from_do_loop_tokens(el, a, b, er)]
            spells(sl, a) && spells(sr, b) && t == from_do_loop_tokens(el, a, b, er);
        let ka = a.len() as int;
        let kb = b.len() as int;
        lemma_piece(ts, start, t, 1, ke);
        assert(t.subrange(1, 1 + ke) =~= expr_tokens(el));
        lemma_piece(ts, start, t, 1 + ke, 1);
        lemma_piece(ts, start, t, 2 + ke, ka);
        assert(t.subrange(2 + ke, 2 + ke + ka) =~= a);
        lemma_piece(ts, start, t, 2 + ke + ka, 1);
        lemma_piece(ts, start, t, 3 + ke + ka, kb);
        assert(t.subrange(3 + ke + ka, 3 + ke + ka + kb) =~= b);
        lemma_piece(ts, start, t, 3 + ke + ka + kb, 1);
        lemma_piece(ts, start, t, 4 + ke + ka + kb, kr);
        assert(t.subrange(4 + ke + ka + kb, 4 + ke + ka + kb + kr) =~= expr_tokens(er));
        lemma_enclosed(ts, start + 1, el);
        lemma_expr_end(ts, start + 4 + ke + ka + kb, er);
        lemma_spells_head(sl, a);
        lemma_spells_head(sr, b);
        (ka, kb)
    }
}

/// Whether the `k` tokens at `p` spell the base type `it`, of a size a
/// literal can give.
pub open spec fn inner_at(ts: Seq<TokenV>, p: int, k: int, it: InnerType) -> bool {
    0 <= p && 0 < k && p + k <= ts.len() && inner_spelled(it, ts.subrange(p, p + k)) && type_ok(
        Type { is_const: false, inner: it },
    )
}

/// Whether the `k` tokens at `p` spell the type `ty`.
pub open spec fn type_at(ts: Seq<TokenV>, p: int, k: int, ty: Type) -> bool {
    0 <= p && 0 < k && p + k <= ts.len() && type_spelled(ty, ts.subrange(p, p + k)) && type_ok(ty)
}

/// Whether the `k` tokens at `p` spell the declaration `tv`.
pub open spec fn decl_at(ts: Seq<TokenV>, p: int, k: int, tv: (Type, Seq<char>)) -> bool {
    0 <= p && 0 < k && p + k <= ts.len() && decl_spelled(tv, ts.subrange(p, p + k)) && type_ok(tv.0)
}

proof fn lemma_inner_parts(ts: Seq<TokenV>, p: int, k: int, it: InnerType)
    requires
        inner_at(ts, p, k, it),
    ensures
        it is Int ==> k == 1 && ts[p] == sym(Symbol::Int),
        it is List ==> k == 1 && ts[p] == sym(Symbol::List),
        it matches InnerType::Array(n) ==> ts[p] == sym(Symbol::Array) && ts[p + 1] == sym(
            Symbol::LAngleBracket,
        ) && ts[p + k - 1] == sym(Symbol::RAngleBracket) && ((k == 4 && ts[p + 2] is Literal
            && ts[p + 2]->Literal_0 as int == n) || (k == 5 && ts[p + 2] == sym(Symbol::Minus)
            && ts[p + 3] is Literal && -(ts[p + 3]->Literal_0 as int) == n)),
{
    let t = ts.subrange(p, p + k);
    assert(ts[p] == t[0]);
    if let InnerType::Array(n) = it {
        assert(ts[p + 1] == t[1]);
        assert(ts[p + k - 1] == t[k - 1]);
        let lit = t.subrange(2, k - 1);
        assert(ts[p + 2] == t[2]);
        assert(t[2] == lit[0]);
        if lit.len() == 2 {
            assert(ts[p + 3] == t[3]);
            assert(t[3] == lit[1]);
        }
    }
}

proof fn lemma_type_parts(ts: Seq<TokenV>, p: int, k: int, ty: Type)
    requires
        type_at(ts, p, k, ty),
    ensures
        ty.is_const ==> ts[p] == sym(Symbol::Const) && k > 1 && inner_at(ts, p + 1, k - 1, ty.inner),
        !ty.is_const ==> ts[p] != sym(Symbol::Const) && inner_at(ts, p, k, ty.inner),
{
    let t = ts.subrange(p, p + k);
    assert(ts[p] == t[0]);
    if ty.is_const {
        assert(t.skip(1) =~= ts.subrange(p + 1, p + k));
        assert(t.skip(1).len() > 0);
    } else {
        lemma_inner_parts(ts, p, k, ty.inner);
    }
}

proof fn lemma_decl_parts(ts: Seq<TokenV>, p: int, k: int, tv: (Type, Seq<char>))
    requires
        decl_at(ts, p, k, tv),
    ensures
        k > 1,
        type_at(ts, p, k - 1, tv.0),
        ts[p + k - 1] == TokenV::Name(tv.1),
{
    let t = ts.subrange(p, p + k);
    assert(t.drop_last() =~= ts.subrange(p, p + k - 1));
    assert(ts[p + k - 1] == t[k - 1]);
    if k == 1 {
        assert(t.drop_last().len() == 0);
        if tv.0.is_const {
        } else {
            assert(!inner_spelled(tv.0.inner, t.drop_last()));
        }
    }
}

/// The parts of a local block spelled at `start`: the lengths of its
/// first declaration, its body and its second declaration.
#[verifier::rlimit(100)]
proof fn lemma_local_parts(ts: Seq<TokenV>, start: int, n: int, s: StmtV) -> (r: (int, int, int))
    requires
        single_at(ts, start, n, s),
        s is LocalDelocal,
    ensures
        ({
            let tl = s->LocalDelocal_0;
            let el = s->LocalDelocal_1;
            let b = *s->LocalDelocal_2;
            let tr = s->LocalDelocal_3;
            let er = s->LocalDelocal_4;
            let (ka, kc, kd) = r;
            let ke = expr_tokens(el).len() as int;
            let kr = expr_tokens(er).len() as int;
            let x = start + 2 + ka + ke + kc;
            &&& decl_at(ts, start + 1, ka, tl)
            &&& ts[start + 1 + ka] == sym(Symbol::Equal)
            &&& expr_at(ts, start + 2 + ka, ke, el, 0)
            &&& stmt_at(ts, start + 2 + ka + ke, kc, b)
            &&& ts[x] == sym(Symbol::Delocal)
            &&& decl_at(ts, x + 1, kd, tr)
            &&& ts[x + 1 + kd] == sym(Symbol::Equal)
            &&& expr_at(ts, x + 2 + kd, kr, er, 0)
            &&& n == x + 2 + kd + kr - start
        }),
{
    let t = ts.subrange(start, start + n);
    let tl = s->LocalDelocal_0;
    let el = s->LocalDelocal_1;
    let b = *s->LocalDelocal_2;
    let tr = s->LocalDelocal_3;
    let er = s->LocalDelocal_4;
    let (a, c, d) = choose|a: Seq<TokenV>, c: Seq<TokenV>, d: Seq<TokenV>|
        #![trigger local_tokens(a, el, c, d, er)]
        decl_spelled(tl, a) && spells(b, c) && decl_spelled(tr, d) && t == local_tokens(
            a,
            el,
            c,
            d,
            er,
        );
    let ka = a.len() as int;
    let kc = c.len() as int;
    let kd = d.len() as int;
    let ke = expr_tokens(el).len() as int;
    let kr = expr_tokens(er).len() as int;
    lemma_first_token(el);
    lemma_first_token(er);
    lemma_spells_head(b, c);
    lemma_closer(Symbol::Delocal);
    if ka == 0 {
        assert(!decl_spelled(tl, a));
    }
    if kd == 0 {
        assert(!decl_spelled(tr, d));
    }
    let x = 2 + ka + ke + kc;
    lemma_piece(ts, start, t, 1, ka);
    assert(t.subrange(1, 1 + ka) =~= a);
    lemma_piece(ts, start, t, 1 + ka, 1);
    lemma_piece(ts, start, t, 2 + ka, ke);
    assert(t.subrange(2 + ka, 2 + ka + ke) =~= expr_tokens(el));
    lemma_piece(ts, start, t, 2 + ka + ke, kc);
    assert(t.subrange(2 + ka + ke, 2 + ka + ke + kc) =~= c);
    lemma_piece(ts, start, t, x, 1);
    lemma_piece(ts, start, t, x + 1, kd);
    assert(t.subrange(x + 1, x + 1 + kd) =~= d);
    lemma_piece(ts, start, t, x + 1 + kd, 1);
    lemma_piece(ts, start, t, x + 2 + kd, kr);
    assert(t.subrange(x + 2 + kd, x + 2 + kd + kr) =~= expr_tokens(er));
    assert(ts[start + 2 + ka + ke] == t[2 + ka + ke]);
    assert(t[2 + ka + ke] == c[0]);
    lemma_expr_end(ts, start + 2 + ka, el);
    lemma_expr_end(ts, start + x + 2 + kd, er);
    (ka, kc, kd)
}

/// Whether the `k` tokens at `p` spell the bodies `s` and `i` of an
/// involutive block, after which stands no token that could continue them.
pub open spec fn bodies_at(ts: Seq<TokenV>, p: int, k: int, s: StmtV, i: StmtV) -> bool {
    0 <= p && 0 < k && p + k <= ts.len() && bodies_spelled(s, i, ts.subrange(p, p + k)) && stmt_wf(s)
        && stmt_wf(i) && stmt_ok(s) && stmt_ok(i) && follows_ok(ts, p + k)
}

proof fn lemma_bodies_parts(ts: Seq<TokenV>, p: int, k: int, s: StmtV, i: StmtV) -> (ka: int)
    requires
        bodies_at(ts, p, k, s, i),
    ensures
        ts[p] == sym(Symbol::With) ==> s is Skip && stmt_at(ts, p + 1, k - 1, i),
        ts[p] != sym(Symbol::With) ==> 0 < ka && stmt_at(ts, p, ka, s) && ts[p + ka] == sym(
            Symbol::With,
        ) && stmt_at(ts, p + ka + 1, k - ka - 1, i),
{
    let t = ts.subrange(p, p + k);
    lemma_closer(Symbol::With);
    assert(ts[p] == t[0]);
    if s is Skip && exists|b: Seq<TokenV>|
        #![trigger seq![sym(Symbol::With)] + b]
        spells(i, b) && t == seq![sym(Symbol::With)] + b {
        let b = choose|b: Seq<TokenV>|
            #![trigger seq![sym(Symbol::With)] + b]
            spells(i, b) && t == seq![sym(Symbol::With)] + b;
        lemma_spells_head(i, b);
        lemma_piece(ts, p, t, 1, k - 1);
        assert(t.subrange(1, k) =~= b);
        0
    } else {
        let (a, b) = choose|a: Seq<TokenV>, b: Seq<TokenV>|
            #![trigger a + seq![sym(Symbol::With)] + b]
            spells(s, a) && spells(i, b) && t == a + seq![sym(Symbol::With)] + b;
        lemma_spells_head(s, a);
        lemma_spells_head(i, b);
        let ka = a.len() as int;
        lemma_piece(ts, p, t, 0, ka);
        assert(t.subrange(0, ka) =~= a);
        lemma_piece(ts, p, t, ka, 1);
        lemma_piece(ts, p, t, ka + 1, k - ka - 1);
        assert(t.subrange(ka + 1, k) =~= b);
        assert(t[0] == a[0]);
        ka
    }
}

// ---------------------------------------------------------------------
// The parser
// ---------------------------------------------------------------------
/// A strict consumer of tokens, front to back.
#[derive(Debug)]
pub struct Parser {
    tokens: Vec<Token>,
    pos: usize,
}

impl Parser {
    /// The tokens, consumed or not.
    pub closed spec fn input(&self) -> Seq<TokenV> {
        self.tokens@.map_values(|t: Token| t@)
    }

    /// How many tokens have been consumed.
    pub closed spec fn position(&self) -> nat {
        self.pos as nat
    }

    pub open spec fn wf(&self) -> bool {
        self.position() <= self.input().len()
    }

    pub open spec fn remaining(&self) -> nat {
        (self.input().len() - self.position()) as nat
    }

    /// `next` reads the same tokens as `prev`, from the same position or further.
    pub open spec fn advanced(prev: Parser, next: Parser) -> bool {
        next.input() == prev.input() && prev.position() <= next.position() && next.wf()
    }

    /// The tokens consumed between two states.
    pub open spec fn consumed(prev: Parser, next: Parser) -> Seq<TokenV> {
        next.input().subrange(prev.position() as int, next.position() as int)
    }

    /// A parser at the start of `tokens`.
    pub fn new(tokens: Vec<Token>) -> (r: Self)
        ensures
            r.input() == tokens@.map_values(|t: Token| t@),
            r.position() == 0,
            r.wf(),
    {
        Parser { tokens, pos: 0 }
    }

    /// Whether all tokens are consumed.
    pub fn is_done(&self) -> (r: bool)
        requires
            self.wf(),
        ensures
            r == (self.position() == self.input().len()),
    {
        self.pos >= self.tokens.len()
    }

    fn peek(&self) -> (r: Option<&Token>)
        requires
            self.wf(),
        ensures
            match r {
                Some(t) => self.position() < self.input().len() && t@ == self.input()[self.position() as int],
                None => self.position() == self.input().len(),
            },
    {
        if self.pos < self.tokens.len() {
            Some(&self.tokens[self.pos])
        } else {
            None
        }
    }

    /// Whether the next token is the mark `s`.
    fn at(&self, s: Symbol) -> (r: bool)
        requires
            self.wf(),
        ensures
            r == (self.position() < self.input().len() && self.input()[self.position() as int] == sym(s)),
    {
        match self.peek() {
            Some(Token::Symbol(t)) => *t == s,
            _ => false,
        }
    }

    /// The next token, or an error where none is left.
    fn seek_front(&self) -> (r: Result<&Token, ParseError>)
        requires
            self.wf(),
        ensures
            match r {
                Ok(t) => self.position() < self.input().len() && t@ == self.input()[self.position() as int],
                Err(e) => e is UnexpectedEnd && self.position() >= self.input().len(),
            },
    {
        match self.peek() {
            Some(t) => Ok(t),
            None => Err(ParseError::UnexpectedEnd),
        }
    }

    /// Consumes the next token.
    fn pop_front(&mut self) -> (r: Result<Token, ParseError>)
        requires
            old(self).wf(),
        ensures
            Parser::advanced(*old(self), *final(self)),
            match r {
                Ok(t) => final(self).position() == old(self).position() + 1 && t@ == old(
                    self,
                ).input()[old(self).position() as int],
                Err(e) => e is UnexpectedEnd && old(self).position() == old(self).input().len(),
            },
    {
        if self.pos < self.tokens.len() {
            let t = self.tokens[self.pos].clone();
            self.pos = self.pos + 1;
            Ok(t)
        } else {
            Err(ParseError::UnexpectedEnd)
        }
    }

    /// Consumes the next token, which must be the mark `s`.
    fn pop_assert(&mut self, s: Symbol) -> (r: Result<(), ParseError>)
        requires
            old(self).wf(),
        ensures
            Parser::advanced(*old(self), *final(self)),
            r is Ok ==> final(self).position() == old(self).position() + 1 && old(self).input()[old(
                self,
            ).position() as int] == sym(s),
            old(self).position() == old(self).input().len() ==> r matches Err(ParseError::UnexpectedEnd),
            old(self).position() < old(self).input().len() && old(self).input()[old(
                self,
            ).position() as int] == sym(s) ==> r is Ok,
    {
        let t = self.pop_front()?;
        match t {
            Token::Symbol(x) => {
                if x == s {
                    Ok(())
                } else {
                    Err(ParseError::UnexpectedToken(Token::Symbol(x)))
                }
            },
            _ => Err(ParseError::UnexpectedToken(t)),
        }
    }

    /// Parses an expression whose operators bind at least as tight as
    /// `min_prec`. The tokens consumed spell the result, which respects
    /// precedence, and no such operator is left at the front. Whenever the
    /// tokens at the front spell such an expression, followed by neither
    /// such an operator nor an opening bracket, that expression is the result.
    pub fn parse_expr(&mut self, min_prec: u8) -> (r: Result<Expr, ParseError>)
        requires
            old(self).wf(),
        ensures
            Parser::advanced(*old(self), *final(self)),
            r matches Ok(e) ==> final(self).position() > old(self).position() && Parser::consumed(
                *old(self),
                *final(self),
            ) == expr_tokens(e@) && prec_ok(e@) && top_prec_at_least(e@, min_prec as int)
                && !binop_at_least(
                final(self).input(),
                final(self).position() as int,
                min_prec as int,
            ),
            forall|e: ExprV, n: int|
                #[trigger] expr_at(old(self).input(), old(self).position() as int, n, e, min_prec as int)
                    ==> (r matches Ok(x) && x@ == e && final(self).position() == old(self).position() + n),
        decreases old(self).remaining(), 0nat,
    {
        let ghost start = self.pos as int;
        let ghost ts = self.input();
        let ghost m = min_prec as int;
        let ghost wit = exists|e: ExprV, n: int| #[trigger] expr_at(ts, start, n, e, m);
        let ghost pick = choose|e: ExprV, n: int| #[trigger] expr_at(ts, start, n, e, m);
        let ghost e0 = pick.0;
        let ghost n0 = pick.1;
        let t = self.pop_front()?;
        let mut first = match self.parse_primary(t, Ghost(start), Ghost(m)) {
            Ok(f) => f,
            Err(err) => {
                return Err(err);
            },
        };
        assert forall|e: ExprV, n: int| expr_at(ts, start, n, e, m) implies is_left_sub(first@, e) by {
            lemma_leftmost(e);
        }
        loop
            invariant
                self.wf(),
                self.input() == ts,
                old(self).input() == ts,
                start == old(self).position(),
                m == min_prec as int,
                wit == (exists|e: ExprV, n: int| #[trigger] expr_at(ts, start, n, e, m)),
                wit ==> expr_at(ts, start, n0, e0, m),
                self.position() > start,
                ts.subrange(start, self.pos as int) == expr_tokens(first@),
                prec_ok(first@),
                top_prec_at_least(first@, min_prec as int),
                first@ matches ExprV::BinOp(_, fop, _) ==> !binop_at_least(
                    ts,
                    self.pos as int,
                    prec(fop) as int,
                ),
                forall|e: ExprV, n: int| expr_at(ts, start, n, e, m) ==> is_left_sub(first@, e),
            ensures
                self.wf(),
                self.input() == ts,
                self.position() > start,
                ts.subrange(start, self.pos as int) == expr_tokens(first@),
                prec_ok(first@),
                top_prec_at_least(first@, min_prec as int),
                !binop_at_least(ts, self.pos as int, min_prec as int),
                forall|e: ExprV, n: int|
                    expr_at(ts, start, n, e, m) ==> first@ == e && self.pos == start + n,
            decreases self.remaining(),
        {
            let d_opt = match self.peek() {
                None => None,
                Some(front) => front.detail(),
            };
            if d_opt.is_none() || d_opt.unwrap().prec < min_prec {
                assert forall|e: ExprV, n: int| expr_at(ts, start, n, e, m) implies first@ == e
                    && self.pos == start + n by {
                    lemma_step(ts, start, n, e, m, first@);
                }
                break;
            }
            let d = d_opt.unwrap();
            let ghost mid = self.pos as int;
            let ghost fv = first@;
            self.pop_front()?;
            let next_min = match d.direction {
                Direction::Left => d.prec + 1,
                Direction::Right => d.prec,
            };
            proof {
                if wit {
                    lemma_step(ts, start, n0, e0, m, fv);
                    if fv == e0 {
                        assert(false);
                    }
                }
            }
            let second = match self.parse_expr(next_min) {
                Ok(x) => x,
                Err(err) => {
                    return Err(err);
                },
            };
            first = Expr::BinOp(Box::new(first), d.op, Box::new(second));
            assert(ts.subrange(start, self.pos as int) =~= ts.subrange(start, mid) + seq![ts[mid]]
                + ts.subrange(mid + 1, self.pos as int));
            assert(ts.subrange(start, self.pos as int) =~= expr_tokens(first@));
            assert forall|e: ExprV, n: int| expr_at(ts, start, n, e, m) implies is_left_sub(
                first@,
                e,
            ) by {
                lemma_step(ts, start, n, e, m, fv);
            }
        }
        Ok(first)
    }

    /// The operand at the front of an expression, after its first token `t`
    /// at `start`: everything up to the first binary operator.
    #[verifier::rlimit(100)]
    fn parse_primary(&mut self, t: Token, Ghost(start): Ghost<int>, Ghost(m): Ghost<int>) -> (r: Result<
        Expr,
        ParseError,
    >)
        requires
            old(self).wf(),
            0 <= start,
            old(self).position() == start + 1,
            t@ == old(self).input()[start],
        ensures
            Parser::advanced(*old(self), *final(self)),
            r matches Ok(f) ==> old(self).input().subrange(start, final(self).position() as int)
                == expr_tokens(f@) && prec_ok(f@) && !(f@ is BinOp),
            forall|e: ExprV, n: int|
                #[trigger] expr_at(old(self).input(), start, n, e, m) ==> (r matches Ok(f) && f@
                    == leftmost(e) && final(self).position() == start + expr_tokens(
                    leftmost(e),
                ).len()),
        decreases old(self).remaining(), 2nat,
    {
        let ghost ts = self.input();
        let ghost wit = exists|e: ExprV, n: int| #[trigger] expr_at(ts, start, n, e, m);
        let ghost pick = choose|e: ExprV, n: int| #[trigger] expr_at(ts, start, n, e, m);
        let ghost e0 = pick.0;
        let ghost n0 = pick.1;
        let ghost lm = leftmost(e0);
        let ghost k = expr_tokens(lm).len() as int;
        proof {
            if wit {
                lemma_prim(ts, start, n0, e0, m);
                lemma_first_token(lm);
                assert(ts[start] == expr_tokens(lm)[0]);
            }
        }
        match t {
            Token::Literal(x) => {
                let f = Expr::Const(x);
                assert(ts.subrange(start, self.pos as int) =~= expr_tokens(f@));
                assert forall|e: ExprV, n: int| expr_at(ts, start, n, e, m) implies f@ == leftmost(e)
                    && self.pos == start + expr_tokens(leftmost(e)).len() by {
                    lemma_prim(ts, start, n, e, m);
                    lemma_first_token(leftmost(e));
                    assert(ts[start] == ts.subrange(start, start + expr_tokens(leftmost(e)).len())[0]);
                }
                Ok(f)
            },
            Token::Name(x) => {
                if self.at(Symbol::LBracket) {
                    self.pop_assert(Symbol::LBracket)?;
                    let ghost i0 = *lm->Indexed_1;
                    proof {
                        if wit {
                            assert(ts[start + 1] == ts.subrange(start, start + k)[1]);
                            assert(lm is Indexed);
                            assert(ts.subrange(start + 2, start + 2 + expr_tokens(i0).len()) =~= ts.subrange(
                                start,
                                start + k,
                            ).subrange(2, k - 1));
                            lemma_first_token(i0);
                            assert(ts[start + 2 + expr_tokens(i0).len()] == ts.subrange(start, start + k)[k - 1]);
                            assert(ts.subrange(start, start + k)[k - 1] == sym(Symbol::RBracket));
                            assert(k == expr_tokens(i0).len() + 3);
                            assert(expr_tokens(lm).subrange(2, k - 1) =~= expr_tokens(i0));
                            lemma_enclosed(ts, start + 2, i0);
                        }
                    }
                    let e = match self.parse_expr(0) {
                        Ok(e) => e,
                        Err(err) => {
                            return Err(err);
                        },
                    };
                    proof {
                        if wit {
                            assert(ts[self.pos as int] == ts.subrange(start, start + k)[k - 1]);
                        }
                    }
                    self.pop_assert(Symbol::RBracket)?;
                    let f = Expr::Indexed(Variable::new(x), Box::new(e));
                    assert(ts.subrange(start, self.pos as int) =~= expr_tokens(f@));
                    assert forall|e: ExprV, n: int| expr_at(ts, start, n, e, m) implies f@ == leftmost(
                        e,
                    ) && self.pos == start + expr_tokens(leftmost(e)).len() by {
                        lemma_prim(ts, start, n, e, m);
                        let l = leftmost(e);
                        let kl = expr_tokens(l).len() as int;
                        lemma_first_token(l);
                        assert(ts[start] == ts.subrange(start, start + kl)[0]);
                        if kl > 1 {
                            assert(ts[start + 1] == ts.subrange(start, start + kl)[1]);
                        }
                        assert(l is Indexed);
                        let i = *l->Indexed_1;
                        lemma_first_token(i);
                        assert(ts.subrange(start + 2, start + 2 + expr_tokens(i).len()) =~= ts.subrange(
                            start,
                            start + kl,
                        ).subrange(2, kl - 1));
                        assert(ts[start + 2 + expr_tokens(i).len()] == ts.subrange(start, start + kl)[kl - 1]);
                        assert(ts.subrange(start, start + kl)[kl - 1] == sym(Symbol::RBracket));
                        assert(kl == expr_tokens(i).len() + 3);
                        assert(expr_tokens(l).subrange(2, kl - 1) =~= expr_tokens(i));
                        lemma_enclosed(ts, start + 2, i);
                    }
                    Ok(f)
                } else {
                    let f = Expr::Variable(Variable::new(x));
                    assert(ts.subrange(start, self.pos as int) =~= expr_tokens(f@));
                    assert forall|e: ExprV, n: int| expr_at(ts, start, n, e, m) implies f@ == leftmost(
                        e,
                    ) && self.pos == start + expr_tokens(leftmost(e)).len() by {
                        lemma_prim(ts, start, n, e, m);
                        let l = leftmost(e);
                        let kl = expr_tokens(l).len() as int;
                        lemma_first_token(l);
                        assert(ts[start] == ts.subrange(start, start + kl)[0]);
                        if l is Indexed {
                            assert(ts[start + 1] == ts.subrange(start, start + kl)[1]);
                        }
                    }
                    Ok(f)
                }
            },
            Token::Symbol(Symbol::Nil) => {
                let f = Expr::Nil;
                assert(ts.subrange(start, self.pos as int) =~= expr_tokens(f@));
                assert forall|e: ExprV, n: int| expr_at(ts, start, n, e, m) implies f@ == leftmost(e)
                    && self.pos == start + expr_tokens(leftmost(e)).len() by {
                    lemma_prim(ts, start, n, e, m);
                    lemma_first_token(leftmost(e));
                    assert(ts[start] == ts.subrange(start, start + expr_tokens(leftmost(e)).len())[0]);
                }
                Ok(f)
            },
            Token::Symbol(Symbol::LParen) => {
                let ghost x0 = *lm->Wrapped_0;
                proof {
                    if wit {
                        assert(lm is Wrapped);
                        lemma_first_token(x0);
                        assert(ts.subrange(start + 1, start + 1 + expr_tokens(x0).len()) =~= ts.subrange(
                            start,
                            start + k,
                        ).subrange(1, k - 1));
                        assert(ts[start + 1 + expr_tokens(x0).len()] == ts.subrange(start, start + k)[k - 1]);
                        assert(ts.subrange(start, start + k)[k - 1] == sym(Symbol::RParen));
                        assert(k == expr_tokens(x0).len() + 2);
                        assert(expr_tokens(lm).subrange(1, k - 1) =~= expr_tokens(x0));
                        lemma_enclosed(ts, start + 1, x0);
                    }
                }
                let e = match self.parse_expr(0) {
                    Ok(e) => e,
                    Err(err) => {
                        return Err(err);
                    },
                };
                proof {
                    if wit {
                        assert(ts[self.pos as int] == ts.subrange(start, start + k)[k - 1]);
                    }
                }
                self.pop_assert(Symbol::RParen)?;
                let f = Expr::Wrapped(Box::new(e));
                assert(ts.subrange(start, self.pos as int) =~= expr_tokens(f@));
                assert forall|e: ExprV, n: int| expr_at(ts, start, n, e, m) implies f@ == leftmost(e)
                    && self.pos == start + expr_tokens(leftmost(e)).len() by {
                    lemma_prim(ts, start, n, e, m);
                    let l = leftmost(e);
                    let kl = expr_tokens(l).len() as int;
                    lemma_first_token(l);
                    assert(ts[start] == ts.subrange(start, start + kl)[0]);
                    let x = *l->Wrapped_0;
                    lemma_first_token(x);
                    assert(ts.subrange(start + 1, start + 1 + expr_tokens(x).len()) =~= ts.subrange(
                        start,
                        start + kl,
                    ).subrange(1, kl - 1));
                    assert(ts[start + 1 + expr_tokens(x).len()] == ts.subrange(start, start + kl)[kl - 1]);
                    assert(ts.subrange(start, start + kl)[kl - 1] == sym(Symbol::RParen));
                    assert(kl == expr_tokens(x).len() + 2);
                    assert(expr_tokens(l).subrange(1, kl - 1) =~= expr_tokens(x));
                    lemma_enclosed(ts, start + 1, x);
                }
                Ok(f)
            },
            Token::Symbol(Symbol::LBracket) => {
                proof {
                    if wit {
                        assert(lm is Array);
                        assert(array_at(ts, start, k, lm->Array_0));
                    }
                }
                let f = match self.parse_array_rest(Ghost(start)) {
                    Ok(f) => f,
                    Err(err) => {
                        return Err(err);
                    },
                };
                assert forall|e: ExprV, n: int| expr_at(ts, start, n, e, m) implies f@ == leftmost(e)
                    && self.pos == start + expr_tokens(leftmost(e)).len() by {
                    lemma_prim(ts, start, n, e, m);
                    let l = leftmost(e);
                    lemma_first_token(l);
                    assert(ts[start] == ts.subrange(start, start + expr_tokens(l).len())[0]);
                    assert(array_at(ts, start, expr_tokens(l).len() as int, l->Array_0));
                }
                Ok(f)
            },
            Token::Symbol(s @ (Symbol::Empty | Symbol::Size)) => {
                proof {
                    if wit {
                        assert(ts[start + 1] == ts.subrange(start, start + k)[1]);
                        assert(ts[start + 2] == ts.subrange(start, start + k)[2]);
                    }
                }
                self.pop_assert(Symbol::LParen)?;
                let x = self.parse_variable()?;
                proof {
                    if wit {
                        assert(ts[start + 3] == ts.subrange(start, start + k)[3]);
                    }
                }
                self.pop_assert(Symbol::RParen)?;
                let f = match s {
                    Symbol::Empty => Expr::Empty(x),
                    _ => Expr::Size(x),
                };
                assert(ts.subrange(start, self.pos as int) =~= expr_tokens(f@));
                assert forall|e: ExprV, n: int| expr_at(ts, start, n, e, m) implies f@ == leftmost(e)
                    && self.pos == start + expr_tokens(leftmost(e)).len() by {
                    lemma_prim(ts, start, n, e, m);
                    let l = leftmost(e);
                    let kl = expr_tokens(l).len() as int;
                    lemma_first_token(l);
                    assert(ts[start] == ts.subrange(start, start + kl)[0]);
                    assert(ts[start + 2] == ts.subrange(start, start + kl)[2]);
                }
                Ok(f)
            },
            Token::Symbol(s @ (Symbol::Exclamation | Symbol::Minus)) => {
                let op = match s {
                    Symbol::Exclamation => UnrOp::Not,
                    _ => UnrOp::Negative,
                };
                let ghost x0 = *lm->UnrOp_1;
                proof {
                    if wit {
                        assert(lm is UnrOp);
                        lemma_first_token(x0);
                        assert(ts.subrange(start + 1, start + k) =~= ts.subrange(start, start + k).subrange(1, k));
                        assert(k == expr_tokens(x0).len() + 1);
                        assert(expr_tokens(lm).subrange(1, k) =~= expr_tokens(x0));
                        lemma_unary_operand(ts, start + 1, x0);
                    }
                }
                let e = match self.parse_expr(255) {
                    Ok(e) => e,
                    Err(err) => {
                        return Err(err);
                    },
                };
                let f = Expr::UnrOp(op, Box::new(e));
                assert(ts.subrange(start, self.pos as int) =~= expr_tokens(f@));
                assert forall|e: ExprV, n: int| expr_at(ts, start, n, e, m) implies f@ == leftmost(e)
                    && self.pos == start + expr_tokens(leftmost(e)).len() by {
                    lemma_prim(ts, start, n, e, m);
                    let l = leftmost(e);
                    let kl = expr_tokens(l).len() as int;
                    lemma_first_token(l);
                    assert(ts[start] == ts.subrange(start, start + kl)[0]);
                    let x = *l->UnrOp_1;
                    lemma_first_token(x);
                    assert(ts.subrange(start + 1, start + kl) =~= ts.subrange(start, start + kl).subrange(1, kl));
                    assert(kl == expr_tokens(x).len() + 1);
                    assert(expr_tokens(l).subrange(1, kl) =~= expr_tokens(x));
                    lemma_unary_operand(ts, start + 1, x);
                }
                Ok(f)
            },
            _ => {
                Err(ParseError::UnexpectedToken(t))
            },
        }
    }

    /// The rest of an array literal, after its opening bracket at `start`.
    /// Whenever the tokens from `start` spell an array literal, it is the result.
    fn parse_array_rest(&mut self, Ghost(start): Ghost<int>) -> (r: Result<Expr, ParseError>)
        requires
            old(self).wf(),
            0 <= start < old(self).position(),
            old(self).position() == start + 1,
            old(self).input()[start] == sym(Symbol::LBracket),
        ensures
            Parser::advanced(*old(self), *final(self)),
            r matches Ok(e) ==> final(self).input().subrange(start, final(self).position() as int)
                == expr_tokens(e@) && prec_ok(e@) && e@ is Array,
            forall|es: Seq<ExprV>, n: int|
                #[trigger] array_at(old(self).input(), start, n, es) ==> (r matches Ok(x) && x@
                    == ExprV::Array(es) && final(self).position() == start + n),
        decreases old(self).remaining(), 1nat,
    {
        let ghost ts = self.input();
        let ghost wit = exists|es: Seq<ExprV>, n: int| #[trigger] array_at(ts, start, n, es);
        let ghost pick = choose|es: Seq<ExprV>, n: int| #[trigger] array_at(ts, start, n, es);
        let ghost es0 = pick.0;
        let ghost n0 = pick.1;
        proof {
            if wit {
                lemma_array_at(ts, start, n0, es0);
                if es0.len() > 0 {
                    lemma_items_prefix(es0, 1);
                    assert(es0.take(1) =~= seq![es0[0]]);
                    lemma_first_not_closing(es0[0]);
                    assert(ts.subrange(start, start + n0)[1] == items_tokens(es0)[0]);
                    assert(items_tokens(es0)[0] == items_tokens(es0.take(1))[0]);
                }
            }
        }
        let mut items: Vec<Expr> = Vec::new();
        if self.at(Symbol::RBracket) {
            self.pop_assert(Symbol::RBracket)?;
            assert(items@ =~= Seq::<Expr>::empty());
            assert(exprs_view(items@) =~= Seq::<ExprV>::empty());
            assert(items_tokens(exprs_view(items@)) =~= Seq::<TokenV>::empty());
            let r = Expr::Array(items);
            assert(ts.subrange(start, self.pos as int) =~= seq![sym(Symbol::LBracket), sym(Symbol::RBracket)]);
            assert(ts.subrange(start, self.pos as int) =~= expr_tokens(r@));
            assert(items_prec_ok(Seq::<ExprV>::empty()));
            assert(prec_ok(r@));
            assert forall|es: Seq<ExprV>, n: int| array_at(ts, start, n, es) implies r@ == ExprV::Array(es)
                && self.pos == start + n by {
                lemma_array_at(ts, start, n, es);
                if es.len() > 0 {
                    lemma_items_prefix(es, 1);
                    assert(es.take(1) =~= seq![es[0]]);
                    lemma_first_not_closing(es[0]);
                    assert(ts.subrange(start, start + n)[1] == items_tokens(es)[0]);
                    assert(items_tokens(es)[0] == items_tokens(es.take(1))[0]);
                }
                assert(es =~= Seq::<ExprV>::empty());
            }
            return Ok(r);
        }
        proof {
            if wit {
                lemma_items_prefix(es0, 1);
                assert(es0.take(1) =~= seq![es0[0]]);
                lemma_first_token(es0[0]);
                lemma_items_prec(es0, 0);
                lemma_items_close(ts, start, n0, es0, 0);
            }
        }
        let e = match self.parse_expr(0) {
            Ok(e) => e,
            Err(err) => {
                return Err(err);
            },
        };
        let ghost ev = e@;
        items.push(e);
        proof {
            assert(items@.drop_last() =~= Seq::<Expr>::empty());
            assert(exprs_view(items@.drop_last()) =~= Seq::<ExprV>::empty());
            assert(exprs_view(items@) =~= seq![ev]);
            assert(seq![ev].drop_last() =~= Seq::<ExprV>::empty());
            assert(items_prec_ok(Seq::<ExprV>::empty()));
            assert(seq![ev].last() == ev);
            assert(items_prec_ok(seq![ev]));
            assert(ts.subrange(start, self.pos as int) =~= seq![ts[start]] + ts.subrange(
                start + 1,
                self.pos as int,
            ));
        }
        assert forall|es: Seq<ExprV>, n: int| array_at(ts, start, n, es) implies es.len() >= 1
            && exprs_view(items@) == es.take(1) && self.pos == start + 1 + items_tokens(es.take(1)).len() by {
            lemma_array_at(ts, start, n, es);
            lemma_items_prefix(es, 1);
            assert(es.take(1) =~= seq![es[0]]);
            lemma_first_token(es[0]);
            lemma_items_prec(es, 0);
            lemma_items_close(ts, start, n, es, 0);
        }
        loop
            invariant
                self.wf(),
                self.input() == ts,
                old(self).input() == ts,
                self.position() > start,
                self.position() >= old(self).position(),
                0 <= start < self.pos <= ts.len(),
                items@.len() >= 1,
                ts.subrange(start, self.pos as int) == seq![sym(Symbol::LBracket)] + items_tokens(
                    exprs_view(items@),
                ),
                items_prec_ok(exprs_view(items@)),
                wit == (exists|es: Seq<ExprV>, n: int| #[trigger] array_at(ts, start, n, es)),
                wit ==> array_at(ts, start, n0, es0),
                forall|es: Seq<ExprV>, n: int| array_at(ts, start, n, es) ==> items@.len() <= es.len()
                    && exprs_view(items@) == es.take(items@.len() as int) && self.pos == start + 1
                    + items_tokens(es.take(items@.len() as int)).len(),
            decreases self.remaining(),
        {
            let ghost mid = self.pos as int;
            let ghost k = items@.len() as int;
            proof {
                if wit {
                    lemma_items_close(ts, start, n0, es0, k - 1);
                    if k < es0.len() {
                        lemma_items_prec(es0, k);
                        lemma_items_close(ts, start, n0, es0, k);
                    }
                }
            }
            let t = self.pop_front()?;
            match t {
                Token::Symbol(Symbol::Comma) => {
                    let e = match self.parse_expr(0) {
                        Ok(e) => e,
                        Err(err) => {
                            return Err(err);
                        },
                    };
                    let ghost prev = exprs_view(items@);
                    let ghost old_items = items@;
                    let ghost ev = e@;
                    items.push(e);
                    proof {
                        assert(items@.drop_last() =~= old_items);
                        assert(exprs_view(items@) =~= prev.push(ev));
                        assert(exprs_view(items@).drop_last() =~= prev);
                        lemma_split(ts, start, mid, self.pos as int);
                    }
                    assert forall|es: Seq<ExprV>, n: int| array_at(ts, start, n, es) implies items@.len()
                        <= es.len() && exprs_view(items@) == es.take(items@.len() as int) && self.pos
                        == start + 1 + items_tokens(es.take(items@.len() as int)).len() by {
                        lemma_items_close(ts, start, n, es, k - 1);
                        if k < es.len() {
                            lemma_items_prec(es, k);
                            lemma_items_close(ts, start, n, es, k);
                            assert(es.take(k + 1) =~= es.take(k).push(es[k]));
                        }
                    }
                },
                Token::Symbol(Symbol::RBracket) => {
                    let r = Expr::Array(items);
                    proof {
                        lemma_split(ts, start, mid, self.pos as int);
                    }
                    assert(ts.subrange(start, self.pos as int) =~= ts.subrange(start, mid) + seq![ts[mid]]);
                    assert(ts.subrange(start, self.pos as int) =~= expr_tokens(r@));
                    assert forall|es: Seq<ExprV>, n: int| array_at(ts, start, n, es) implies r@
                        == ExprV::Array(es) && self.pos == start + n by {
                        lemma_items_close(ts, start, n, es, k - 1);
                        assert(es.take(k) =~= es);
                    }
                    return Ok(r);
                },
                _ => {
                    return Err(ParseError::UnexpectedToken(t));
                },
            }
        }
    }

    fn parse_proc_id(&mut self) -> (r: Result<ProcId, ParseError>)
        requires
            old(self).wf(),
        ensures
            Parser::advanced(*old(self), *final(self)),
            r matches Ok(x) ==> final(self).position() == old(self).position() + 1 && old(
                self,
            ).input()[old(self).position() as int] == TokenV::Name(x@),
            old(self).position() < old(self).input().len() && old(self).input()[old(
                self,
            ).position() as int] is Name ==> r is Ok,
    {
        match self.pop_front()? {
            Token::Name(x) => Ok(ProcId::new(x)),
            t => Err(ParseError::UnexpectedToken(t)),
        }
    }

    /// An integer literal, possibly negated.
    fn parse_literal(&mut self) -> (r: Result<i32, ParseError>)
        requires
            old(self).wf(),
        ensures
            Parser::advanced(*old(self), *final(self)),
            r is Ok ==> final(self).position() > old(self).position(),
            r matches Ok(n) ==> literal_spelled(n as int, Parser::consumed(*old(self), *final(self))),
            old(self).position() < old(self).input().len() && old(self).input()[old(
                self,
            ).position() as int] is Literal ==> r == Ok::<i32, ParseError>(
                old(self).input()[old(self).position() as int]->Literal_0,
            ) && final(self).position() == old(self).position() + 1,
            old(self).position() + 1 < old(self).input().len() && old(self).input()[old(
                self,
            ).position() as int] == sym(Symbol::Minus) && old(self).input()[old(self).position() + 1int]
                is Literal && old(self).input()[old(self).position() + 1int]->Literal_0 != i32::MIN ==> r
                == Ok::<i32, ParseError>(
                (-(old(self).input()[old(self).position() + 1int]->Literal_0 as int)) as i32,
            ) && final(self).position() == old(self).position() + 2,
    {
        let ghost ts = self.input();
        let ghost start = self.pos as int;
        match self.pop_front()? {
            Token::Literal(x) => {
                assert(ts.subrange(start, start + 1) =~= seq![ts[start]]);
                Ok(x)
            },
            Token::Symbol(Symbol::Minus) => match self.pop_front()? {
                Token::Literal(x) => {
                    if x == i32::MIN {
                        Err(ParseError::LiteralOutOfRange(x))
                    } else {
                        assert(ts.subrange(start, start + 2) =~= seq![ts[start], ts[start + 1]]);
                        Ok(-x)
                    }
                },
                t => Err(ParseError::UnexpectedToken(t)),
            },
            t => Err(ParseError::UnexpectedToken(t)),
        }
    }

    fn parse_inner_type(&mut self) -> (r: Result<InnerType, ParseError>)
        requires
            old(self).wf(),
        ensures
            Parser::advanced(*old(self), *final(self)),
            r is Ok ==> final(self).position() > old(self).position(),
            r matches Ok(InnerType::Array(n)) ==> n > 0,
            r matches Ok(it) ==> inner_spelled(it, Parser::consumed(*old(self), *final(self))),
            forall|it: InnerType, k: int|
                #[trigger] inner_at(old(self).input(), old(self).position() as int, k, it) ==> r
                    == Ok::<InnerType, ParseError>(it) && final(self).position() == old(self).position()
                    + k,
    {
        let ghost ts = self.input();
        let ghost start = self.pos as int;
        let ghost wit = exists|it: InnerType, k: int| #[trigger] inner_at(ts, start, k, it);
        let ghost pick = choose|it: InnerType, k: int| #[trigger] inner_at(ts, start, k, it);
        proof {
            if wit {
                lemma_inner_parts(ts, start, pick.1, pick.0);
            }
        }
        match self.pop_front()? {
            Token::Symbol(Symbol::Int) => {
                assert(ts.subrange(start, start + 1) =~= seq![ts[start]]);
                assert forall|it: InnerType, k: int| inner_at(ts, start, k, it) implies it
                    == InnerType::Int && k == 1 by {
                    lemma_inner_parts(ts, start, k, it);
                }
                Ok(InnerType::Int)
            },
            Token::Symbol(Symbol::List) => {
                assert(ts.subrange(start, start + 1) =~= seq![ts[start]]);
                assert forall|it: InnerType, k: int| inner_at(ts, start, k, it) implies it
                    == InnerType::List && k == 1 by {
                    lemma_inner_parts(ts, start, k, it);
                }
                Ok(InnerType::List)
            },
            Token::Symbol(Symbol::Array) => {
                self.pop_assert(Symbol::LAngleBracket)?;
                let ghost p = self.pos as int;
                let c = self.parse_literal()?;
                let ghost q = self.pos as int;
                self.pop_assert(Symbol::RAngleBracket)?;
                if c <= 0 {
                    return Err(ParseError::InvalidArraySize(c));
                }
                let ghost t = ts.subrange(start, self.pos as int);
                assert(t.subrange(2, t.len() - 1) =~= ts.subrange(p, q));
                assert forall|it: InnerType, k: int| inner_at(ts, start, k, it) implies it
                    == InnerType::Array(c as usize) && self.pos == start + k by {
                    lemma_inner_parts(ts, start, k, it);
                }
                Ok(InnerType::Array(c as usize))
            },
            t => Err(ParseError::UnexpectedToken(t)),
        }
    }

    fn parse_type(&mut self) -> (r: Result<Type, ParseError>)
        requires
            old(self).wf(),
        ensures
            Parser::advanced(*old(self), *final(self)),
            r is Ok ==> final(self).position() > old(self).position(),
            r matches Ok(t) ==> t.is_const == (old(self).input()[old(self).position() as int] == sym(
                Symbol::Const,
            )),
            r matches Ok(t) ==> type_spelled(t, Parser::consumed(*old(self), *final(self))),
            forall|ty: Type, k: int|
                #[trigger] type_at(old(self).input(), old(self).position() as int, k, ty) ==> r == Ok::<
                    Type,
                    ParseError,
                >(ty) && final(self).position() == old(self).position() + k,
    {
        let ghost ts = self.input();
        let ghost start = self.pos as int;
        let ghost wit = exists|ty: Type, k: int| #[trigger] type_at(ts, start, k, ty);
        let ghost pick = choose|ty: Type, k: int| #[trigger] type_at(ts, start, k, ty);
        proof {
            if wit {
                lemma_type_parts(ts, start, pick.1, pick.0);
            }
        }
        if self.at(Symbol::Const) {
            self.pop_assert(Symbol::Const)?;
            let inner = self.parse_inner_type()?;
            assert(ts.subrange(start, self.pos as int).skip(1) =~= ts.subrange(start + 1, self.pos as int));
            assert forall|ty: Type, k: int| type_at(ts, start, k, ty) implies ty == Type {
                is_const: true,
                inner,
            } && self.pos == start + k by {
                lemma_type_parts(ts, start, k, ty);
            }
            Ok(Type { is_const: true, inner })
        } else {
            let inner = self.parse_inner_type()?;
            assert forall|ty: Type, k: int| type_at(ts, start, k, ty) implies ty == Type {
                is_const: false,
                inner,
            } && self.pos == start + k by {
                lemma_type_parts(ts, start, k, ty);
            }
            Ok(Type { is_const: false, inner })
        }
    }

    fn parse_typed_variable(&mut self) -> (r: Result<TypedVariable, ParseError>)
        requires
            old(self).wf(),
        ensures
            Parser::advanced(*old(self), *final(self)),
            r is Ok ==> final(self).position() > old(self).position(),
            r matches Ok(tv) ==> decl_spelled(tv@, Parser::consumed(*old(self), *final(self))),
            forall|tv: (Type, Seq<char>), k: int|
                #[trigger] decl_at(old(self).input(), old(self).position() as int, k, tv) ==> (r matches Ok(
                    x,
                ) && x@ == tv && final(self).position() == old(self).position() + k),
    {
        let ghost ts = self.input();
        let ghost start = self.pos as int;
        let ghost wit = exists|tv: (Type, Seq<char>), k: int| #[trigger] decl_at(ts, start, k, tv);
        let ghost pick = choose|tv: (Type, Seq<char>), k: int| #[trigger] decl_at(ts, start, k, tv);
        proof {
            if wit {
                lemma_decl_parts(ts, start, pick.1, pick.0);
            }
        }
        let t = self.parse_type()?;
        let ghost p = self.pos as int;
        let x = self.parse_variable()?;
        assert(ts.subrange(start, self.pos as int).drop_last() =~= ts.subrange(start, p));
        let res = TypedVariable(t, x);
        assert forall|tv: (Type, Seq<char>), k: int| decl_at(ts, start, k, tv) implies res@ == tv
            && self.pos == start + k by {
            lemma_decl_parts(ts, start, k, tv);
        }
        Ok(res)
    }

    fn parse_mut_op(&mut self) -> (r: Result<MutOp, ParseError>)
        requires
            old(self).wf(),
        ensures
            Parser::advanced(*old(self), *final(self)),
            r is Ok ==> final(self).position() == old(self).position() + 1,
            r matches Ok(op) ==> old(self).input()[old(self).position() as int] == sym(mut_symbol(op)),
            forall|o: MutOp|
                old(self).position() < old(self).input().len() && old(self).input()[old(
                    self,
                ).position() as int] == #[trigger] sym(mut_symbol(o)) ==> r == Ok::<MutOp, ParseError>(
                    o,
                ),
    {
        match self.pop_front()? {
            Token::Symbol(Symbol::PlusEqual) => Ok(MutOp::Add),
            Token::Symbol(Symbol::MinusEqual) => Ok(MutOp::Sub),
            Token::Symbol(Symbol::CaretEqual) => Ok(MutOp::Xor),
            Token::Symbol(Symbol::Spaceship) => Ok(MutOp::Swap),
            t => Err(ParseError::UnexpectedToken(t)),
        }
    }

    /// One loop variable, or a bracketed, comma-separated pack of them.
    fn parse_var_pack(&mut self) -> (r: Result<Vec<Variable>, ParseError>)
        requires
            old(self).wf(),
        ensures
            Parser::advanced(*old(self), *final(self)),
            r is Ok ==> final(self).position() > old(self).position(),
            r matches Ok(vs) ==> vs@.len() >= 1,
            r matches Ok(vs) ==> pack_spelled(names(vs@), Parser::consumed(*old(self), *final(self))),
    {
        let ghost ts = self.input();
        let ghost start = self.pos as int;
        let mut l: Vec<Variable> = Vec::new();
        if self.at(Symbol::LBracket) {
            self.pop_assert(Symbol::LBracket)?;
            let x = self.parse_variable()?;
            l.push(x);
            assert(names(l@) =~= seq![x@]);
            assert(ts.subrange(start, self.pos as int) =~= seq![sym(Symbol::LBracket)] + names_tokens(names(l@)));
            loop
                invariant
                    Parser::advanced(*old(self), *self),
                    ts == old(self).input(),
                    start == old(self).position(),
                    start < self.pos <= ts.len(),
                    l@.len() >= 1,
                    ts.subrange(start, self.pos as int) == seq![sym(Symbol::LBracket)] + names_tokens(names(l@)),
                decreases self.remaining(),
            {
                let ghost mid = self.pos as int;
                match self.pop_front()? {
                    Token::Symbol(Symbol::Comma) => {},
                    Token::Symbol(Symbol::RBracket) => {
                        assert(ts.subrange(start, self.pos as int) =~= ts.subrange(start, mid) + seq![ts[mid]]);
                        return Ok(l);
                    },
                    t => return Err(ParseError::UnexpectedToken(t)),
                }
                let x = self.parse_variable()?;
                let ghost prev = names(l@);
                l.push(x);
                assert(names(l@) =~= prev.push(x@));
                assert(names(l@).drop_last() =~= prev);
                assert(ts.subrange(start, self.pos as int) =~= ts.subrange(start, mid) + seq![ts[mid], ts[mid + 1]]);
            }
        } else {
            let x = self.parse_variable()?;
            l.push(x);
            assert(names(l@) =~= seq![x@]);
            assert(ts.subrange(start, self.pos as int) =~= seq![ts[start]]);
        }
        Ok(l)
    }

    /// A container, with an optional bracketed permutation index.
    fn parse_maybe_indexed(&mut self) -> (r: Result<(Variable, Option<Variable>), ParseError>)
        requires
            old(self).wf(),
        ensures
            Parser::advanced(*old(self), *final(self)),
            r is Ok ==> final(self).position() > old(self).position(),
            r matches Ok(c) ==> Parser::consumed(*old(self), *final(self)) == container_tokens(
                container_view(c),
            ),
    {
        let ghost ts = self.input();
        let ghost start = self.pos as int;
        let x = self.parse_variable()?;
        let i = if self.at(Symbol::LBracket) {
            self.pop_assert(Symbol::LBracket)?;
            let i = self.parse_variable()?;
            self.pop_assert(Symbol::RBracket)?;
            Some(i)
        } else {
            None
        };
        let r = (x, i);
        assert(ts.subrange(start, self.pos as int) =~= container_tokens(container_view(r)));
        Ok(r)
    }

    /// Whether the next token can start a statement.
    fn at_statement(&self) -> (r: bool)
        requires
            self.wf(),
        ensures
            r == (self.position() < self.input().len() && starts_statement(
                self.input()[self.position() as int],
            )),
    {
        match self.peek() {
            Some(Token::Name(_)) => true,
            Some(Token::Symbol(s)) => match s {
                Symbol::If | Symbol::From | Symbol::PushFront | Symbol::PushBack
                | Symbol::PopFront | Symbol::PopBack | Symbol::Local | Symbol::Call
                | Symbol::Uncall | Symbol::Skip | Symbol::Print | Symbol::For | Symbol::Swap => true,
                _ => false,
            },
            _ => false,
        }
    }

    /// A statement, and the statements that follow it in sequence: the
    /// tokens consumed spell the result.
    pub fn parse_statement(&mut self) -> (r: Result<Statement, ParseError>)
        requires
            old(self).wf(),
        ensures
            Parser::advanced(*old(self), *final(self)),
            r matches Ok(s) ==> final(self).position() > old(self).position() && stmt_wf(s@)
                && spells(s@, Parser::consumed(*old(self), *final(self))),
            forall|s: StmtV, n: int|
                #[trigger] stmt_at(old(self).input(), old(self).position() as int, n, s) ==> (r matches Ok(
                    x,
                ) && x@ == s && final(self).position() == old(self).position() + n),
        decreases old(self).remaining(), 1nat,
    {
        let ghost ts = self.input();
        let ghost start = self.pos as int;
        let ghost wit = exists|s: StmtV, n: int| #[trigger] stmt_at(ts, start, n, s);
        let ghost pick = choose|s: StmtV, n: int| #[trigger] stmt_at(ts, start, n, s);
        let ghost mut k0: int = 0;
        proof {
            if wit {
                if pick.0 is Sequence {
                    k0 = lemma_seq_split(ts, start, pick.1, pick.0);
                } else {
                    lemma_single_of(ts, start, pick.1, pick.0);
                }
            }
        }
        let first = self.parse_single()?;
        let ghost mid = self.pos as int;
        assert forall|s: StmtV, n: int| stmt_at(ts, start, n, s) implies (s is Sequence ==> ({
            let k = mid - start;
            &&& first@ == *s->Sequence_0
            &&& 0 < k < n
            &&& stmt_at(ts, mid, n - k, *s->Sequence_1)
            &&& starts_statement(ts[mid])
        })) && (!(s is Sequence) ==> first@ == s && mid == start + n && !(mid < ts.len()
            && starts_statement(ts[mid]))) by {
            if s is Sequence {
                let k = lemma_seq_split(ts, start, n, s);
            } else {
                lemma_single_of(ts, start, n, s);
            }
        }
        if self.at_statement() {
            let rest = self.parse_statement()?;
            let r = Statement::Sequence(Box::new(first), Box::new(rest));
            proof {
                let a = ts.subrange(start, mid);
                let b = ts.subrange(mid, self.pos as int);
                assert(ts.subrange(start, self.pos as int) =~= a + b);
                assert(spells(first@, a));
                assert(spells(rest@, b));
                assert(r@ == StmtV::Sequence(Box::new(first@), Box::new(rest@)));
                reveal_with_fuel(spells, 2);
                assert(spells(r@, ts.subrange(start, self.pos as int)));
            }
            assert forall|s: StmtV, n: int| stmt_at(ts, start, n, s) implies r@ == s && self.pos
                == start + n by {
                assert(s is Sequence);
            }
            Ok(r)
        } else {
            assert forall|s: StmtV, n: int| stmt_at(ts, start, n, s) implies first@ == s && self.pos
                == start + n by {
                if s is Sequence {
                    assert(starts_statement(ts[mid]));
                }
            }
            Ok(first)
        }
    }

    /// One statement, not a sequence.
    fn parse_single(&mut self) -> (r: Result<Statement, ParseError>)
        requires
            old(self).wf(),
        ensures
            Parser::advanced(*old(self), *final(self)),
            r matches Ok(s) ==> final(self).position() > old(self).position() && stmt_wf(s@) && !(
            s@ is Sequence) && spells(s@, Parser::consumed(*old(self), *final(self))),
            forall|s: StmtV, n: int|
                #[trigger] single_at(old(self).input(), old(self).position() as int, n, s) ==> (r matches Ok(
                    x,
                ) && x@ == s && final(self).position() == old(self).position() + n),
        decreases old(self).remaining(), 0nat,
    {
        let ghost ts = self.input();
        let ghost start = self.pos as int;
        let ghost wit = exists|s: StmtV, n: int| #[trigger] single_at(ts, start, n, s);
        let ghost pick = choose|s: StmtV, n: int| #[trigger] single_at(ts, start, n, s);
        proof {
            if wit {
                lemma_single_head(ts, start, pick.1, pick.0);
                let t = ts.subrange(start, start + pick.1);
                if pick.0 is Print {
                    assert(t == seq![
                        sym(Symbol::Print),
                        sym(Symbol::LParen),
                        TokenV::Name(pick.0->Print_0),
                        sym(Symbol::RParen),
                    ]);
                    assert(ts[start + 1] == t[1]);
                    assert(ts[start + 2] == t[2]);
                    assert(ts[start + 3] == t[3]);
                }
            }
        }
        assert(stmt_wf(stmt_view(Statement::Skip)));
        let t = self.pop_front()?;
        match t {
            Token::Name(x) => self.parse_mutation_rest(x, Ghost(start)),
            Token::Symbol(Symbol::If) => self.parse_if_rest(Ghost(start)),
            Token::Symbol(Symbol::From) => self.parse_from_rest(Ghost(start)),
            Token::Symbol(
                s @ (Symbol::PushFront | Symbol::PushBack | Symbol::PopFront | Symbol::PopBack),
            ) => self.parse_list_op_rest(s, Ghost(start)),
            Token::Symbol(Symbol::Local) => self.parse_local_rest(Ghost(start)),
            Token::Symbol(s @ (Symbol::Call | Symbol::Uncall)) => self.parse_call_rest(s, Ghost(start)),
            Token::Symbol(Symbol::Skip) => {
                assert(ts.subrange(start, self.pos as int) =~= seq![ts[start]]);
                assert forall|s: StmtV, n: int| single_at(ts, start, n, s) implies s == StmtV::Skip
                    && n == 1 by {
                    lemma_single_head(ts, start, n, s);
                }
                Ok(Statement::Skip)
            },
            Token::Symbol(Symbol::Print) => {
                self.pop_assert(Symbol::LParen)?;
                let x = self.parse_variable()?;
                self.pop_assert(Symbol::RParen)?;
                assert(ts.subrange(start, self.pos as int) =~= seq![
                    ts[start],
                    ts[start + 1],
                    ts[start + 2],
                    ts[start + 3],
                ]);
                assert forall|s: StmtV, n: int| single_at(ts, start, n, s) implies s == StmtV::Print(x@)
                    && n == 4 by {
                    lemma_single_head(ts, start, n, s);
                    let t = ts.subrange(start, start + n);
                    assert(t == seq![
                        sym(Symbol::Print),
                        sym(Symbol::LParen),
                        TokenV::Name(s->Print_0),
                        sym(Symbol::RParen),
                    ]);
                    assert(ts[start + 2] == t[2]);
                }
                Ok(Statement::Print(x))
            },
            Token::Symbol(Symbol::For) => self.parse_for_rest(Ghost(start)),
            Token::Symbol(Symbol::Swap) => self.parse_swap_rest(Ghost(start)),
            _ => {
                assert forall|s: StmtV, n: int| single_at(ts, start, n, s) implies false by {
                    lemma_single_head(ts, start, n, s);
                }
                Err(ParseError::UnexpectedToken(t))
            },
        }
    }

    /// A mutation, after the name of its target at `start`.
    fn parse_mutation_rest(&mut self, x: String, Ghost(start): Ghost<int>) -> (r: Result<
        Statement,
        ParseError,
    >)
        requires
            old(self).wf(),
            0 <= start < old(self).position(),
            old(self).position() == start + 1,
            old(self).input()[start] == TokenV::Name(x@),
        ensures
            Parser::advanced(*old(self), *final(self)),
            r matches Ok(s) ==> stmt_wf(s@) && !(s@ is Sequence) && spells(
                s@,
                final(self).input().subrange(start, final(self).position() as int),
            ),
            forall|s: StmtV, n: int|
                #[trigger] single_at(old(self).input(), start, n, s) ==> (r matches Ok(x) && x@ == s
                    && final(self).position() == start + n),
    {
        let ghost ts = self.input();
        let ghost wit = exists|s: StmtV, n: int| #[trigger] single_at(ts, start, n, s);
        let ghost pick = choose|s: StmtV, n: int| #[trigger] single_at(ts, start, n, s);
        proof {
            if wit {
                lemma_single_head(ts, start, pick.1, pick.0);
                lemma_mut_parts(ts, start, pick.1, pick.0);
            }
        }
        if self.at(Symbol::LBracket) {
            self.pop_assert(Symbol::LBracket)?;
            let ghost pos1 = self.pos as int;
            let el = self.parse_expr(0)?;
            let ghost pos2 = self.pos as int;
            self.pop_assert(Symbol::RBracket)?;
            let op = self.parse_mut_op()?;
            let ghost pos3 = self.pos as int;
            let er = self.parse_expr(0)?;
            let r = Statement::IndexedMut(Variable::new(x), el, op, er);
            assert(ts.subrange(start, self.pos as int) =~= seq![ts[start], ts[start + 1]]
                + ts.subrange(pos1, pos2) + seq![ts[pos2], ts[pos2 + 1]] + ts.subrange(pos3, self.pos as int));
            assert forall|s: StmtV, n: int| single_at(ts, start, n, s) implies r@ == s && self.pos
                == start + n by {
                lemma_single_head(ts, start, n, s);
                lemma_mut_parts(ts, start, n, s);
            }
            Ok(r)
        } else {
            let op = self.parse_mut_op()?;
            let ghost pos1 = self.pos as int;
            let er = self.parse_expr(0)?;
            let r = Statement::Mut(Variable::new(x), op, er);
            assert(ts.subrange(start, self.pos as int) =~= seq![ts[start], ts[start + 1]]
                + ts.subrange(pos1, self.pos as int));
            assert forall|s: StmtV, n: int| single_at(ts, start, n, s) implies r@ == s && self.pos
                == start + n by {
                lemma_single_head(ts, start, n, s);
                lemma_mut_parts(ts, start, n, s);
            }
            Ok(r)
        }
    }

    /// A conditional, after its `if` at `start`.
    #[verifier::rlimit(100)]
    fn parse_if_rest(&mut self, Ghost(start): Ghost<int>) -> (r: Result<Statement, ParseError>)
        requires
            old(self).wf(),
            0 <= start < old(self).position(),
            old(self).position() == start + 1,
            old(self).input()[start] == sym(Symbol::If),
        ensures
            Parser::advanced(*old(self), *final(self)),
            r matches Ok(s) ==> stmt_wf(s@) && !(s@ is Sequence) && spells(
                s@,
                final(self).input().subrange(start, final(self).position() as int),
            ),
            forall|s: StmtV, n: int|
                #[trigger] single_at(old(self).input(), start, n, s) ==> (r matches Ok(x) && x@ == s
                    && final(self).position() == start + n),
        decreases old(self).remaining(), 2nat,
    {
        let ghost ts = self.input();
        let ghost wit = exists|s: StmtV, n: int| #[trigger] single_at(ts, start, n, s);
        let ghost pick = choose|s: StmtV, n: int| #[trigger] single_at(ts, start, n, s);
        proof {
            if wit {
                lemma_single_head(ts, start, pick.1, pick.0);
                if pick.0 is IfThenElse {
                    let _ = lemma_if_end_parts(ts, start, pick.1, pick.0);
                } else {
                    let _ = lemma_if_fi_parts(ts, start, pick.1, pick.0);
                }
            }
        }
        assert(stmt_wf(stmt_view(Statement::Skip)));
        assert(stmt_view(Statement::Skip) is Skip);
        let ghost pos0 = self.pos as int;
        let el = self.parse_expr(0)?;
        let ghost pos1 = self.pos as int;
        self.pop_assert(Symbol::Then)?;
        let sl = self.parse_statement()?;
        let ghost pos2 = self.pos as int;
        let ghost a = ts.subrange(pos1 + 1, pos2);
        match self.pop_front()? {
            Token::Symbol(Symbol::End) => {
                let r = Statement::IfThenElse(el, Box::new(sl), Box::new(Statement::Skip));
                assert(ts.subrange(start, self.pos as int) =~= seq![ts[start]] + ts.subrange(pos0, pos1)
                    + seq![ts[pos1]] + a + seq![ts[pos2]]);
                assert(ts.subrange(start, self.pos as int) == if_end_tokens(el@, a));
                assert(spells(sl@, a));
                assert forall|s: StmtV, n: int| single_at(ts, start, n, s) implies r@ == s && self.pos
                    == start + n by {
                    lemma_single_head(ts, start, n, s);
                    if s is IfThenElse {
                        let _ = lemma_if_end_parts(ts, start, n, s);
                    } else {
                        let _ = lemma_if_fi_parts(ts, start, n, s);
                    }
                }
                Ok(r)
            },
            Token::Symbol(Symbol::Fi) => {
                let ghost pos3 = self.pos as int;
                let er = self.parse_expr(0)?;
                let r = Statement::IfThenElseFi(el, Box::new(sl), Box::new(Statement::Skip), er);
                assert(ts.subrange(start, self.pos as int) =~= seq![ts[start]] + ts.subrange(pos0, pos1)
                    + seq![ts[pos1]] + a + seq![ts[pos2]] + ts.subrange(pos3, self.pos as int));
                assert(ts.subrange(start, self.pos as int) == if_fi_tokens(el@, a, er@));
                assert(spells(sl@, a));
                assert forall|s: StmtV, n: int| single_at(ts, start, n, s) implies r@ == s && self.pos
                    == start + n by {
                    lemma_single_head(ts, start, n, s);
                    if s is IfThenElse {
                        let _ = lemma_if_end_parts(ts, start, n, s);
                    } else {
                        let _ = lemma_if_fi_parts(ts, start, n, s);
                    }
                }
                Ok(r)
            },
            Token::Symbol(Symbol::Else) => {
                let sr = self.parse_statement()?;
                let ghost pos3 = self.pos as int;
                let ghost b = ts.subrange(pos2 + 1, pos3);
                match self.pop_front()? {
                    Token::Symbol(Symbol::Fi) => {
                        let ghost pos4 = self.pos as int;
                        let er = self.parse_expr(0)?;
                        let r = Statement::IfThenElseFi(el, Box::new(sl), Box::new(sr), er);
                        assert(ts.subrange(start, self.pos as int) =~= seq![ts[start]] + ts.subrange(
                            pos0,
                            pos1,
                        ) + seq![ts[pos1]] + a + seq![ts[pos2]] + b + seq![ts[pos3]] + ts.subrange(
                            pos4,
                            self.pos as int,
                        ));
                        assert(ts.subrange(start, self.pos as int) == if_else_fi_tokens(el@, a, b, er@));
                        assert(spells(sl@, a) && spells(sr@, b));
                        assert forall|s: StmtV, n: int| single_at(ts, start, n, s) implies r@ == s && self.pos
                            == start + n by {
                            lemma_single_head(ts, start, n, s);
                            if s is IfThenElse {
                                let _ = lemma_if_end_parts(ts, start, n, s);
                            } else {
                                let _ = lemma_if_fi_parts(ts, start, n, s);
                            }
                        }
                        Ok(r)
                    },
                    Token::Symbol(Symbol::End) => {
                        let r = Statement::IfThenElse(el, Box::new(sl), Box::new(sr));
                        assert(ts.subrange(start, self.pos as int) =~= seq![ts[start]] + ts.subrange(
                            pos0,
                            pos1,
                        ) + seq![ts[pos1]] + a + seq![ts[pos2]] + b + seq![ts[pos3]]);
                        assert(ts.subrange(start, self.pos as int) == if_else_end_tokens(el@, a, b));
                        assert(spells(sl@, a) && spells(sr@, b));
                        assert forall|s: StmtV, n: int| single_at(ts, start, n, s) implies r@ == s && self.pos
                            == start + n by {
                            lemma_single_head(ts, start, n, s);
                            if s is IfThenElse {
                                let _ = lemma_if_end_parts(ts, start, n, s);
                            } else {
                                let _ = lemma_if_fi_parts(ts, start, n, s);
                            }
                        }
                        Ok(r)
                    },
                    t => Err(ParseError::UnexpectedToken(t)),
                }
            },
            t => Err(ParseError::UnexpectedToken(t)),
        }
    }

    /// A loop, after its `from` at `start`.
    #[verifier::rlimit(100)]
    fn parse_from_rest(&mut self, Ghost(start): Ghost<int>) -> (r: Result<Statement, ParseError>)
        requires
            old(self).wf(),
            0 <= start < old(self).position(),
            old(self).position() == start + 1,
            old(self).input()[start] == sym(Symbol::From),
        ensures
            Parser::advanced(*old(self), *final(self)),
            r matches Ok(s) ==> stmt_wf(s@) && !(s@ is Sequence) && spells(
                s@,
                final(self).input().subrange(start, final(self).position() as int),
            ),
            forall|s: StmtV, n: int|
                #[trigger] single_at(old(self).input(), start, n, s) ==> (r matches Ok(x) && x@ == s
                    && final(self).position() == start + n),
        decreases old(self).remaining(), 2nat,
    {
        let ghost ts = self.input();
        let ghost wit = exists|s: StmtV, n: int| #[trigger] single_at(ts, start, n, s);
        let ghost pick = choose|s: StmtV, n: int| #[trigger] single_at(ts, start, n, s);
        proof {
            if wit {
                lemma_single_head(ts, start, pick.1, pick.0);
                let _ = lemma_from_parts(ts, start, pick.1, pick.0);
            }
        }
        assert(stmt_wf(stmt_view(Statement::Skip)));
        assert(stmt_view(Statement::Skip) is Skip);
        let ghost pos0 = self.pos as int;
        let el = self.parse_expr(0)?;
        let ghost pos1 = self.pos as int;
        let with_do = match self.pop_front()? {
            Token::Symbol(Symbol::Do) => true,
            Token::Symbol(Symbol::Loop) => false,
            t => return Err(ParseError::UnexpectedToken(t)),
        };
        let sl = if with_do {
            let s = self.parse_statement()?;
            self.pop_assert(Symbol::Loop)?;
            s
        } else {
            Statement::Skip
        };
        let ghost pos2 = self.pos as int;
        let sr = self.parse_statement()?;
        let ghost pos3 = self.pos as int;
        self.pop_assert(Symbol::Until)?;
        let ghost pos4 = self.pos as int;
        let er = self.parse_expr(0)?;
        let ghost b = ts.subrange(pos2, pos3);
        proof {
            if with_do {
                let a = ts.subrange(pos1 + 1, pos2 - 1);
                assert(ts.subrange(start, self.pos as int) =~= seq![ts[start]] + ts.subrange(pos0, pos1)
                    + seq![ts[pos1]] + a + seq![ts[pos2 - 1]] + b + seq![ts[pos3]] + ts.subrange(
                    pos4,
                    self.pos as int,
                ));
                assert(ts.subrange(start, self.pos as int) == from_do_loop_tokens(el@, a, b, er@));
                assert(spells(sl@, a) && spells(sr@, b));
            } else {
                assert(ts.subrange(start, self.pos as int) =~= seq![ts[start]] + ts.subrange(pos0, pos1)
                    + seq![ts[pos1]] + b + seq![ts[pos3]] + ts.subrange(pos4, self.pos as int));
                assert(ts.subrange(start, self.pos as int) == from_loop_tokens(el@, b, er@));
                assert(spells(sr@, b));
            }
        }
        let res = Statement::FromDoLoopUntil(el, Box::new(sl), Box::new(sr), er);
        assert forall|s: StmtV, n: int| single_at(ts, start, n, s) implies res@ == s && self.pos
            == start + n by {
            lemma_single_head(ts, start, n, s);
            let _ = lemma_from_parts(ts, start, n, s);
        }
        Ok(res)
    }

    /// A push or a pop, after its keyword `s` at `start`.
    fn parse_list_op_rest(&mut self, s: Symbol, Ghost(start): Ghost<int>) -> (r: Result<
        Statement,
        ParseError,
    >)
        requires
            old(self).wf(),
            0 <= start < old(self).position(),
            old(self).position() == start + 1,
            old(self).input()[start] == sym(s),
            s == Symbol::PushFront || s == Symbol::PushBack || s == Symbol::PopFront || s
                == Symbol::PopBack,
        ensures
            Parser::advanced(*old(self), *final(self)),
            r matches Ok(st) ==> stmt_wf(st@) && !(st@ is Sequence) && spells(
                st@,
                final(self).input().subrange(start, final(self).position() as int),
            ),
            forall|st: StmtV, n: int|
                #[trigger] single_at(old(self).input(), start, n, st) ==> (r matches Ok(x) && x@ == st
                    && final(self).position() == start + n),
    {
        let ghost ts = self.input();
        let ghost wit = exists|st: StmtV, n: int| #[trigger] single_at(ts, start, n, st);
        let ghost pick = choose|st: StmtV, n: int| #[trigger] single_at(ts, start, n, st);
        proof {
            if wit {
                lemma_single_head(ts, start, pick.1, pick.0);
                lemma_list_parts(ts, start, pick.1, pick.0);
            }
        }
        self.pop_assert(Symbol::LParen)?;
        let l = match self.peek() {
            Some(Token::Literal(n)) => {
                let n = *n;
                self.pop_front()?;
                VariableOrLiteral::Literal(n)
            },
            _ => VariableOrLiteral::Variable(self.parse_variable()?),
        };
        self.pop_assert(Symbol::Comma)?;
        let r = self.parse_variable()?;
        self.pop_assert(Symbol::RParen)?;
        assert(ts.subrange(start, self.pos as int) =~= list_op_tokens(s, l@, r@));
        let res = match s {
            Symbol::PushFront => Statement::PushFront(l, r),
            Symbol::PushBack => Statement::PushBack(l, r),
            Symbol::PopFront => Statement::PopFront(l, r),
            _ => Statement::PopBack(l, r),
        };
        assert forall|st: StmtV, n: int| single_at(ts, start, n, st) implies res@ == st && self.pos
            == start + n by {
            lemma_single_head(ts, start, n, st);
            lemma_list_parts(ts, start, n, st);
        }
        Ok(res)
    }

    /// A local block, after its `local` at `start`.
    #[verifier::rlimit(100)]
    fn parse_local_rest(&mut self, Ghost(start): Ghost<int>) -> (r: Result<Statement, ParseError>)
        requires
            old(self).wf(),
            0 <= start < old(self).position(),
            old(self).position() == start + 1,
            old(self).input()[start] == sym(Symbol::Local),
        ensures
            Parser::advanced(*old(self), *final(self)),
            r matches Ok(s) ==> stmt_wf(s@) && !(s@ is Sequence) && spells(
                s@,
                final(self).input().subrange(start, final(self).position() as int),
            ),
            forall|s: StmtV, n: int|
                #[trigger] single_at(old(self).input(), start, n, s) ==> (r matches Ok(x) && x@ == s
                    && final(self).position() == start + n),
        decreases old(self).remaining(), 2nat,
    {
        let ghost ts = self.input();
        let ghost wit = exists|s: StmtV, n: int| #[trigger] single_at(ts, start, n, s);
        let ghost pick = choose|s: StmtV, n: int| #[trigger] single_at(ts, start, n, s);
        proof {
            if wit {
                lemma_single_head(ts, start, pick.1, pick.0);
                let _ = lemma_local_parts(ts, start, pick.1, pick.0);
            }
        }
        let ghost pos0 = self.pos as int;
        let txl = self.parse_typed_variable()?;
        let ghost pos1 = self.pos as int;
        self.pop_assert(Symbol::Equal)?;
        let el = self.parse_expr(0)?;
        let ghost pos2 = self.pos as int;
        let s = self.parse_statement()?;
        let ghost pos3 = self.pos as int;
        self.pop_assert(Symbol::Delocal)?;
        let txr = self.parse_typed_variable()?;
        let ghost pos4 = self.pos as int;
        self.pop_assert(Symbol::Equal)?;
        let er = self.parse_expr(0)?;
        if !(txl == txr) {
            return Err(ParseError::LocalMismatch(txl, txr));
        }
        proof {
            let a = ts.subrange(pos0, pos1);
            let c = ts.subrange(pos2, pos3);
            let d = ts.subrange(pos3 + 1, pos4);
            assert(ts.subrange(start, self.pos as int) =~= seq![ts[start]] + a + seq![ts[pos1]]
                + ts.subrange(pos1 + 1, pos2) + c + seq![ts[pos3]] + d + seq![ts[pos4]] + ts.subrange(
                pos4 + 1,
                self.pos as int,
            ));
            assert(ts.subrange(start, self.pos as int) == local_tokens(a, el@, c, d, er@));
            assert(decl_spelled(txl@, a) && spells(s@, c) && decl_spelled(txr@, d));
        }
        let res = Statement::LocalDelocal(txl, el, Box::new(s), txr, er);
        assert forall|st: StmtV, n: int| single_at(ts, start, n, st) implies res@ == st && self.pos
            == start + n by {
            lemma_single_head(ts, start, n, st);
            let _ = lemma_local_parts(ts, start, n, st);
        }
        Ok(res)
    }

    /// A call or uncall, after its keyword `s` at `start`.
    fn parse_call_rest(&mut self, s: Symbol, Ghost(start): Ghost<int>) -> (r: Result<
        Statement,
        ParseError,
    >)
        requires
            old(self).wf(),
            0 <= start < old(self).position(),
            old(self).position() == start + 1,
            old(self).input()[start] == sym(s),
            s == Symbol::Call || s == Symbol::Uncall,
        ensures
            Parser::advanced(*old(self), *final(self)),
            r matches Ok(st) ==> stmt_wf(st@) && !(st@ is Sequence) && spells(
                st@,
                final(self).input().subrange(start, final(self).position() as int),
            ),
            forall|st: StmtV, n: int|
                #[trigger] single_at(old(self).input(), start, n, st) ==> (r matches Ok(x) && x@ == st
                    && final(self).position() == start + n),
    {
        let ghost ts = self.input();
        let ghost wit = exists|st: StmtV, n: int| #[trigger] single_at(ts, start, n, st);
        let ghost pick = choose|st: StmtV, n: int| #[trigger] single_at(ts, start, n, st);
        proof {
            if wit {
                lemma_single_head(ts, start, pick.1, pick.0);
                lemma_call_parts(ts, start, pick.1, pick.0);
            }
        }
        let q = self.parse_proc_id()?;
        self.pop_assert(Symbol::LParen)?;
        let ghost pos0 = self.pos as int;
        let mut args: Vec<Variable> = Vec::new();
        if !self.at(Symbol::RParen) {
            let x = self.parse_variable()?;
            args.push(x);
            assert(names(args@) =~= seq![x@]);
            assert(ts.subrange(pos0, self.pos as int) =~= names_tokens(names(args@)));
            assert forall|st: StmtV, n: int| single_at(ts, start, n, st) implies call_args(st).len() > 0
                && names(args@) == call_args(st).take(args@.len() as int) && self.pos == pos0 + 2
                * args@.len() - 1 by {
                lemma_single_head(ts, start, n, st);
                lemma_call_parts(ts, start, n, st);
                assert(names(args@) =~= call_args(st).take(1));
            }
            while self.at(Symbol::Comma)
                invariant
                    Parser::advanced(*old(self), *self),
                    ts == old(self).input(),
                    0 <= start < pos0 < self.pos <= ts.len(),
                    pos0 == start + 3,
                    ts.subrange(pos0, self.pos as int) == names_tokens(names(args@)),
                    args@.len() >= 1,
                    wit == (exists|st: StmtV, n: int| #[trigger] single_at(ts, start, n, st)),
                    wit ==> single_at(ts, start, pick.1, pick.0),
                    forall|st: StmtV, n: int|
                        single_at(ts, start, n, st) ==> call_args(st).len() >= args@.len() && names(
                            args@,
                        ) == call_args(st).take(args@.len() as int) && self.pos == pos0 + 2
                            * args@.len() - 1,
                decreases self.remaining(),
            {
                let ghost mid = self.pos as int;
                proof {
                    if wit {
                        lemma_call_parts(ts, start, pick.1, pick.0);
                        let j = args@.len() as int;
                        assert(ts[start + 3 + 2 * (j - 1)] == TokenV::Name(call_args(pick.0)[j - 1]));
                        if j < call_args(pick.0).len() {
                            assert(ts[start + 3 + 2 * j] == TokenV::Name(call_args(pick.0)[j]));
                        }
                    }
                }
                self.pop_assert(Symbol::Comma)?;
                let x = self.parse_variable()?;
                let ghost prev = names(args@);
                args.push(x);
                assert(names(args@) =~= prev.push(x@));
                assert(names(args@).drop_last() =~= prev);
                assert(ts.subrange(pos0, self.pos as int) =~= ts.subrange(pos0, mid) + seq![
                    ts[mid],
                    ts[mid + 1],
                ]);
                assert forall|st: StmtV, n: int| single_at(ts, start, n, st) implies call_args(st).len()
                    >= args@.len() && names(args@) == call_args(st).take(args@.len() as int)
                    && self.pos == pos0 + 2 * args@.len() - 1 by {
                    lemma_single_head(ts, start, n, st);
                    lemma_call_parts(ts, start, n, st);
                    let j = prev.len() as int;
                    assert(ts[start + 3 + 2 * (j - 1)] == TokenV::Name(call_args(st)[j - 1]));
                    if j == call_args(st).len() {
                        assert(ts[mid] == sym(Symbol::RParen));
                    }
                    assert(ts[start + 3 + 2 * j] == TokenV::Name(call_args(st)[j]));
                    assert(names(args@) =~= call_args(st).take(j + 1));
                }
            }
            proof {
                if wit {
                    lemma_call_parts(ts, start, pick.1, pick.0);
                }
            }
            assert forall|st: StmtV, n: int| single_at(ts, start, n, st) implies names(args@)
                == call_args(st) && self.pos == pos0 + 2 * args@.len() - 1 by {
                lemma_single_head(ts, start, n, st);
                lemma_call_parts(ts, start, n, st);
                let j = args@.len() as int;
                if j < call_args(st).len() {
                    assert(ts[start + 3 + 2 * (j - 1)] == TokenV::Name(call_args(st)[j - 1]));
                    assert(ts[start + 4 + 2 * (j - 1)] == sym(Symbol::Comma));
                }
                assert(call_args(st).take(j) =~= call_args(st));
            }
        } else {
            assert forall|st: StmtV, n: int| single_at(ts, start, n, st) implies call_args(st).len()
                == 0 by {
                lemma_single_head(ts, start, n, st);
                lemma_call_parts(ts, start, n, st);
                if call_args(st).len() > 0 {
                    assert(ts[start + 3] == TokenV::Name(call_args(st)[0]));
                }
            }
            assert(names(args@) =~= Seq::<Seq<char>>::empty());
            assert(ts.subrange(pos0, self.pos as int) =~= Seq::<TokenV>::empty());
            assert forall|st: StmtV, n: int| single_at(ts, start, n, st) implies names(args@)
                == call_args(st) && self.pos == pos0 by {
                lemma_single_head(ts, start, n, st);
                lemma_call_parts(ts, start, n, st);
                assert(call_args(st) =~= names(args@));
            }
        }
        let ghost pos1 = self.pos as int;
        assert forall|st: StmtV, n: int| single_at(ts, start, n, st) implies names(args@) == call_args(
            st,
        ) && pos1 == start + n - 1 by {
            lemma_single_head(ts, start, n, st);
            lemma_call_parts(ts, start, n, st);
        }
        self.pop_assert(Symbol::RParen)?;
        assert(ts.subrange(start, self.pos as int) =~= seq![ts[start], ts[start + 1], ts[start + 2]]
            + ts.subrange(pos0, pos1) + seq![ts[pos1]]);
        let res = match s {
            Symbol::Call => Statement::Call(q, args),
            _ => Statement::Uncall(q, args),
        };
        assert forall|st: StmtV, n: int| single_at(ts, start, n, st) implies res@ == st && self.pos
            == start + n by {
            lemma_single_head(ts, start, n, st);
            lemma_call_parts(ts, start, n, st);
        }
        Ok(res)
    }

    /// An indexed swap, after its `swap` at `start`.
    fn parse_swap_rest(&mut self, Ghost(start): Ghost<int>) -> (r: Result<Statement, ParseError>)
        requires
            old(self).wf(),
            0 <= start < old(self).position(),
            old(self).position() == start + 1,
            old(self).input()[start] == sym(Symbol::Swap),
        ensures
            Parser::advanced(*old(self), *final(self)),
            r matches Ok(s) ==> stmt_wf(s@) && !(s@ is Sequence) && spells(
                s@,
                final(self).input().subrange(start, final(self).position() as int),
            ),
            forall|s: StmtV, n: int|
                #[trigger] single_at(old(self).input(), start, n, s) ==> (r matches Ok(x) && x@ == s
                    && final(self).position() == start + n),
    {
        let ghost ts = self.input();
        let ghost wit = exists|s: StmtV, n: int| #[trigger] single_at(ts, start, n, s);
        let ghost pick = choose|s: StmtV, n: int| #[trigger] single_at(ts, start, n, s);
        proof {
            if wit {
                lemma_single_head(ts, start, pick.1, pick.0);
                lemma_swap_parts(ts, start, pick.1, pick.0);
            }
        }
        self.pop_assert(Symbol::LParen)?;
        let x = self.parse_variable()?;
        self.pop_assert(Symbol::Comma)?;
        let ghost pos0 = self.pos as int;
        let l = self.parse_expr(0)?;
        let ghost pos1 = self.pos as int;
        self.pop_assert(Symbol::Comma)?;
        let r = self.parse_expr(0)?;
        let ghost pos2 = self.pos as int;
        self.pop_assert(Symbol::RParen)?;
        assert(ts.subrange(start, self.pos as int) =~= seq![
            ts[start],
            ts[start + 1],
            ts[start + 2],
            ts[start + 3],
        ] + ts.subrange(pos0, pos1) + seq![ts[pos1]] + ts.subrange(pos1 + 1, pos2) + seq![ts[pos2]]);
        let res = Statement::IndexedSwap(x, l, r);
        assert forall|s: StmtV, n: int| single_at(ts, start, n, s) implies res@ == s && self.pos
            == start + n by {
            lemma_single_head(ts, start, n, s);
            lemma_swap_parts(ts, start, n, s);
        }
        Ok(res)
    }

    /// A for-loop, after its `for` at `start`.
    fn parse_for_rest(&mut self, Ghost(start): Ghost<int>) -> (r: Result<Statement, ParseError>)
        requires
            old(self).wf(),
            0 <= start < old(self).position(),
            old(self).position() == start + 1,
            old(self).input()[start] == sym(Symbol::For),
        ensures
            Parser::advanced(*old(self), *final(self)),
            r matches Ok(s) ==> stmt_wf(s@) && !(s@ is Sequence) && spells(
                s@,
                final(self).input().subrange(start, final(self).position() as int),
            ),
        decreases old(self).remaining(), 2nat,
    {
        let ghost ts = self.input();
        let ghost pos0 = self.pos as int;
        let vars = self.parse_loop_vars()?;
        let ghost pos1 = self.pos as int;
        self.pop_assert(Symbol::In)?;
        let containers = self.parse_loop_containers()?;
        let ghost pos2 = self.pos as int;
        if vars.len() != containers.len() || containers.len() == 0 {
            return Err(ParseError::ForArity(vars.len(), containers.len()));
        }
        let s = self.parse_statement()?;
        let ghost pos3 = self.pos as int;
        self.pop_assert(Symbol::End)?;
        proof {
            let a = ts.subrange(pos0, pos1);
            let c = ts.subrange(pos1 + 1, pos2);
            let d = ts.subrange(pos2, pos3);
            assert(ts.subrange(start, self.pos as int) =~= seq![ts[start]] + a + seq![ts[pos1]] + c + d
                + seq![ts[pos3]]);
            assert(ts.subrange(start, self.pos as int) == for_tokens(a, c, d));
            assert(loop_vars_spelled(packs_of(vars@), a) && loop_containers_spelled(
                containers_of(containers@),
                c,
            ) && spells(s@, d));
        }
        Ok(Statement::For(For { vars, containers, statement: Box::new(s) }))
    }

    /// The loop variables of a for-loop.
    fn parse_loop_vars(&mut self) -> (r: Result<Vec<Vec<Variable>>, ParseError>)
        requires
            old(self).wf(),
        ensures
            Parser::advanced(*old(self), *final(self)),
            r matches Ok(vars) ==> final(self).position() > old(self).position() && loop_vars_spelled(
                packs_of(vars@),
                Parser::consumed(*old(self), *final(self)),
            ),
    {
        let ghost ts = self.input();
        let ghost start = self.pos as int;
        let mut vars: Vec<Vec<Variable>> = Vec::new();
        if self.at(Symbol::LParen) {
            self.pop_assert(Symbol::LParen)?;
            let ghost pos0 = self.pos as int;
            let pack = self.parse_var_pack()?;
            vars.push(pack);
            assert(packs_of(vars@) =~= seq![names(pack@)]);
            assert(packs_spelled(packs_of(vars@), ts.subrange(pos0, self.pos as int)));
            loop
                invariant
                    Parser::advanced(*old(self), *self),
                    ts == old(self).input(),
                    start == old(self).position(),
                    0 <= start < pos0 <= self.pos <= ts.len(),
                    pos0 == start + 1,
                    ts[start] == sym(Symbol::LParen),
                    vars@.len() >= 1,
                    packs_spelled(packs_of(vars@), ts.subrange(pos0, self.pos as int)),
                decreases self.remaining(),
            {
                let ghost mid = self.pos as int;
                match self.pop_front()? {
                    Token::Symbol(Symbol::Comma) => {},
                    Token::Symbol(Symbol::RParen) => {
                        proof {
                            let t = ts.subrange(start, self.pos as int);
                            assert(t.subrange(1, t.len() - 1) =~= ts.subrange(pos0, mid));
                        }
                        return Ok(vars);
                    },
                    t => return Err(ParseError::UnexpectedToken(t)),
                }
                let ghost p = self.pos as int;
                let pack = self.parse_var_pack()?;
                let ghost prev = packs_of(vars@);
                vars.push(pack);
                proof {
                    assert(packs_of(vars@).drop_last() =~= prev);
                    assert(packs_of(vars@).last() == names(pack@));
                    let u = ts.subrange(pos0, mid);
                    let w = ts.subrange(p, self.pos as int);
                    assert(ts.subrange(pos0, self.pos as int) =~= u + seq![sym(Symbol::Comma)] + w);
                    assert(packs_spelled(packs_of(vars@).drop_last(), u) && pack_spelled(
                        packs_of(vars@).last(),
                        w,
                    ));
                }
            }
        } else {
            let pack = self.parse_var_pack()?;
            vars.push(pack);
            assert(packs_of(vars@) =~= seq![names(pack@)]);
            Ok(vars)
        }
    }

    /// The containers of a for-loop.
    fn parse_loop_containers(&mut self) -> (r: Result<Vec<(Variable, Option<Variable>)>, ParseError>)
        requires
            old(self).wf(),
        ensures
            Parser::advanced(*old(self), *final(self)),
            r matches Ok(cs) ==> final(self).position() > old(self).position()
                && loop_containers_spelled(
                containers_of(cs@),
                Parser::consumed(*old(self), *final(self)),
            ),
    {
        let ghost ts = self.input();
        let ghost start = self.pos as int;
        let mut cs: Vec<(Variable, Option<Variable>)> = Vec::new();
        if self.at(Symbol::LParen) {
            self.pop_assert(Symbol::LParen)?;
            let ghost pos0 = self.pos as int;
            let c = self.parse_maybe_indexed()?;
            let ghost cv = container_view(c);
            cs.push(c);
            assert(containers_of(cs@) =~= seq![cv]);
            assert(ts.subrange(pos0, self.pos as int) =~= containers_tokens(containers_of(cs@)));
            loop
                invariant
                    Parser::advanced(*old(self), *self),
                    ts == old(self).input(),
                    start == old(self).position(),
                    0 <= start < pos0 <= self.pos <= ts.len(),
                    pos0 == start + 1,
                    ts[start] == sym(Symbol::LParen),
                    cs@.len() >= 1,
                    ts.subrange(pos0, self.pos as int) == containers_tokens(containers_of(cs@)),
                decreases self.remaining(),
            {
                let ghost mid = self.pos as int;
                match self.pop_front()? {
                    Token::Symbol(Symbol::Comma) => {},
                    Token::Symbol(Symbol::RParen) => {
                        assert(ts.subrange(start, self.pos as int) =~= seq![ts[start]]
                            + ts.subrange(pos0, mid) + seq![ts[mid]]);
                        return Ok(cs);
                    },
                    t => return Err(ParseError::UnexpectedToken(t)),
                }
                let ghost p = self.pos as int;
                let c = self.parse_maybe_indexed()?;
                let ghost cv = container_view(c);
                let ghost prev = containers_of(cs@);
                cs.push(c);
                proof {
                    assert(containers_of(cs@).drop_last() =~= prev);
                    assert(containers_of(cs@).last() == cv);
                    assert(ts.subrange(pos0, self.pos as int) =~= ts.subrange(pos0, mid) + seq![ts[mid]]
                        + ts.subrange(p, self.pos as int));
                }
            }
        } else {
            let c = self.parse_maybe_indexed()?;
            let ghost cv = container_view(c);
            cs.push(c);
            assert(containers_of(cs@) =~= seq![cv]);
            Ok(cs)
        }
    }

    /// The elements of a matrix literal, after its opening bracket: integers,
    /// optionally negated, optionally separated by semicolons, up to the
    /// closing bracket. The matrix must be involutory. Whenever the tokens up
    /// to a closing bracket spell elements, they are read, and the result is
    /// a matrix of them exactly when they form an involutory matrix.
    fn parse_mat(&mut self) -> (r: Result<InvlMat, ParseError>)
        requires
            old(self).wf(),
        ensures
            Parser::advanced(*old(self), *final(self)),
            r matches Ok(m) ==> final(self).position() > old(self).position() && m.wf()
                && numbers_spelled(
                m.square().elems(),
                final(self).input().subrange(old(self).position() as int, final(self).position() - 1),
            ) && final(self).input()[final(self).position() - 1] == sym(Symbol::RBracket),
            forall|ns: Seq<i32>, k: int|
                #[trigger] mat_at(old(self).input(), old(self).position() as int, k, ns) ==> (final(self).position()
                    == k + 1 && (r is Ok <==> exists|n: nat|
                    #[trigger] sq(n) == ns.len() && is_involutory(ns, n)) && (r matches Ok(m)
                    ==> m.square().elems() == ns) && (r is Err ==> r matches Err(ParseError::Matrix(_)))),
    {
        let ghost ts = self.input();
        let ghost pos0 = self.pos as int;
        let ghost wit = exists|ns: Seq<i32>, k: int| #[trigger] mat_at(ts, pos0, k, ns);
        let ghost pick = choose|ns: Seq<i32>, k: int| #[trigger] mat_at(ts, pos0, k, ns);
        let ghost ns0 = pick.0;
        let ghost k0 = pick.1;
        let mut numbers: Vec<i32> = Vec::new();
        proof {
            if wit && ns0.len() > 0 {
                lemma_numbers_start(ns0, ts.subrange(pos0, k0));
                assert(ts[pos0] == ts.subrange(pos0, k0)[0]);
            }
            if wit && ns0.len() == 0 {
                assert(ts.subrange(pos0, k0).len() == 0);
            }
        }
        if !self.at(Symbol::RBracket) {
            assert forall|ns: Seq<i32>, k: int| mat_at(ts, pos0, k, ns) implies numbers@.len()
                < ns.len() && numbers@ == ns.take(numbers@.len() as int) && self.pos <= k
                && numbers_spelled(ns.skip(numbers@.len() as int), ts.subrange(self.pos as int, k)) by {
                if ns.len() == 0 {
                    assert(ts.subrange(pos0, k).len() == 0);
                }
                assert(ns.skip(0) =~= ns);
                assert(numbers@ =~= ns.take(0));
            }
            loop
                invariant_except_break
                    forall|ns: Seq<i32>, k: int|
                        mat_at(ts, pos0, k, ns) ==> numbers@.len() < ns.len() && numbers@ == ns.take(
                            numbers@.len() as int,
                        ) && self.pos <= k && numbers_spelled(
                            ns.skip(numbers@.len() as int),
                            ts.subrange(self.pos as int, k),
                        ),
                invariant
                    Parser::advanced(*old(self), *self),
                    ts == old(self).input(),
                    pos0 == old(self).position(),
                    pos0 <= self.pos <= ts.len(),
                    numbers@.len() == 0 ==> self.pos == pos0,
                    numbers@.len() > 0 ==> numbers_spelled(numbers@, ts.subrange(pos0, self.pos as int))
                        || (self.pos > pos0 && ts[self.pos - 1] == sym(Symbol::Semicolon)
                        && numbers_spelled(numbers@, ts.subrange(pos0, self.pos - 1))),
                    wit == (exists|ns: Seq<i32>, k: int| #[trigger] mat_at(ts, pos0, k, ns)),
                    wit ==> mat_at(ts, pos0, k0, ns0),
                ensures
                    Parser::advanced(*old(self), *self),
                    ts == old(self).input(),
                    pos0 <= self.pos <= ts.len(),
                    numbers_spelled(numbers@, ts.subrange(pos0, self.pos as int)),
                    forall|ns: Seq<i32>, k: int|
                        mat_at(ts, pos0, k, ns) ==> numbers@ == ns && self.pos == k,
                decreases self.remaining(),
            {
                let ghost mid = self.pos as int;
                let ghost j = numbers@.len() as int;
                proof {
                    if wit {
                        lemma_numbers_start(ns0.skip(j), ts.subrange(mid, k0));
                        assert(ts[mid] == ts.subrange(mid, k0)[0]);
                        if ts[mid] == sym(Symbol::Minus) {
                            assert(ts[mid + 1] == ts.subrange(mid, k0)[1]);
                        }
                    }
                }
                let n = self.parse_literal()?;
                let ghost prev = numbers@;
                let ghost was_sep = !numbers_spelled(prev, ts.subrange(pos0, mid));
                numbers.push(n);
                proof {
                    let w = ts.subrange(mid, self.pos as int);
                    assert(numbers@ == prev.push(n));
                    if prev.len() == 0 {
                        assert(ts.subrange(pos0, mid) =~= Seq::<TokenV>::empty());
                        lemma_numbers_snoc(prev, ts.subrange(pos0, mid), n, w, false);
                        assert(ts.subrange(pos0, self.pos as int) =~= ts.subrange(pos0, mid) + w);
                    } else if was_sep {
                        lemma_numbers_snoc(prev, ts.subrange(pos0, mid - 1), n, w, true);
                        assert(ts.subrange(pos0, self.pos as int) =~= ts.subrange(pos0, mid - 1) + seq![
                            sym(Symbol::Semicolon),
                        ] + w);
                    } else {
                        lemma_numbers_snoc(prev, ts.subrange(pos0, mid), n, w, false);
                        assert(ts.subrange(pos0, self.pos as int) =~= ts.subrange(pos0, mid) + w);
                    }
                }
                assert forall|ns: Seq<i32>, k: int| mat_at(ts, pos0, k, ns) implies ns[j] == n && ({
                    let rest = ts.subrange(self.pos as int, k);
                    &&& self.pos <= k
                    &&& (j + 1 == ns.len() ==> rest.len() == 0)
                    &&& (j + 1 < ns.len() && rest.len() > 0 && rest[0] == sym(Symbol::Semicolon)
                        ==> numbers_spelled(ns.skip(j + 1), rest.skip(1)))
                    &&& (j + 1 < ns.len() && !(rest.len() > 0 && rest[0] == sym(Symbol::Semicolon))
                        ==> numbers_spelled(ns.skip(j + 1), rest))
                    &&& (j + 1 < ns.len() ==> rest.len() > 0 && rest[0] != sym(Symbol::RBracket))
                }) by {
                    let t = ts.subrange(mid, k);
                    lemma_numbers_start(ns.skip(j), t);
                    assert(ts[mid] == t[0]);
                    if ts[mid] == sym(Symbol::Minus) {
                        assert(ts[mid + 1] == t[1]);
                    }
                    let ll = lit_len(t);
                    assert(t.take(ll) =~= ts.subrange(mid, self.pos as int));
                    assert(t.skip(ll) =~= ts.subrange(self.pos as int, k));
                    assert(ns.skip(j)[0] == ns[j]);
                    assert(ns.skip(j).skip(1) =~= ns.skip(j + 1));
                    if j + 1 < ns.len() {
                        let rest = t.skip(ll);
                        if rest.len() > 0 && rest[0] == sym(Symbol::Semicolon) {
                            lemma_numbers_start(ns.skip(j + 1), rest.skip(1));
                        } else {
                            lemma_numbers_start(ns.skip(j + 1), rest);
                        }
                    }
                }
                proof {
                    assert forall|ns: Seq<i32>, k: int| mat_at(ts, pos0, k, ns) implies numbers@
                        == ns.take(j + 1) by {
                        assert(ns.take(j + 1) =~= ns.take(j).push(ns[j]));
                    }
                }
                let ghost after = self.pos as int;
                proof {
                    if wit {
                        if after < k0 {
                            assert(ts[after] == ts.subrange(after, k0)[0]);
                        }
                    }
                }
                match self.seek_front()? {
                    Token::Symbol(Symbol::Semicolon) => {
                        self.pop_assert(Symbol::Semicolon)?;
                        assert forall|ns: Seq<i32>, k: int| mat_at(ts, pos0, k, ns) implies numbers@.len()
                            < ns.len() && self.pos <= k && numbers_spelled(
                            ns.skip(numbers@.len() as int),
                            ts.subrange(self.pos as int, k),
                        ) by {
                            let rest = ts.subrange(after, k);
                            if after == k {
                                assert(ts[k] == sym(Symbol::RBracket));
                            }
                            assert(rest[0] == ts[after]);
                            assert(rest.skip(1) =~= ts.subrange(self.pos as int, k));
                        }
                    },
                    Token::Symbol(Symbol::RBracket) => {
                        assert forall|ns: Seq<i32>, k: int| mat_at(ts, pos0, k, ns) implies numbers@
                            == ns && self.pos == k by {
                            let rest = ts.subrange(after, k);
                            if j + 1 < ns.len() {
                                assert(rest[0] == ts[after]);
                            }
                            assert(ns.take(ns.len() as int) =~= ns);
                        }
                        break;
                    },
                    _ => {
                        assert forall|ns: Seq<i32>, k: int| mat_at(ts, pos0, k, ns) implies numbers@.len()
                            < ns.len() && self.pos <= k && numbers_spelled(
                            ns.skip(numbers@.len() as int),
                            ts.subrange(self.pos as int, k),
                        ) by {
                            let rest = ts.subrange(after, k);
                            if after == k {
                                assert(ts[k] == sym(Symbol::RBracket));
                            } else {
                                assert(rest[0] == ts[after]);
                            }
                        }
                    },
                }
            }
        } else {
            assert(ts.subrange(pos0, self.pos as int) =~= Seq::<TokenV>::empty());
            assert forall|ns: Seq<i32>, k: int| mat_at(ts, pos0, k, ns) implies numbers@ == ns
                && self.pos == k by {
                if ns.len() > 0 {
                    lemma_numbers_start(ns, ts.subrange(pos0, k));
                    assert(ts[pos0] == ts.subrange(pos0, k)[0]);
                } else {
                    assert(ts.subrange(pos0, k).len() == 0);
                }
                assert(numbers@ =~= ns);
            }
        }
        let ghost pos1 = self.pos as int;
        self.pop_assert(Symbol::RBracket)?;
        let ghost n = ts.subrange(pos0, pos1);
        let ghost ns = numbers@;
        assert(numbers_spelled(ns, n));
        assert(ts.subrange(pos0, self.pos as int) =~= n + seq![sym(Symbol::RBracket)]);
        match InvlMat::new(numbers) {
            Ok(m) => {
                assert(numbers_spelled(m.square().elems(), n));
                Ok(m)
            },
            Err(e) => Err(ParseError::Matrix(e)),
        }
    }

    /// Declarations separated by commas, up to a closing parenthesis that
    /// is not consumed.
    fn parse_params(&mut self) -> (r: Result<Vec<TypedVariable>, ParseError>)
        requires
            old(self).wf(),
        ensures
            Parser::advanced(*old(self), *final(self)),
            r matches Ok(ps) ==> decls_spelled(decls_of(ps@), Parser::consumed(*old(self), *final(self))),
    {
        let ghost ts = self.input();
        let ghost pos0 = self.pos as int;
        let mut args: Vec<TypedVariable> = Vec::new();
        if self.at(Symbol::RParen) {
            assert(decls_of(args@) =~= Seq::<(Type, Seq<char>)>::empty());
            assert(ts.subrange(pos0, self.pos as int) =~= Seq::<TokenV>::empty());
            return Ok(args);
        }
        let tv = self.parse_typed_variable()?;
        let ghost tvv = tv@;
        args.push(tv);
        assert(decls_of(args@) =~= seq![tvv]);
        while self.at(Symbol::Comma)
            invariant
                Parser::advanced(*old(self), *self),
                ts == old(self).input(),
                pos0 == old(self).position(),
                pos0 <= self.pos <= ts.len(),
                args@.len() >= 1,
                decls_spelled(decls_of(args@), ts.subrange(pos0, self.pos as int)),
            decreases self.remaining(),
        {
            let ghost mid = self.pos as int;
            self.pop_assert(Symbol::Comma)?;
            let tv = self.parse_typed_variable()?;
            let ghost tvv = tv@;
            let ghost prev = decls_of(args@);
            args.push(tv);
            proof {
                assert(decls_of(args@).drop_last() =~= prev);
                assert(decls_of(args@).last() == tvv);
                let u = ts.subrange(pos0, mid);
                let w = ts.subrange(mid + 1, self.pos as int);
                assert(ts.subrange(pos0, self.pos as int) =~= u + seq![sym(Symbol::Comma)] + w);
            }
        }
        Ok(args)
    }

    /// A procedure: `inj` or `invl`, its name, and either a parameter list
    /// and body or a matrix literal.
    fn parse_proc(&mut self) -> (r: Result<Proc, ParseError>)
        requires
            old(self).wf(),
        ensures
            Parser::advanced(*old(self), *final(self)),
            r matches Ok(p) ==> final(self).position() > old(self).position() && proc_wf(p)
                && proc_spelled(p, Parser::consumed(*old(self), *final(self))),
    {
        let ghost start = self.pos as int;
        let kw = match self.pop_front()? {
            Token::Symbol(Symbol::Inj) => Symbol::Inj,
            Token::Symbol(Symbol::Invl) => Symbol::Invl,
            t => return Err(ParseError::UnexpectedToken(t)),
        };
        let q = self.parse_proc_id()?;
        let ghost ts = self.input();
        match self.pop_front()? {
            Token::Symbol(Symbol::LParen) => {
                assert(ts.subrange(start, start + 3) =~= proc_head(kw, q@, Symbol::LParen));
                self.parse_params_proc_rest(kw, q, Ghost(start))
            },
            Token::Symbol(Symbol::LBracket) => {
                assert(ts.subrange(start, start + 3) =~= proc_head(kw, q@, Symbol::LBracket));
                self.parse_mat_proc_rest(kw, q, Ghost(start))
            },
            t => Err(ParseError::UnexpectedToken(t)),
        }
    }

    /// The rest of a procedure with parameters, after its opening parenthesis.
    fn parse_params_proc_rest(&mut self, kw: Symbol, q: ProcId, Ghost(start): Ghost<int>) -> (r:
        Result<Proc, ParseError>)
        requires
            old(self).wf(),
            0 <= start,
            old(self).position() == start + 3,
            kw == Symbol::Inj || kw == Symbol::Invl,
            old(self).input().subrange(start, start + 3) == proc_head(kw, q@, Symbol::LParen),
        ensures
            Parser::advanced(*old(self), *final(self)),
            r matches Ok(p) ==> proc_wf(p) && proc_spelled(
                p,
                final(self).input().subrange(start, final(self).position() as int),
            ),
    {
        let ghost ts = self.input();
        let ghost pos0 = self.pos as int;
        let args = self.parse_params()?;
        let ghost pos1 = self.pos as int;
        self.pop_assert(Symbol::RParen)?;
        let ghost a = ts.subrange(pos0, pos1);
        if kw == Symbol::Inj {
            let s = self.parse_statement()?;
            let ghost c = ts.subrange(pos1 + 1, self.pos as int);
            assert(ts.subrange(start, self.pos as int) =~= proc_head(Symbol::Inj, q@, Symbol::LParen)
                + a + seq![sym(Symbol::RParen)] + c);
            let r = Proc::Inj(q, args, s);
            assert(ts.subrange(start, self.pos as int) == proc_head(Symbol::Inj, r->Inj_0@, Symbol::LParen)
                + a + seq![sym(Symbol::RParen)] + c);
            assert(decls_spelled(decls_of(r->Inj_1@), a) && spells(r->Inj_2@, c));
            Ok(r)
        } else {
            let (s, i) = self.parse_bodies()?;
            let ghost b = ts.subrange(pos1 + 1, self.pos as int);
            assert(ts.subrange(start, self.pos as int) =~= proc_head(Symbol::Invl, q@, Symbol::LParen)
                + a + seq![sym(Symbol::RParen)] + b);
            let r = Proc::Invl(q, args, s, i);
            assert(ts.subrange(start, self.pos as int) == proc_head(Symbol::Invl, r->Invl_0@, Symbol::LParen)
                + a + seq![sym(Symbol::RParen)] + b);
            assert(decls_spelled(decls_of(r->Invl_1@), a) && bodies_spelled(r->Invl_2@, r->Invl_3@, b));
            Ok(r)
        }
    }

    /// The rest of a matrix procedure, after its opening bracket.
    fn parse_mat_proc_rest(&mut self, kw: Symbol, q: ProcId, Ghost(start): Ghost<int>) -> (r: Result<
        Proc,
        ParseError,
    >)
        requires
            old(self).wf(),
            0 <= start,
            old(self).position() == start + 3,
            kw == Symbol::Inj || kw == Symbol::Invl,
            old(self).input().subrange(start, start + 3) == proc_head(kw, q@, Symbol::LBracket),
        ensures
            Parser::advanced(*old(self), *final(self)),
            r matches Ok(p) ==> proc_wf(p) && proc_spelled(
                p,
                final(self).input().subrange(start, final(self).position() as int),
            ),
    {
        let ghost ts = self.input();
        let ghost pos0 = self.pos as int;
        let m = self.parse_mat()?;
        let ghost n = ts.subrange(pos0, self.pos - 1);
        assert(ts.subrange(start, self.pos as int) =~= proc_head(kw, q@, Symbol::LBracket) + n + seq![
            sym(Symbol::RBracket),
        ]);
        let r = Proc::Mat(q, m);
        assert(ts.subrange(start, self.pos as int) == proc_head(kw, r->Mat_0@, Symbol::LBracket) + n
            + seq![sym(Symbol::RBracket)]);
        assert(numbers_spelled(r->Mat_1.square().elems(), n));
        Ok(r)
    }

    /// A forward body, which may be left out, then `with` and an involution body.
    fn parse_bodies(&mut self) -> (r: Result<(Statement, Statement), ParseError>)
        requires
            old(self).wf(),
        ensures
            Parser::advanced(*old(self), *final(self)),
            r matches Ok((s, i)) ==> final(self).position() > old(self).position() && stmt_wf(s@)
                && stmt_wf(i@) && bodies_spelled(s@, i@, Parser::consumed(*old(self), *final(self))),
            forall|s: StmtV, i: StmtV, k: int|
                #[trigger] bodies_at(old(self).input(), old(self).position() as int, k, s, i) ==> (r matches Ok(
                    (x, y),
                ) && x@ == s && y@ == i && final(self).position() == old(self).position() + k),
    {
        let ghost ts = self.input();
        let ghost pos0 = self.pos as int;
        let ghost wit = exists|s: StmtV, i: StmtV, k: int| #[trigger] bodies_at(ts, pos0, k, s, i);
        let ghost pick = choose|s: StmtV, i: StmtV, k: int| #[trigger] bodies_at(ts, pos0, k, s, i);
        let ghost mut ka0: int = 0;
        proof {
            if wit {
                ka0 = lemma_bodies_parts(ts, pos0, pick.2, pick.0, pick.1);
            }
        }
        assert(stmt_wf(stmt_view(Statement::Skip)));
        assert(stmt_view(Statement::Skip) is Skip);
        let leave_out = self.at(Symbol::With);
        let s = if leave_out {
            Statement::Skip
        } else {
            self.parse_statement()?
        };
        let ghost pos1 = self.pos as int;
        self.pop_assert(Symbol::With)?;
        let i = self.parse_statement()?;
        proof {
            let b = ts.subrange(pos1 + 1, self.pos as int);
            if leave_out {
                assert(ts.subrange(pos0, self.pos as int) =~= seq![sym(Symbol::With)] + b);
            } else {
                let a = ts.subrange(pos0, pos1);
                assert(ts.subrange(pos0, self.pos as int) =~= a + seq![sym(Symbol::With)] + b);
            }
        }
        assert forall|s2: StmtV, i2: StmtV, k: int| bodies_at(ts, pos0, k, s2, i2) implies s@ == s2
            && i@ == i2 && self.pos == pos0 + k by {
            let _ = lemma_bodies_parts(ts, pos0, k, s2, i2);
        }
        Ok((s, i))
    }

    /// The main block: `invl main ( )`, declarations with optional initial
    /// values, then its bodies.
    #[verifier::rlimit(60)]
    fn parse_main_proc(&mut self) -> (r: Result<MainProc, ParseError>)
        requires
            old(self).wf(),
        ensures
            Parser::advanced(*old(self), *final(self)),
            r matches Ok(m) ==> final(self).position() > old(self).position() && stmt_wf(m.1@)
                && stmt_wf(m.2@) && main_spelled(m, Parser::consumed(*old(self), *final(self))),
            old(self).position() == old(self).input().len() ==> r matches Err(ParseError::UnexpectedEnd),
            old(self).position() < old(self).input().len() && old(self).input()[old(
                self,
            ).position() as int] != sym(Symbol::Invl) ==> r is Err,
    {
        let ghost ts = self.input();
        let ghost start = self.pos as int;
        self.pop_assert(Symbol::Invl)?;
        self.pop_assert(Symbol::Main)?;
        self.pop_assert(Symbol::LParen)?;
        self.pop_assert(Symbol::RParen)?;
        let ghost pos0 = self.pos as int;
        let mut list: Vec<(TypedVariable, Option<Expr>)> = Vec::new();
        assert(list@.map_values(|d: (TypedVariable, Option<Expr>)| main_decl_view(d)) =~= Seq::<
            ((Type, Seq<char>), Option<ExprV>),
        >::empty());
        assert(ts.subrange(pos0, self.pos as int) =~= Seq::<TokenV>::empty());
        loop
            invariant
                Parser::advanced(*old(self), *self),
                ts == old(self).input(),
                start == old(self).position(),
                pos0 == start + 4,
                pos0 <= self.pos <= ts.len(),
                ts.subrange(start, pos0) == main_head(),
                main_decls_spelled(
                    list@.map_values(|d: (TypedVariable, Option<Expr>)| main_decl_view(d)),
                    ts.subrange(pos0, self.pos as int),
                ),
            decreases self.remaining(),
        {
            let starts_decl = match self.seek_front()? {
                Token::Symbol(Symbol::Const) | Token::Symbol(Symbol::Int) | Token::Symbol(
                    Symbol::List,
                ) | Token::Symbol(Symbol::Array) => true,
                _ => false,
            };
            if !starts_decl {
                break;
            }
            let ghost mid = self.pos as int;
            let tx = self.parse_typed_variable()?;
            let ghost p = self.pos as int;
            let d = if self.at(Symbol::Equal) {
                self.pop_assert(Symbol::Equal)?;
                let e = self.parse_expr(0)?;
                (tx, Some(e))
            } else {
                (tx, None)
            };
            let ghost dv = main_decl_view(d);
            let ghost prev = list@.map_values(|d: (TypedVariable, Option<Expr>)| main_decl_view(d));
            list.push(d);
            proof {
                let now = list@.map_values(|d: (TypedVariable, Option<Expr>)| main_decl_view(d));
                assert(now.drop_last() =~= prev);
                assert(now.last() == dv);
                let u = ts.subrange(pos0, mid);
                let w = ts.subrange(mid, self.pos as int);
                if dv.1 is Some {
                    let a = ts.subrange(mid, p);
                    assert(w =~= a + seq![sym(Symbol::Equal)] + ts.subrange(p + 1, self.pos as int));
                }
                assert(ts.subrange(pos0, self.pos as int) =~= cat(u, w));
            }
        }
        let ghost pos1 = self.pos as int;
        let (s, i) = self.parse_bodies()?;
        let m = MainProc(list, s, i);
        proof {
            let a = ts.subrange(pos0, pos1);
            let b = ts.subrange(pos1, self.pos as int);
            assert(ts.subrange(start, self.pos as int) =~= main_head() + a + b);
        }
        Ok(m)
    }

    /// A whole program: the main block, then procedures up to the last
    /// token. All tokens are consumed, and they spell the result.
    pub fn parse_program(&mut self) -> (r: Result<Program, ParseError>)
        requires
            old(self).wf(),
        ensures
            Parser::advanced(*old(self), *final(self)),
            r matches Ok(p) ==> final(self).position() == final(self).input().len() && program_wf(p)
                && program_spelled(p, Parser::consumed(*old(self), *final(self))),
            old(self).position() == old(self).input().len() ==> r matches Err(ParseError::UnexpectedEnd),
            old(self).position() < old(self).input().len() && old(self).input()[old(
                self,
            ).position() as int] != sym(Symbol::Invl) ==> r is Err,
    {
        let ghost ts = self.input();
        let ghost start = self.pos as int;
        let main = self.parse_main_proc()?;
        let ghost pos0 = self.pos as int;
        let mut procs: Vec<Proc> = Vec::new();
        assert(ts.subrange(pos0, self.pos as int) =~= Seq::<TokenV>::empty());
        while !self.is_done()
            invariant
                Parser::advanced(*old(self), *self),
                ts == old(self).input(),
                0 <= pos0 <= self.pos <= ts.len(),
                forall|i: int| 0 <= i < procs@.len() ==> #[trigger] proc_wf(procs@[i]),
                procs_spelled(procs@, ts.subrange(pos0, self.pos as int)),
            decreases self.remaining(),
        {
            let ghost mid = self.pos as int;
            let p = self.parse_proc()?;
            let ghost prev = procs@;
            procs.push(p);
            proof {
                assert(procs@.drop_last() =~= prev);
                lemma_join(ts, pos0, mid, self.pos as int);
                assert(procs@.last() == p);
                assert(procs_spelled(procs@, ts.subrange(pos0, self.pos as int)));
            }
        }
        let r = Program(main, procs);
        proof {
            lemma_join(ts, start, pos0, self.pos as int);
        }
        Ok(r)
    }

    fn parse_variable(&mut self) -> (r: Result<Variable, ParseError>)
        requires
            old(self).wf(),
        ensures
            Parser::advanced(*old(self), *final(self)),
            r matches Ok(x) ==> final(self).position() == old(self).position() + 1 && old(
                self,
            ).input()[old(self).position() as int] == TokenV::Name(x@),
            old(self).position() < old(self).input().len() && old(self).input()[old(
                self,
            ).position() as int] is Name ==> r is Ok,
    {
        match self.pop_front()? {
            Token::Name(x) => Ok(Variable::new(x)),
            t => Err(ParseError::UnexpectedToken(t)),
        }
    }
}

} // verus!
