//! Abstract syntax of the reversible language: types, identifiers,
//! expressions, statements, procedures and whole programs.
use crate::mat::InvlMat;
use vstd::prelude::*;

verus! {

/// The base kind of a type.
#[derive(Debug, Clone, Copy, PartialEq, Eq, Structural)]
pub enum InnerType {
    Int,
    Array(usize),
    List,
}

/// A base kind with an optional `const` qualifier.
#[derive(Debug, Clone, Copy, PartialEq, Eq, Structural)]
pub struct Type {
    pub is_const: bool,
    pub inner: InnerType,
}

#[derive(Debug, Clone, Copy, PartialEq, Eq, Structural)]
pub enum BinOp {
    Add,
    Sub,
    Xor,
    Mul,
    Div,
    Remainder,
    BitwiseAnd,
    BitwiseOr,
    LogicalAnd,
    LogicalOr,
    LessThan,
    GreaterThan,
    Equal,
    NotEqual,
    LessEqual,
    GreaterEqual,
}

#[derive(Debug, Clone, Copy, PartialEq, Eq, Structural)]
pub enum UnrOp {
    Negative,
    Not,
}

/// The in-place operators of a mutation statement.
#[derive(Debug, Clone, Copy, PartialEq, Eq, Structural)]
pub enum MutOp {
    Add,
    Sub,
    Xor,
    Swap,
}

/// A variable name; two variables are equal iff their text is.
#[derive(Debug)]
pub struct Variable(pub String);

impl Variable {
    pub fn new(name: String) -> (r: Self)
        ensures
            r.0 == name,
    {
        Variable(name)
    }
}

impl View for Variable {
    type V = Seq<char>;

    open spec fn view(&self) -> Seq<char> {
        self.0@
    }
}

impl PartialEq for Variable {
    fn eq(&self, o: &Variable) -> (r: bool) {
        self.0 == o.0
    }
}

impl vstd::std_specs::cmp::PartialEqSpecImpl for Variable {
    open spec fn obeys_eq_spec() -> bool {
        true
    }

    open spec fn eq_spec(&self, o: &Variable) -> bool {
        self@ == o@
    }
}

impl Clone for Variable {
    fn clone(&self) -> (r: Self)
        ensures
            r == *self,
    {
        Variable(self.0.clone())
    }
}

/// A procedure name; two names are equal iff their text is.
#[derive(Debug)]
pub struct ProcId(pub String);

impl ProcId {
    pub fn new(name: String) -> (r: Self)
        ensures
            r.0 == name,
    {
        ProcId(name)
    }
}

impl View for ProcId {
    type V = Seq<char>;

    open spec fn view(&self) -> Seq<char> {
        self.0@
    }
}

impl PartialEq for ProcId {
    fn eq(&self, o: &ProcId) -> (r: bool) {
        self.0 == o.0
    }
}

impl vstd::std_specs::cmp::PartialEqSpecImpl for ProcId {
    open spec fn obeys_eq_spec() -> bool {
        true
    }

    open spec fn eq_spec(&self, o: &ProcId) -> bool {
        self@ == o@
    }
}

impl Clone for ProcId {
    fn clone(&self) -> (r: Self)
        ensures
            r == *self,
    {
        ProcId(self.0.clone())
    }
}

/// A type paired with the variable it declares.
#[derive(Debug)]
pub struct TypedVariable(pub Type, pub Variable);

impl PartialEq for TypedVariable {
    fn eq(&self, o: &TypedVariable) -> (r: bool) {
        self.0 == o.0 && self.1 == o.1
    }
}

impl vstd::std_specs::cmp::PartialEqSpecImpl for TypedVariable {
    open spec fn obeys_eq_spec() -> bool {
        true
    }

    open spec fn eq_spec(&self, o: &TypedVariable) -> bool {
        self.0 == o.0 && self.1@ == o.1@
    }
}

impl View for TypedVariable {
    type V = (Type, Seq<char>);

    open spec fn view(&self) -> (Type, Seq<char>) {
        (self.0, self.1@)
    }
}

impl Clone for TypedVariable {
    fn clone(&self) -> (r: Self)
        ensures
            r == *self,
    {
        TypedVariable(self.0, self.1.clone())
    }
}

/// The operand of a push or a pop: a variable, or a literal that is
/// pushed, or checked when popped.
#[derive(Debug)]
pub enum VariableOrLiteral {
    Variable(Variable),
    Literal(i32),
}

/// The mathematical value of a push or pop operand.
pub enum OperandV {
    Variable(Seq<char>),
    Literal(i32),
}

impl View for VariableOrLiteral {
    type V = OperandV;

    open spec fn view(&self) -> OperandV {
        match self {
            VariableOrLiteral::Variable(x) => OperandV::Variable(x@),
            VariableOrLiteral::Literal(n) => OperandV::Literal(*n),
        }
    }
}

impl Clone for VariableOrLiteral {
    fn clone(&self) -> (r: Self)
        ensures
            r@ == self@,
    {
        match self {
            VariableOrLiteral::Variable(x) => VariableOrLiteral::Variable(x.clone()),
            VariableOrLiteral::Literal(n) => VariableOrLiteral::Literal(*n),
        }
    }
}

/// Expressions. Each node owns its children.
#[derive(Debug)]
pub enum Expr {
    Const(i32),
    Variable(Variable),
    Array(Vec<Expr>),
    Indexed(Variable, Box<Expr>),
    BinOp(Box<Expr>, BinOp, Box<Expr>),
    UnrOp(UnrOp, Box<Expr>),
    Empty(Variable),
    Nil,
    Size(Variable),
    Wrapped(Box<Expr>),
}

/// The mathematical value of an expression: the same tree, with names
/// as character sequences and array items as a sequence.
pub enum ExprV {
    Const(i32),
    Variable(Seq<char>),
    Array(Seq<ExprV>),
    Indexed(Seq<char>, Box<ExprV>),
    BinOp(Box<ExprV>, BinOp, Box<ExprV>),
    UnrOp(UnrOp, Box<ExprV>),
    Empty(Seq<char>),
    Nil,
    Size(Seq<char>),
    Wrapped(Box<ExprV>),
}

pub open spec fn expr_view(e: Expr) -> ExprV
    decreases e,
{
    match e {
        Expr::Const(n) => ExprV::Const(n),
        Expr::Variable(x) => ExprV::Variable(x@),
        Expr::Array(es) => ExprV::Array(exprs_view(es@)),
        Expr::Indexed(x, i) => ExprV::Indexed(x@, Box::new(expr_view(*i))),
        Expr::BinOp(l, op, r) => ExprV::BinOp(Box::new(expr_view(*l)), op, Box::new(expr_view(*r))),
        Expr::UnrOp(op, x) => ExprV::UnrOp(op, Box::new(expr_view(*x))),
        Expr::Empty(x) => ExprV::Empty(x@),
        Expr::Nil => ExprV::Nil,
        Expr::Size(x) => ExprV::Size(x@),
        Expr::Wrapped(x) => ExprV::Wrapped(Box::new(expr_view(*x))),
    }
}

pub open spec fn exprs_view(es: Seq<Expr>) -> Seq<ExprV>
    decreases es,
{
    if es.len() == 0 {
        Seq::empty()
    } else {
        exprs_view(es.drop_last()).push(expr_view(es.last()))
    }
}

impl View for Expr {
    type V = ExprV;

    open spec fn view(&self) -> ExprV {
        expr_view(*self)
    }
}

pub proof fn lemma_exprs_view(es: Seq<Expr>)
    ensures
        exprs_view(es).len() == es.len(),
        forall|i: int| 0 <= i < es.len() ==> #[trigger] exprs_view(es)[i] == expr_view(es[i]),
    decreases es.len(),
{
    if es.len() > 0 {
        lemma_exprs_view(es.drop_last());
    }
}

/// Copies a sequence of expressions, element by element.
pub fn clone_exprs(es: &Vec<Expr>) -> (r: Vec<Expr>)
    ensures
        exprs_view(r@) == exprs_view(es@),
    decreases es@,
{
    let mut r: Vec<Expr> = Vec::new();
    let mut i: usize = 0;
    while i < es.len()
        invariant
            i <= es.len(),
            r@.len() == i,
            forall|j: int| 0 <= j < i ==> expr_view(#[trigger] r@[j]) == expr_view(es@[j]),
        decreases es.len() - i,
    {
        proof {
            assert(decreases_to!(es@ => es@[i as int]));
        }
        let c = es[i].clone();
        r.push(c);
        i = i + 1;
    }
    proof {
        lemma_exprs_view(r@);
        lemma_exprs_view(es@);
        assert(exprs_view(r@) =~= exprs_view(es@));
    }
    r
}

impl Clone for Expr {
    fn clone(&self) -> (r: Self)
        ensures
            r@ == self@,
        decreases self,
    {
        match self {
            Expr::Const(n) => Expr::Const(*n),
            Expr::Variable(x) => Expr::Variable(x.clone()),
            Expr::Array(es) => Expr::Array(clone_exprs(es)),
            Expr::Indexed(x, i) => Expr::Indexed(x.clone(), Box::new((**i).clone())),
            Expr::BinOp(l, op, r) => Expr::BinOp(
                Box::new((**l).clone()),
                *op,
                Box::new((**r).clone()),
            ),
            Expr::UnrOp(op, e) => Expr::UnrOp(*op, Box::new((**e).clone())),
            Expr::Empty(x) => Expr::Empty(x.clone()),
            Expr::Nil => Expr::Nil,
            Expr::Size(x) => Expr::Size(x.clone()),
            Expr::Wrapped(e) => Expr::Wrapped(Box::new((**e).clone())),
        }
    }
}

/// Copies a list of variables.
pub fn clone_vars(vs: &Vec<Variable>) -> (r: Vec<Variable>)
    ensures
        r@ == vs@,
{
    let mut r: Vec<Variable> = Vec::new();
    let mut i: usize = 0;
    while i < vs.len()
        invariant
            i <= vs.len(),
            r@ == vs@.subrange(0, i as int),
        decreases vs.len() - i,
    {
        r.push(vs[i].clone());
        i = i + 1;
        assert(r@ =~= vs@.subrange(0, i as int));
    }
    assert(r@ =~= vs@);
    r
}

/// The names of a list of variables.
pub open spec fn names(vs: Seq<Variable>) -> Seq<Seq<char>> {
    vs.map_values(|v: Variable| v@)
}

/// The names of a container and of its optional permutation index.
pub open spec fn container_view(c: (Variable, Option<Variable>)) -> (Seq<char>, Option<Seq<char>>) {
    (
        c.0@,
        match c.1 {
            Some(i) => Some(i@),
            None => None,
        },
    )
}

/// A loop over one or more containers. The `i`-th pack of loop
/// variables walks the `i`-th container, in the order that its optional
/// permutation index gives.
#[derive(Debug)]
pub struct For {
    pub vars: Vec<Vec<Variable>>,
    pub containers: Vec<(Variable, Option<Variable>)>,
    pub statement: Box<Statement>,
}

/// Statements. Each node owns its children.
#[derive(Debug)]
pub enum Statement {
    Mut(Variable, MutOp, Expr),
    IndexedMut(Variable, Expr, MutOp, Expr),
    IfThenElseFi(Expr, Box<Statement>, Box<Statement>, Expr),
    FromDoLoopUntil(Expr, Box<Statement>, Box<Statement>, Expr),
    IndexedSwap(Variable, Expr, Expr),
    PushFront(VariableOrLiteral, Variable),
    PushBack(VariableOrLiteral, Variable),
    PopFront(VariableOrLiteral, Variable),
    PopBack(VariableOrLiteral, Variable),
    LocalDelocal(TypedVariable, Expr, Box<Statement>, TypedVariable, Expr),
    Call(ProcId, Vec<Variable>),
    Uncall(ProcId, Vec<Variable>),
    Skip,
    Print(Variable),
    For(For),
    IfThenElse(Expr, Box<Statement>, Box<Statement>),
    Sequence(Box<Statement>, Box<Statement>),
}

/// The mathematical value of a statement.
pub enum StmtV {
    Mut(Seq<char>, MutOp, ExprV),
    IndexedMut(Seq<char>, ExprV, MutOp, ExprV),
    IfThenElseFi(ExprV, Box<StmtV>, Box<StmtV>, ExprV),
    FromDoLoopUntil(ExprV, Box<StmtV>, Box<StmtV>, ExprV),
    IndexedSwap(Seq<char>, ExprV, ExprV),
    PushFront(OperandV, Seq<char>),
    PushBack(OperandV, Seq<char>),
    PopFront(OperandV, Seq<char>),
    PopBack(OperandV, Seq<char>),
    LocalDelocal((Type, Seq<char>), ExprV, Box<StmtV>, (Type, Seq<char>), ExprV),
    Call(Seq<char>, Seq<Seq<char>>),
    Uncall(Seq<char>, Seq<Seq<char>>),
    Skip,
    Print(Seq<char>),
    For(Seq<Seq<Seq<char>>>, Seq<(Seq<char>, Option<Seq<char>>)>, Box<StmtV>),
    IfThenElse(ExprV, Box<StmtV>, Box<StmtV>),
    Sequence(Box<StmtV>, Box<StmtV>),
}

pub open spec fn stmt_view(s: Statement) -> StmtV
    decreases s,
{
    match s {
        Statement::Mut(x, op, e) => StmtV::Mut(x@, op, e@),
        Statement::IndexedMut(x, i, op, e) => StmtV::IndexedMut(x@, i@, op, e@),
        Statement::IfThenElseFi(el, sl, sr, er) => StmtV::IfThenElseFi(
            el@,
            Box::new(stmt_view(*sl)),
            Box::new(stmt_view(*sr)),
            er@,
        ),
        Statement::FromDoLoopUntil(el, sl, sr, er) => StmtV::FromDoLoopUntil(
            el@,
            Box::new(stmt_view(*sl)),
            Box::new(stmt_view(*sr)),
            er@,
        ),
        Statement::IndexedSwap(x, l, r) => StmtV::IndexedSwap(x@, l@, r@),
        Statement::PushFront(l, r) => StmtV::PushFront(l@, r@),
        Statement::PushBack(l, r) => StmtV::PushBack(l@, r@),
        Statement::PopFront(l, r) => StmtV::PopFront(l@, r@),
        Statement::PopBack(l, r) => StmtV::PopBack(l@, r@),
        Statement::LocalDelocal(tl, el, s, tr, er) => StmtV::LocalDelocal(
            tl@,
            el@,
            Box::new(stmt_view(*s)),
            tr@,
            er@,
        ),
        Statement::Call(q, args) => StmtV::Call(q@, names(args@)),
        Statement::Uncall(q, args) => StmtV::Uncall(q@, names(args@)),
        Statement::Skip => StmtV::Skip,
        Statement::Print(x) => StmtV::Print(x@),
        Statement::For(f) => StmtV::For(
            f.vars@.map_values(|vs: Vec<Variable>| names(vs@)),
            f.containers@.map_values(|c: (Variable, Option<Variable>)| container_view(c)),
            Box::new(stmt_view(*f.statement)),
        ),
        Statement::IfThenElse(e, sl, sr) => StmtV::IfThenElse(
            e@,
            Box::new(stmt_view(*sl)),
            Box::new(stmt_view(*sr)),
        ),
        Statement::Sequence(l, r) => StmtV::Sequence(
            Box::new(stmt_view(*l)),
            Box::new(stmt_view(*r)),
        ),
    }
}

impl View for Statement {
    type V = StmtV;

    open spec fn view(&self) -> StmtV {
        stmt_view(*self)
    }
}

/// The main block: declared variables with optional initial values, a
/// forward statement, and an involution body.
#[derive(Debug)]
pub struct MainProc(pub Vec<(TypedVariable, Option<Expr>)>, pub Statement, pub Statement);

/// Procedures, by reversibility class.
#[derive(Debug)]
pub enum Proc {
    /// A one-way body, whose backward form is derived by inversion.
    Inj(ProcId, Vec<TypedVariable>, Statement),
    /// A forward body and an explicit involution body.
    Invl(ProcId, Vec<TypedVariable>, Statement, Statement),
    /// A linear transform by an involutory matrix.
    Mat(ProcId, InvlMat),
}

impl Proc {
    pub open spec fn id(&self) -> ProcId {
        match self {
            Proc::Inj(q, _, _) => *q,
            Proc::Invl(q, _, _, _) => *q,
            Proc::Mat(q, _) => *q,
        }
    }
}

/// A main block and the procedures of a program.
#[derive(Debug)]
pub struct Program(pub MainProc, pub Vec<Proc>);

/// Associativity of a binary operator.
#[derive(Debug, Clone, Copy, PartialEq, Eq, Structural)]
pub enum Direction {
    Left,
    Right,
}

/// A binary operator with its precedence and associativity.
#[derive(Debug, Clone, Copy)]
pub struct BinOpDetail {
    pub op: BinOp,
    pub prec: u8,
    pub direction: Direction,
}

impl BinOpDetail {
    pub fn new(op: BinOp, prec: u8, direction: Direction) -> (r: Self)
        ensures
            r.op == op,
            r.prec == prec,
            r.direction == direction,
    {
        BinOpDetail { op, prec, direction }
    }
}

} // verus!
