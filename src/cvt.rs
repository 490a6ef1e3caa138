//! Emission of a checked program as source text of the target language,
//! whose backward bodies are the inverses of the forward ones.
use crate::ast::{
    container_view, names, For, BinOp, Expr, ExprV, InnerType, MainProc, MutOp, OperandV, Proc, ProcId, Program, Statement,
    StmtV, Type, TypedVariable, UnrOp, Variable, VariableOrLiteral, exprs_view, lemma_exprs_view,
};
use crate::flip::{inverse, invertible};
use crate::mat::{entry, is_identity_row, SquareMat};
use vstd::prelude::*;
use vstd::string::StringExecFns;

verus! {

// ---------------------------------------------------------------------
// Text of the pieces
// ---------------------------------------------------------------------
/// The indentation of nesting depth `depth`: four spaces a level.
pub open spec fn indent_text(depth: nat) -> Seq<char>
    decreases depth,
{
    if depth == 0 {
        Seq::empty()
    } else {
        indent_text((depth - 1) as nat) + "    "@
    }
}

pub open spec fn digit_char(d: nat) -> char {
    if d == 0 { '0' }
    else if d == 1 { '1' }
    else if d == 2 { '2' }
    else if d == 3 { '3' }
    else if d == 4 { '4' }
    else if d == 5 { '5' }
    else if d == 6 { '6' }
    else if d == 7 { '7' }
    else if d == 8 { '8' }
    else { '9' }
}

/// The decimal digits of `n`.
pub open spec fn digits_text(n: nat) -> Seq<char>
    decreases n,
{
    if n >= 10 {
        digits_text(n / 10).push(digit_char(n % 10))
    } else {
        seq![digit_char(n)]
    }
}

/// The decimal text of `n`, with a leading minus when negative.
pub open spec fn decimal_text(n: int) -> Seq<char> {
    if n < 0 {
        seq!['-'] + digits_text((-n) as nat)
    } else {
        digits_text(n as nat)
    }
}

/// The pieces `xs` with `delim` between each two.
pub open spec fn join(xs: Seq<Seq<char>>, delim: Seq<char>) -> Seq<char>
    decreases xs.len(),
{
    if xs.len() == 0 {
        Seq::empty()
    } else if xs.len() == 1 {
        xs[0]
    } else {
        join(xs.drop_last(), delim) + delim + xs.last()
    }
}

pub open spec fn texts(v: Seq<String>) -> Seq<Seq<char>> {
    v.map_values(|s: String| s@)
}

pub open spec fn type_text(t: Type) -> Seq<char> {
    (if t.is_const {
        "const "@
    } else {
        Seq::empty()
    }) + match t.inner {
        InnerType::Int => "Int"@,
        InnerType::Array(n) => "Array<"@ + digits_text(n as nat) + ">"@,
        InnerType::List => "List"@,
    }
}

pub open spec fn binop_text(op: BinOp) -> Seq<char> {
    match op {
        BinOp::Add => "+"@,
        BinOp::Sub => "-"@,
        BinOp::Xor => "^"@,
        BinOp::Mul => "*"@,
        BinOp::Div => "/"@,
        BinOp::Remainder => "%"@,
        BinOp::BitwiseAnd => "&"@,
        BinOp::BitwiseOr => "|"@,
        BinOp::LogicalAnd => "&&"@,
        BinOp::LogicalOr => "||"@,
        BinOp::LessThan => "<"@,
        BinOp::GreaterThan => ">"@,
        BinOp::Equal => "=="@,
        BinOp::NotEqual => "!="@,
        BinOp::LessEqual => "<="@,
        BinOp::GreaterEqual => ">="@,
    }
}

pub open spec fn unrop_text(op: UnrOp) -> Seq<char> {
    match op {
        UnrOp::Negative => "-"@,
        UnrOp::Not => "!"@,
    }
}

/// The text of an expression.
pub open spec fn expr_text(e: ExprV) -> Seq<char>
    decreases e,
{
    match e {
        ExprV::Const(n) => decimal_text(n as int),
        ExprV::Variable(x) => x,
        ExprV::Array(es) => "{"@ + items_text(es) + "}"@,
        ExprV::Indexed(x, i) => "index("@ + x + ", "@ + expr_text(*i) + ")"@,
        ExprV::BinOp(l, op, r) => expr_text(*l) + " "@ + binop_text(op) + " "@ + expr_text(*r),
        ExprV::UnrOp(op, x) => unrop_text(op) + expr_text(*x),
        ExprV::Empty(x) => x + ".empty()"@,
        ExprV::Nil => "List{}"@,
        ExprV::Size(x) => x + ".size()"@,
        ExprV::Wrapped(x) => "("@ + expr_text(*x) + ")"@,
    }
}

/// The texts of array items, separated by commas.
pub open spec fn items_text(es: Seq<ExprV>) -> Seq<char>
    decreases es,
{
    if es.len() == 0 {
        Seq::empty()
    } else if es.len() == 1 {
        expr_text(es[0])
    } else {
        items_text(es.drop_last()) + ", "@ + expr_text(es.last())
    }
}

pub open spec fn mut_text(op: MutOp, l: Seq<char>, r: Seq<char>) -> Seq<char> {
    match op {
        MutOp::Add => l + " += "@ + r + ";"@,
        MutOp::Sub => l + " -= "@ + r + ";"@,
        MutOp::Xor => l + " ^= "@ + r + ";"@,
        MutOp::Swap => "swap("@ + l + ", "@ + r + ");"@,
    }
}

/// The text of a declaration.
pub open spec fn decl_text(t: (Type, Seq<char>)) -> Seq<char> {
    type_text(t.0) + " "@ + t.1
}

/// The text of a parameter, passed by reference.
pub open spec fn param_text(t: (Type, Seq<char>)) -> Seq<char> {
    type_text(t.0) + "& "@ + t.1
}

pub open spec fn operand_text(o: OperandV) -> Seq<char> {
    match o {
        OperandV::Literal(n) => decimal_text(n as int),
        OperandV::Variable(x) => x,
    }
}

pub open spec fn push_text(o: OperandV, r: Seq<char>, end: Seq<char>, sp: Seq<char>) -> Seq<char> {
    match o {
        OperandV::Literal(n) => sp + r + ".push_"@ + end + "("@ + decimal_text(n as int) + ");\n"@,
        OperandV::Variable(x) => sp + r + ".push_"@ + end + "("@ + x + ");\n"@ + sp + x + " = 0;\n"@,
    }
}

pub open spec fn pop_text(o: OperandV, r: Seq<char>, end: Seq<char>, sp: Seq<char>) -> Seq<char> {
    match o {
        OperandV::Literal(n) => sp + "assert("@ + decimal_text(n as int) + " == "@ + r + "."@ + end
            + "());\n"@ + sp + r + ".pop_"@ + end + "();\n"@,
        OperandV::Variable(x) => sp + "assert("@ + x + " == 0);\n"@ + sp + x + " = "@ + r + "."@ + end
            + "();\n"@ + sp + r + ".pop_"@ + end + "();\n"@,
    }
}

/// The counter of a loop's container, and how it steps through the container.
pub open spec fn counter_text(c: (Seq<char>, Option<Seq<char>>)) -> Seq<char> {
    match c.1 {
        None => "i_"@ + c.0 + "++"@,
        Some(i) => i + "[i_"@ + c.0 + "++]"@,
    }
}

/// The loop variables of one pack bound to the current items of their container.
pub open spec fn pack_text(vs: Seq<Seq<char>>, c: (Seq<char>, Option<Seq<char>>), sp: Seq<char>) -> Seq<
    char,
>
    decreases vs.len(),
{
    if vs.len() == 0 {
        Seq::empty()
    } else {
        pack_text(vs.drop_last(), c, sp) + sp + "auto& "@ + vs.last() + " = index("@ + c.0 + ", "@
            + counter_text(c) + ");\n"@
    }
}

/// How many items past the counter each loop step reads.
pub open spec fn reach(vs: Seq<Seq<char>>) -> nat {
    if vs.len() == 0 {
        0
    } else {
        (vs.len() - 1) as nat
    }
}

pub open spec fn for_header(cs: Seq<(Seq<char>, Option<Seq<char>>)>, sp: Seq<char>) -> Seq<char> {
    sp + "std::size_t "@ + join(Seq::new(cs.len(), |k: int| "i_"@ + cs[k].0 + "{}"@), ", "@)
        + ";\n"@
}

pub open spec fn perm_lines(cs: Seq<(Seq<char>, Option<Seq<char>>)>, sp: Seq<char>) -> Seq<char>
    decreases cs.len(),
{
    if cs.len() == 0 {
        Seq::empty()
    } else {
        perm_lines(cs.drop_last(), sp) + match cs.last().1 {
            Some(i) => sp + "assert_valid_perm("@ + cs.last().0 + ", "@ + i + ");\n"@,
            None => Seq::empty(),
        }
    }
}

pub open spec fn for_condition(
    vars: Seq<Seq<Seq<char>>>,
    cs: Seq<(Seq<char>, Option<Seq<char>>)>,
    n: nat,
) -> Seq<char> {
    join(
        Seq::new(
            n,
            |k: int| "i_"@ + cs[k].0 + " + "@ + digits_text(reach(vars[k])) + " < "@ + cs[k].0
                + ".size()"@,
        ),
        " && "@,
    )
}

pub open spec fn bind_lines(
    vars: Seq<Seq<Seq<char>>>,
    cs: Seq<(Seq<char>, Option<Seq<char>>)>,
    sp: Seq<char>,
    k: nat,
) -> Seq<char>
    decreases k,
{
    if k == 0 {
        Seq::empty()
    } else {
        bind_lines(vars, cs, sp, (k - 1) as nat) + pack_text(vars[k - 1], cs[k - 1], sp)
    }
}

pub open spec fn min_nat(a: nat, b: nat) -> nat {
    if a <= b {
        a
    } else {
        b
    }
}

/// The text of a statement indented by `sp`.
pub open spec fn stmt_text(s: StmtV, sp: Seq<char>) -> Seq<char>
    decreases s,
{
    let more = sp + "    "@;
    match s {
        StmtV::Mut(x, op, e) => sp + mut_text(op, x, expr_text(e)) + "\n"@,
        StmtV::IndexedMut(x, i, op, e) => sp + mut_text(
            op,
            "index("@ + x + ", "@ + expr_text(i) + ")"@,
            expr_text(e),
        ) + "\n"@,
        StmtV::IfThenElseFi(el, sl, sr, er) => sp + "if ("@ + expr_text(el) + ") {\n"@ + stmt_text(
            *sl,
            more,
        ) + more + "assert("@ + expr_text(er) + ");\n"@ + sp + "} else {\n"@ + stmt_text(*sr, more)
            + more + "assert(!("@ + expr_text(er) + "));\n"@ + sp + "}\n"@,
        StmtV::FromDoLoopUntil(el, sl, sr, er) => sp + "assert("@ + expr_text(el) + ");\n"@
            + stmt_text(*sl, sp) + sp + "while (!("@ + expr_text(er) + ")) {\n"@ + stmt_text(
            *sr,
            more,
        ) + more + "assert(!("@ + expr_text(el) + "));\n"@ + stmt_text(*sl, more) + sp + "}\n"@,
        StmtV::PushFront(o, r) => push_text(o, r, "front"@, sp),
        StmtV::PushBack(o, r) => push_text(o, r, "back"@, sp),
        StmtV::PopFront(o, r) => pop_text(o, r, "front"@, sp),
        StmtV::PopBack(o, r) => pop_text(o, r, "back"@, sp),
        StmtV::IndexedSwap(x, l, r) => sp + "swap(index("@ + x + ", "@ + expr_text(l) + "), index("@
            + x + ", "@ + expr_text(r) + "));\n"@,
        StmtV::LocalDelocal(tl, el, b, tr, er) => sp + "{\n"@ + more + decl_text(tl) + " = "@
            + expr_text(el) + ";\n"@ + stmt_text(*b, more) + more + "assert("@ + tr.1 + " == "@
            + expr_text(er) + ");\n"@ + sp + "}\n"@,
        StmtV::Call(q, args) => sp + q + "_fwd("@ + join(args, ", "@) + ");\n"@,
        StmtV::Uncall(q, args) => sp + q + "_rev("@ + join(args, ", "@) + ");\n"@,
        StmtV::Skip => Seq::empty(),
        StmtV::Print(x) => sp + "print(\""@ + x + "\", "@ + x + ");\n"@,
        StmtV::For(vars, cs, b) => for_header(cs, sp) + perm_lines(cs, sp) + sp + "while ("@
            + for_condition(vars, cs, min_nat(vars.len(), cs.len())) + ") {\n"@ + bind_lines(
            vars,
            cs,
            more,
            min_nat(vars.len(), cs.len()),
        ) + "\n"@ + stmt_text(*b, more) + sp + "}\n"@,
        StmtV::IfThenElse(e, sl, sr) => if *sr is Skip {
            sp + "if ("@ + expr_text(e) + ") {\n"@ + stmt_text(*sl, more) + sp + "}\n"@
        } else {
            sp + "if ("@ + expr_text(e) + ") {\n"@ + stmt_text(*sl, more) + sp + "} else {\n"@
                + stmt_text(*sr, more) + sp + "}\n"@
        },
        StmtV::Sequence(l, r) => stmt_text(*l, sp) + stmt_text(*r, sp),
    }
}

/// One level of indentation.
pub open spec fn sp1() -> Seq<char> {
    "    "@
}

pub open spec fn params_view(ps: Seq<TypedVariable>) -> Seq<(Type, Seq<char>)> {
    ps.map_values(|p: TypedVariable| p@)
}

pub open spec fn params_text(ps: Seq<TypedVariable>) -> Seq<char> {
    join(params_view(ps).map_values(|p: (Type, Seq<char>)| param_text(p)), ", "@)
}

/// The declarations of the main block, one a line.
pub open spec fn decl_lines(ds: Seq<(TypedVariable, Option<Expr>)>) -> Seq<char>
    decreases ds.len(),
{
    if ds.len() == 0 {
        Seq::empty()
    } else {
        decl_lines(ds.drop_last()) + sp1() + decl_text(ds.last().0@) + match ds.last().1 {
            Some(e) => " = "@ + expr_text(e@),
            None => "{}"@,
        } + ";\n"@
    }
}

/// A line that prints each declared variable of the main block.
pub open spec fn print_lines(ds: Seq<(TypedVariable, Option<Expr>)>) -> Seq<char>
    decreases ds.len(),
{
    if ds.len() == 0 {
        Seq::empty()
    } else {
        print_lines(ds.drop_last()) + sp1() + "print(\""@ + ds.last().0.1@ + "\", "@ + ds.last().0.1@
            + ");\n"@
    }
}

/// The main function: declarations, the forward body, the involution
/// body, the inverse of the forward body, and a print of each variable.
pub open spec fn main_text(m: MainProc) -> Seq<char> {
    "int main() {\n"@ + decl_lines(m.0@) + "\n"@ + stmt_text(m.1@, sp1()) + "\n"@ + stmt_text(
        m.2@,
        sp1(),
    ) + "\n"@ + stmt_text(inverse(m.1@), sp1()) + "\n"@ + print_lines(m.0@) + "}\n"@
}

pub open spec fn nop_text(d: Seq<i32>, n: nat, i: int) -> bool {
    is_identity_row(d, n, i)
}

/// The parameters of a matrix procedure: one integer a row, `const`
/// where the row leaves its coordinate as it is.
pub open spec fn mat_params(d: Seq<i32>, n: nat) -> Seq<char> {
    join(
        Seq::new(
            n,
            |i: int| (if nop_text(d, n, i) {
                "const "@
            } else {
                Seq::empty()
            }) + "Int& v"@ + digits_text(i as nat),
        ),
        ", "@,
    )
}

pub open spec fn mat_copies(d: Seq<i32>, n: nat, k: nat) -> Seq<char>
    decreases k,
{
    if k == 0 {
        Seq::empty()
    } else {
        mat_copies(d, n, (k - 1) as nat) + if nop_text(d, n, k - 1) {
            Seq::empty()
        } else {
            sp1() + "Int c"@ + digits_text((k - 1) as nat) + " = v"@ + digits_text((k - 1) as nat)
                + ";\n"@
        }
    }
}

pub open spec fn mat_row(d: Seq<i32>, n: nat, i: int) -> Seq<char> {
    join(
        Seq::new(
            n,
            |j: int| decimal_text(entry(d, n, i, j)) + " * "@ + (if nop_text(d, n, j) {
                "v"@
            } else {
                "c"@
            }) + digits_text(j as nat),
        ),
        " + "@,
    )
}

pub open spec fn mat_assigns(d: Seq<i32>, n: nat, k: nat) -> Seq<char>
    decreases k,
{
    if k == 0 {
        Seq::empty()
    } else {
        mat_assigns(d, n, (k - 1) as nat) + if nop_text(d, n, k - 1) {
            Seq::empty()
        } else {
            sp1() + "v"@ + digits_text((k - 1) as nat) + " = "@ + mat_row(d, n, k - 1) + ";\n"@
        }
    }
}

pub open spec fn mat_body(d: Seq<i32>, n: nat) -> Seq<char> {
    mat_params(d, n) + ") {\n"@ + mat_copies(d, n, n) + mat_assigns(d, n, n) + "}\n"@
}

/// Whether every forward body of the procedure has an inverse.
pub open spec fn proc_emittable(p: Proc) -> bool {
    match p {
        Proc::Inj(_, _, s) => invertible(s@),
        Proc::Invl(_, _, s, _) => invertible(s@),
        Proc::Mat(_, _) => true,
    }
}

/// The forward and backward functions of a procedure.
pub open spec fn proc_text(p: Proc) -> Seq<char> {
    match p {
        Proc::Inj(q, ps, s) => "void "@ + q@ + "_fwd("@ + params_text(ps@) + ") {\n"@ + stmt_text(
            s@,
            sp1(),
        ) + "}\n\nvoid "@ + q@ + "_rev("@ + params_text(ps@) + ") {\n"@ + stmt_text(
            inverse(s@),
            sp1(),
        ) + "}\n"@,
        Proc::Invl(q, ps, s, i) => {
            let body = params_text(ps@) + ") {\n"@ + stmt_text(s@, sp1()) + "\n"@ + stmt_text(
                i@,
                sp1(),
            ) + "\n"@ + stmt_text(inverse(s@), sp1()) + "}\n"@;
            "void "@ + q@ + "_fwd("@ + body + "\nvoid "@ + q@ + "_rev("@ + body
        },
        Proc::Mat(q, m) => {
            let body = mat_body(m.square().elems(), m.square().side());
            "void "@ + q@ + "_fwd("@ + body + "\nvoid "@ + q@ + "_rev("@ + body
        },
    }
}

/// The declarations of the forward and backward functions of a procedure.
pub open spec fn sig_text(p: Proc) -> Seq<char> {
    let hello = match p {
        Proc::Inj(_, ps, _) => params_text(ps@),
        Proc::Invl(_, ps, _, _) => params_text(ps@),
        Proc::Mat(_, m) => mat_params(m.square().elems(), m.square().side()),
    };
    "void "@ + p.id()@ + "_fwd("@ + hello + ");\nvoid "@ + p.id()@ + "_rev("@ + hello + ");"@
}

pub open spec fn sigs_text(ps: Seq<Proc>) -> Seq<char>
    decreases ps.len(),
{
    if ps.len() == 0 {
        Seq::empty()
    } else {
        sigs_text(ps.drop_last()) + sig_text(ps.last()) + "\n"@
    }
}

pub open spec fn procs_text(ps: Seq<Proc>) -> Seq<char>
    decreases ps.len(),
{
    if ps.len() == 0 {
        Seq::empty()
    } else {
        procs_text(ps.drop_last()) + "\n"@ + proc_text(ps.last())
    }
}

/// Whether every forward body of the program has an inverse.
pub open spec fn emittable(p: Program) -> bool {
    invertible(p.0.1@) && forall|i: int| 0 <= i < p.1@.len() ==> #[trigger] proc_emittable(p.1@[i])
}

/// The text of a whole program.
pub open spec fn program_text(p: Program) -> Seq<char> {
    "#include \"prelude.hpp\"\n\n"@ + sigs_text(p.1@) + "\n"@ + main_text(p.0) + procs_text(p.1@)
}

// ---------------------------------------------------------------------
// Executable pieces
// ---------------------------------------------------------------------
/// Appends `t` to `s`.
fn put(s: &mut String, t: &str)
    ensures
        final(s)@ == old(s)@ + t@,
{
    s.append(t);
}

/// The indentation of nesting depth `depth`.
pub fn indent(depth: usize) -> (r: String)
    ensures
        r@ == indent_text(depth as nat),
{
    let mut s = String::new();
    let mut i: usize = 0;
    while i < depth
        invariant
            i <= depth,
            s@ == indent_text(i as nat),
        decreases depth - i,
    {
        put(&mut s, "    ");
        i = i + 1;
    }
    s
}

fn push_digits(m: u64, out: &mut Vec<char>)
    ensures
        final(out)@ == old(out)@ + digits_text(m as nat),
    decreases m,
{
    if m >= 10 {
        push_digits(m / 10, out);
    }
    let d = m % 10;
    let c = if d == 0 { '0' }
        else if d == 1 { '1' }
        else if d == 2 { '2' }
        else if d == 3 { '3' }
        else if d == 4 { '4' }
        else if d == 5 { '5' }
        else if d == 6 { '6' }
        else if d == 7 { '7' }
        else if d == 8 { '8' }
        else { '9' };
    out.push(c);
    assert(out@ =~= old(out)@ + digits_text(m as nat));
}

/// The decimal text of `n`.
pub fn decimal(n: i64) -> (r: String)
    ensures
        r@ == decimal_text(n as int),
{
    let mut out: Vec<char> = Vec::new();
    if n < 0 {
        out.push('-');
        let m: u64 = if n == i64::MIN {
            0x8000_0000_0000_0000
        } else {
            (-n) as u64
        };
        push_digits(m, &mut out);
        assert(out@ =~= seq!['-'] + digits_text((-n) as nat));
    } else {
        push_digits(n as u64, &mut out);
        assert(out@ =~= digits_text(n as nat));
    }
    crate::tokenizer::string_of(&out)
}

/// The decimal digits of `n`.
pub fn unsigned_decimal(n: u64) -> (r: String)
    ensures
        r@ == digits_text(n as nat),
{
    let mut out: Vec<char> = Vec::new();
    push_digits(n, &mut out);
    assert(out@ =~= digits_text(n as nat));
    crate::tokenizer::string_of(&out)
}

/// The items with `delim` between each two.
pub fn concat(items: &Vec<String>, delim: &str) -> (r: String)
    ensures
        r@ == join(texts(items@), delim@),
{
    let ghost xs = texts(items@);
    let mut s = String::new();
    let mut i: usize = 0;
    assert(xs.take(0) =~= Seq::<Seq<char>>::empty());
    while i < items.len()
        invariant
            i <= items@.len(),
            xs == texts(items@),
            s@ == join(xs.take(i as int), delim@),
        decreases items.len() - i,
    {
        assert(xs.take(i + 1).drop_last() =~= xs.take(i as int));
        assert(xs.take(i + 1).last() == items@[i as int]@);
        if i > 0 {
            put(&mut s, delim);
        }
        put(&mut s, items[i].as_str());
        proof {
            if i == 0 {
                assert(s@ =~= join(xs.take(i + 1), delim@));
            }
        }
        i = i + 1;
    }
    assert(xs.take(i as int) =~= xs);
    s
}

impl Type {
    pub fn cvt(&self) -> (r: String)
        ensures
            r@ == type_text(*self),
    {
        let mut s = if self.is_const {
            String::from_str("const ")
        } else {
            String::new()
        };
        match self.inner {
            InnerType::Int => put(&mut s, "Int"),
            InnerType::Array(n) => {
                put(&mut s, "Array<");
                let d = unsigned_decimal(n as u64);
                put(&mut s, d.as_str());
                put(&mut s, ">");
            },
            InnerType::List => put(&mut s, "List"),
        }
        s
    }
}

impl BinOp {
    pub fn cvt(&self) -> (r: &'static str)
        ensures
            r@ == binop_text(*self),
    {
        match self {
            BinOp::Add => "+",
            BinOp::Sub => "-",
            BinOp::Xor => "^",
            BinOp::Mul => "*",
            BinOp::Div => "/",
            BinOp::Remainder => "%",
            BinOp::BitwiseAnd => "&",
            BinOp::BitwiseOr => "|",
            BinOp::LogicalAnd => "&&",
            BinOp::LogicalOr => "||",
            BinOp::LessThan => "<",
            BinOp::GreaterThan => ">",
            BinOp::Equal => "==",
            BinOp::NotEqual => "!=",
            BinOp::LessEqual => "<=",
            BinOp::GreaterEqual => ">=",
        }
    }
}

impl UnrOp {
    pub fn cvt(&self) -> (r: &'static str)
        ensures
            r@ == unrop_text(*self),
    {
        match self {
            UnrOp::Negative => "-",
            UnrOp::Not => "!",
        }
    }
}

fn items_cvt(es: &Vec<Expr>) -> (r: String)
    ensures
        r@ == items_text(exprs_view(es@)),
    decreases es@,
{
    let ghost ev = exprs_view(es@);
    proof {
        lemma_exprs_view(es@);
    }
    let mut s = String::new();
    let mut i: usize = 0;
    assert(ev.take(0) =~= Seq::<ExprV>::empty());
    while i < es.len()
        invariant
            i <= es@.len(),
            ev == exprs_view(es@),
            ev.len() == es@.len(),
            forall|j: int| 0 <= j < es@.len() ==> #[trigger] ev[j] == es@[j]@,
            s@ == items_text(ev.take(i as int)),
        decreases es.len() - i,
    {
        proof {
            assert(decreases_to!(es@ => es@[i as int]));
        }
        assert(ev.take(i + 1).drop_last() =~= ev.take(i as int));
        assert(ev.take(i + 1).last() == es@[i as int]@);
        if i > 0 {
            put(&mut s, ", ");
        }
        let t = es[i].cvt();
        put(&mut s, t.as_str());
        proof {
            if i == 0 {
                assert(s@ =~= items_text(ev.take(i + 1)));
            }
        }
        i = i + 1;
    }
    assert(ev.take(i as int) =~= ev);
    s
}

impl Expr {
    /// The text of this expression.
    pub fn cvt(&self) -> (r: String)
        ensures
            r@ == expr_text(self@),
        decreases self,
    {
        match self {
            Expr::Const(n) => decimal(*n as i64),
            Expr::Variable(x) => x.0.clone(),
            Expr::Array(es) => {
                let mut s = String::from_str("{");
                let t = items_cvt(es);
                put(&mut s, t.as_str());
                put(&mut s, "}");
                s
            },
            Expr::Indexed(x, i) => {
                let mut s = String::from_str("index(");
                put(&mut s, x.0.as_str());
                put(&mut s, ", ");
                let t = i.cvt();
                put(&mut s, t.as_str());
                put(&mut s, ")");
                s
            },
            Expr::BinOp(l, op, r) => {
                let mut s = l.cvt();
                put(&mut s, " ");
                put(&mut s, op.cvt());
                put(&mut s, " ");
                let t = r.cvt();
                put(&mut s, t.as_str());
                s
            },
            Expr::UnrOp(op, x) => {
                let mut s = String::from_str(op.cvt());
                let t = x.cvt();
                put(&mut s, t.as_str());
                s
            },
            Expr::Empty(x) => {
                let mut s = x.0.clone();
                put(&mut s, ".empty()");
                s
            },
            Expr::Nil => String::from_str("List{}"),
            Expr::Size(x) => {
                let mut s = x.0.clone();
                put(&mut s, ".size()");
                s
            },
            Expr::Wrapped(x) => {
                let mut s = String::from_str("(");
                let t = x.cvt();
                put(&mut s, t.as_str());
                put(&mut s, ")");
                s
            },
        }
    }
}

impl MutOp {
    /// The text that applies this operator to `l` with `r`.
    pub fn cvt_mut_op(&self, l: &str, r: &str) -> (t: String)
        ensures
            t@ == mut_text(*self, l@, r@),
    {
        match self {
            MutOp::Swap => {
                let mut s = String::from_str("swap(");
                put(&mut s, l);
                put(&mut s, ", ");
                put(&mut s, r);
                put(&mut s, ");");
                s
            },
            _ => {
                let mut s = String::from_str(l);
                put(
                    &mut s,
                    match self {
                        MutOp::Add => " += ",
                        MutOp::Sub => " -= ",
                        _ => " ^= ",
                    },
                );
                put(&mut s, r);
                put(&mut s, ";");
                s
            },
        }
    }
}

impl TypedVariable {
    /// The text of this declaration.
    pub fn cvt(&self) -> (r: String)
        ensures
            r@ == decl_text(self@),
    {
        let mut s = self.0.cvt();
        put(&mut s, " ");
        put(&mut s, (self.1).0.as_str());
        s
    }

    /// The text of this parameter, passed by reference.
    pub fn cvt_ref(&self) -> (r: String)
        ensures
            r@ == param_text(self@),
    {
        let mut s = self.0.cvt();
        put(&mut s, "& ");
        put(&mut s, (self.1).0.as_str());
        s
    }
}

/// The names of `xs`, as strings.
fn name_strings(xs: &Vec<Variable>) -> (r: Vec<String>)
    ensures
        texts(r@) == names(xs@),
{
    let mut r: Vec<String> = Vec::new();
    let mut i: usize = 0;
    while i < xs.len()
        invariant
            i <= xs@.len(),
            texts(r@) == names(xs@).take(i as int),
        decreases xs.len() - i,
    {
        let ghost prev = r@;
        r.push(xs[i].0.clone());
        assert(texts(r@) =~= texts(prev).push(xs@[i as int]@));
        i = i + 1;
        assert(texts(r@) =~= names(xs@).take(i as int));
    }
    assert(names(xs@).take(i as int) =~= names(xs@));
    r
}

fn operand_cvt(o: &VariableOrLiteral) -> (r: String)
    ensures
        r@ == operand_text(o@),
{
    match o {
        VariableOrLiteral::Literal(n) => decimal(*n as i64),
        VariableOrLiteral::Variable(x) => x.0.clone(),
    }
}

fn push_cvt(o: &VariableOrLiteral, r: &Variable, end: &str, sp: &String) -> (t: String)
    ensures
        t@ == push_text(o@, r@, end@, sp@),
{
    let v = operand_cvt(o);
    let mut s = sp.clone();
    put(&mut s, r.0.as_str());
    put(&mut s, ".push_");
    put(&mut s, end);
    put(&mut s, "(");
    put(&mut s, v.as_str());
    put(&mut s, ");\n");
    if let VariableOrLiteral::Variable(x) = o {
        put(&mut s, sp.as_str());
        put(&mut s, x.0.as_str());
        put(&mut s, " = 0;\n");
    }
    s
}

fn pop_cvt(o: &VariableOrLiteral, r: &Variable, end: &str, sp: &String) -> (t: String)
    ensures
        t@ == pop_text(o@, r@, end@, sp@),
{
    let mut s = sp.clone();
    put(&mut s, "assert(");
    match o {
        VariableOrLiteral::Literal(n) => {
            let v = decimal(*n as i64);
            put(&mut s, v.as_str());
            put(&mut s, " == ");
            put(&mut s, r.0.as_str());
            put(&mut s, ".");
            put(&mut s, end);
            put(&mut s, "());\n");
        },
        VariableOrLiteral::Variable(x) => {
            put(&mut s, x.0.as_str());
            put(&mut s, " == 0);\n");
            put(&mut s, sp.as_str());
            put(&mut s, x.0.as_str());
            put(&mut s, " = ");
            put(&mut s, r.0.as_str());
            put(&mut s, ".");
            put(&mut s, end);
            put(&mut s, "();\n");
        },
    }
    put(&mut s, sp.as_str());
    put(&mut s, r.0.as_str());
    put(&mut s, ".pop_");
    put(&mut s, end);
    put(&mut s, "();\n");
    s
}

pub open spec fn containers_view(cs: Seq<(Variable, Option<Variable>)>) -> Seq<(Seq<char>, Option<Seq<char>>)> {
    cs.map_values(|c: (Variable, Option<Variable>)| container_view(c))
}

pub open spec fn packs_view(vars: Seq<Vec<Variable>>) -> Seq<Seq<Seq<char>>> {
    vars.map_values(|vs: Vec<Variable>| names(vs@))
}

fn for_header_cvt(cs: &Vec<(Variable, Option<Variable>)>, sp: &String) -> (r: String)
    ensures
        r@ == for_header(containers_view(cs@), sp@),
{
    let ghost cv = containers_view(cs@);
    let ghost want = Seq::new(cv.len(), |k: int| "i_"@ + cv[k].0 + "{}"@);
    let mut pieces: Vec<String> = Vec::new();
    let mut k: usize = 0;
    while k < cs.len()
        invariant
            k <= cs@.len(),
            cv == containers_view(cs@),
            want == Seq::new(cv.len(), |k: int| "i_"@ + cv[k].0 + "{}"@),
            texts(pieces@) == want.take(k as int),
        decreases cs.len() - k,
    {
        let mut p = String::from_str("i_");
        put(&mut p, (cs[k].0).0.as_str());
        put(&mut p, "{}");
        let ghost prev = pieces@;
        pieces.push(p);
        assert(texts(pieces@) =~= texts(prev).push(p@));
        assert(p@ == want[k as int]);
        k = k + 1;
        assert(texts(pieces@) =~= want.take(k as int));
    }
    assert(want.take(k as int) =~= want);
    let mut s = sp.clone();
    put(&mut s, "std::size_t ");
    let j = concat(&pieces, ", ");
    put(&mut s, j.as_str());
    put(&mut s, ";\n");
    s
}

fn perm_lines_cvt(cs: &Vec<(Variable, Option<Variable>)>, sp: &String) -> (r: String)
    ensures
        r@ == perm_lines(containers_view(cs@), sp@),
{
    let ghost cv = containers_view(cs@);
    let mut s = String::new();
    let mut k: usize = 0;
    assert(cv.take(0) =~= Seq::<(Seq<char>, Option<Seq<char>>)>::empty());
    while k < cs.len()
        invariant
            k <= cs@.len(),
            cv == containers_view(cs@),
            s@ == perm_lines(cv.take(k as int), sp@),
        decreases cs.len() - k,
    {
        assert(cv.take(k + 1).drop_last() =~= cv.take(k as int));
        assert(cv.take(k + 1).last() == container_view(cs@[k as int]));
        if let Some(i) = &cs[k].1 {
            put(&mut s, sp.as_str());
            put(&mut s, "assert_valid_perm(");
            put(&mut s, (cs[k].0).0.as_str());
            put(&mut s, ", ");
            put(&mut s, i.0.as_str());
            put(&mut s, ");\n");
        } else {
            assert(s@ + Seq::<char>::empty() =~= s@);
        }
        k = k + 1;
    }
    assert(cv.take(k as int) =~= cv);
    s
}

fn for_condition_cvt(
    vars: &Vec<Vec<Variable>>,
    cs: &Vec<(Variable, Option<Variable>)>,
    n: usize,
) -> (r: String)
    requires
        n <= vars@.len(),
        n <= cs@.len(),
    ensures
        r@ == for_condition(packs_view(vars@), containers_view(cs@), n as nat),
{
    let ghost cv = containers_view(cs@);
    let ghost vv = packs_view(vars@);
    let ghost want = Seq::new(
        n as nat,
        |k: int| "i_"@ + cv[k].0 + " + "@ + digits_text(reach(vv[k])) + " < "@ + cv[k].0 + ".size()"@,
    );
    let mut pieces: Vec<String> = Vec::new();
    let mut k: usize = 0;
    while k < n
        invariant
            k <= n,
            n <= vars@.len(),
            n <= cs@.len(),
            cv == containers_view(cs@),
            vv == packs_view(vars@),
            want == Seq::new(
                n as nat,
                |k: int| "i_"@ + cv[k].0 + " + "@ + digits_text(reach(vv[k])) + " < "@ + cv[k].0
                    + ".size()"@,
            ),
            texts(pieces@) == want.take(k as int),
        decreases n - k,
    {
        let x = (cs[k].0).0.as_str();
        let len = vars[k].len();
        let rch: u64 = if len == 0 {
            0
        } else {
            (len - 1) as u64
        };
        assert(rch == reach(vv[k as int]));
        let mut p = String::from_str("i_");
        put(&mut p, x);
        put(&mut p, " + ");
        let d = unsigned_decimal(rch);
        put(&mut p, d.as_str());
        put(&mut p, " < ");
        put(&mut p, x);
        put(&mut p, ".size()");
        let ghost prev = pieces@;
        pieces.push(p);
        assert(texts(pieces@) =~= texts(prev).push(p@));
        assert(p@ == want[k as int]);
        k = k + 1;
        assert(texts(pieces@) =~= want.take(k as int));
    }
    assert(want.take(k as int) =~= want);
    concat(&pieces, " && ")
}

fn pack_cvt(vs: &Vec<Variable>, c: &(Variable, Option<Variable>), sp: &String) -> (r: String)
    ensures
        r@ == pack_text(names(vs@), container_view(*c), sp@),
{
    let ghost ns = names(vs@);
    let mut counter = match &c.1 {
        None => {
            let mut t = String::from_str("i_");
            put(&mut t, (c.0).0.as_str());
            put(&mut t, "++");
            t
        },
        Some(i) => {
            let mut t = i.0.clone();
            put(&mut t, "[i_");
            put(&mut t, (c.0).0.as_str());
            put(&mut t, "++]");
            t
        },
    };
    assert(counter@ == counter_text(container_view(*c)));
    let mut s = String::new();
    let mut k: usize = 0;
    assert(ns.take(0) =~= Seq::<Seq<char>>::empty());
    while k < vs.len()
        invariant
            k <= vs@.len(),
            ns == names(vs@),
            counter@ == counter_text(container_view(*c)),
            s@ == pack_text(ns.take(k as int), container_view(*c), sp@),
        decreases vs.len() - k,
    {
        assert(ns.take(k + 1).drop_last() =~= ns.take(k as int));
        assert(ns.take(k + 1).last() == vs@[k as int]@);
        put(&mut s, sp.as_str());
        put(&mut s, "auto& ");
        put(&mut s, vs[k].0.as_str());
        put(&mut s, " = index(");
        put(&mut s, (c.0).0.as_str());
        put(&mut s, ", ");
        put(&mut s, counter.as_str());
        put(&mut s, ");\n");
        k = k + 1;
    }
    assert(ns.take(k as int) =~= ns);
    s
}

fn bind_lines_cvt(
    vars: &Vec<Vec<Variable>>,
    cs: &Vec<(Variable, Option<Variable>)>,
    sp: &String,
    n: usize,
) -> (r: String)
    requires
        n <= vars@.len(),
        n <= cs@.len(),
    ensures
        r@ == bind_lines(packs_view(vars@), containers_view(cs@), sp@, n as nat),
{
    let mut s = String::new();
    let mut k: usize = 0;
    while k < n
        invariant
            k <= n,
            n <= vars@.len(),
            n <= cs@.len(),
            s@ == bind_lines(packs_view(vars@), containers_view(cs@), sp@, k as nat),
        decreases n - k,
    {
        let p = pack_cvt(&vars[k], &cs[k], sp);
        put(&mut s, p.as_str());
        k = k + 1;
    }
    s
}

impl Statement {
    /// The text of this statement, indented by `sp`.
    pub fn cvt_ind(&self, sp: &String) -> (r: String)
        ensures
            r@ == stmt_text(self@, sp@),
        decreases self,
    {
        let mut more = sp.clone();
        put(&mut more, "    ");
        match self {
            Statement::Mut(x, op, e) => {
                let t = op.cvt_mut_op(x.0.as_str(), e.cvt().as_str());
                let mut s = sp.clone();
                put(&mut s, t.as_str());
                put(&mut s, "\n");
                s
            },
            Statement::IndexedMut(x, i, op, e) => {
                let mut l = String::from_str("index(");
                put(&mut l, x.0.as_str());
                put(&mut l, ", ");
                put(&mut l, i.cvt().as_str());
                put(&mut l, ")");
                let t = op.cvt_mut_op(l.as_str(), e.cvt().as_str());
                let mut s = sp.clone();
                put(&mut s, t.as_str());
                put(&mut s, "\n");
                s
            },
            Statement::IfThenElseFi(el, sl, sr, er) => {
                let e_l = el.cvt();
                let e_r = er.cvt();
                let mut s = sp.clone();
                put(&mut s, "if (");
                put(&mut s, e_l.as_str());
                put(&mut s, ") {\n");
                put(&mut s, sl.cvt_ind(&more).as_str());
                put(&mut s, more.as_str());
                put(&mut s, "assert(");
                put(&mut s, e_r.as_str());
                put(&mut s, ");\n");
                put(&mut s, sp.as_str());
                put(&mut s, "} else {\n");
                put(&mut s, sr.cvt_ind(&more).as_str());
                put(&mut s, more.as_str());
                put(&mut s, "assert(!(");
                put(&mut s, e_r.as_str());
                put(&mut s, "));\n");
                put(&mut s, sp.as_str());
                put(&mut s, "}\n");
                s
            },
            Statement::FromDoLoopUntil(el, sl, sr, er) => {
                let e_l = el.cvt();
                let e_r = er.cvt();
                let mut s = sp.clone();
                put(&mut s, "assert(");
                put(&mut s, e_l.as_str());
                put(&mut s, ");\n");
                put(&mut s, sl.cvt_ind(sp).as_str());
                put(&mut s, sp.as_str());
                put(&mut s, "while (!(");
                put(&mut s, e_r.as_str());
                put(&mut s, ")) {\n");
                put(&mut s, sr.cvt_ind(&more).as_str());
                put(&mut s, more.as_str());
                put(&mut s, "assert(!(");
                put(&mut s, e_l.as_str());
                put(&mut s, "));\n");
                put(&mut s, sl.cvt_ind(&more).as_str());
                put(&mut s, sp.as_str());
                put(&mut s, "}\n");
                s
            },
            Statement::PushFront(o, r) => push_cvt(o, r, "front", sp),
            Statement::PushBack(o, r) => push_cvt(o, r, "back", sp),
            Statement::PopFront(o, r) => pop_cvt(o, r, "front", sp),
            Statement::PopBack(o, r) => pop_cvt(o, r, "back", sp),
            Statement::IndexedSwap(x, l, r) => {
                let mut s = sp.clone();
                put(&mut s, "swap(index(");
                put(&mut s, x.0.as_str());
                put(&mut s, ", ");
                put(&mut s, l.cvt().as_str());
                put(&mut s, "), index(");
                put(&mut s, x.0.as_str());
                put(&mut s, ", ");
                put(&mut s, r.cvt().as_str());
                put(&mut s, "));\n");
                s
            },
            Statement::LocalDelocal(tl, el, b, tr, er) => {
                let mut s = sp.clone();
                put(&mut s, "{\n");
                put(&mut s, more.as_str());
                put(&mut s, tl.cvt().as_str());
                put(&mut s, " = ");
                put(&mut s, el.cvt().as_str());
                put(&mut s, ";\n");
                put(&mut s, b.cvt_ind(&more).as_str());
                put(&mut s, more.as_str());
                put(&mut s, "assert(");
                put(&mut s, (tr.1).0.as_str());
                put(&mut s, " == ");
                put(&mut s, er.cvt().as_str());
                put(&mut s, ");\n");
                put(&mut s, sp.as_str());
                put(&mut s, "}\n");
                s
            },
            Statement::Call(q, args) => {
                let mut s = sp.clone();
                put(&mut s, q.0.as_str());
                put(&mut s, "_fwd(");
                let a = concat(&name_strings(args), ", ");
                put(&mut s, a.as_str());
                put(&mut s, ");\n");
                s
            },
            Statement::Uncall(q, args) => {
                let mut s = sp.clone();
                put(&mut s, q.0.as_str());
                put(&mut s, "_rev(");
                let a = concat(&name_strings(args), ", ");
                put(&mut s, a.as_str());
                put(&mut s, ");\n");
                s
            },
            Statement::Skip => String::new(),
            Statement::Print(x) => {
                let mut s = sp.clone();
                put(&mut s, "print(\"");
                put(&mut s, x.0.as_str());
                put(&mut s, "\", ");
                put(&mut s, x.0.as_str());
                put(&mut s, ");\n");
                s
            },
            Statement::For(f) => {
                let n = if f.vars.len() <= f.containers.len() {
                    f.vars.len()
                } else {
                    f.containers.len()
                };
                let mut s = for_header_cvt(&f.containers, sp);
                put(&mut s, perm_lines_cvt(&f.containers, sp).as_str());
                put(&mut s, sp.as_str());
                put(&mut s, "while (");
                put(&mut s, for_condition_cvt(&f.vars, &f.containers, n).as_str());
                put(&mut s, ") {\n");
                put(&mut s, bind_lines_cvt(&f.vars, &f.containers, &more, n).as_str());
                put(&mut s, "\n");
                put(&mut s, f.statement.cvt_ind(&more).as_str());
                put(&mut s, sp.as_str());
                put(&mut s, "}\n");
                s
            },
            Statement::IfThenElse(e, sl, sr) => {
                let mut s = sp.clone();
                put(&mut s, "if (");
                put(&mut s, e.cvt().as_str());
                put(&mut s, ") {\n");
                put(&mut s, sl.cvt_ind(&more).as_str());
                put(&mut s, sp.as_str());
                if let Statement::Skip = **sr {
                    assert(sr@ is Skip);
                    put(&mut s, "}\n");
                } else {
                    assert(!(sr@ is Skip));
                    put(&mut s, "} else {\n");
                    put(&mut s, sr.cvt_ind(&more).as_str());
                    put(&mut s, sp.as_str());
                    put(&mut s, "}\n");
                }
                s
            },
            Statement::Sequence(l, r) => {
                let mut s = l.cvt_ind(sp);
                put(&mut s, r.cvt_ind(sp).as_str());
                s
            },
        }
    }
}

fn params_cvt(ps: &Vec<TypedVariable>) -> (r: String)
    ensures
        r@ == params_text(ps@),
{
    let ghost want = params_view(ps@).map_values(|p: (Type, Seq<char>)| param_text(p));
    let mut pieces: Vec<String> = Vec::new();
    let mut k: usize = 0;
    while k < ps.len()
        invariant
            k <= ps@.len(),
            want == params_view(ps@).map_values(|p: (Type, Seq<char>)| param_text(p)),
            texts(pieces@) == want.take(k as int),
        decreases ps.len() - k,
    {
        let p = ps[k].cvt_ref();
        let ghost prev = pieces@;
        pieces.push(p);
        assert(texts(pieces@) =~= texts(prev).push(p@));
        k = k + 1;
        assert(texts(pieces@) =~= want.take(k as int));
    }
    assert(want.take(k as int) =~= want);
    concat(&pieces, ", ")
}

fn one_level() -> (r: String)
    ensures
        r@ == sp1(),
{
    String::from_str("    ")
}

impl MainProc {
    /// The main function; `None` where the forward body has no inverse.
    pub fn cvt(&self) -> (r: Option<String>)
        ensures
            r is Some <==> invertible(self.1@),
            r matches Some(t) ==> t@ == main_text(*self),
    {
        let back = match self.1.flip() {
            Some(b) => b,
            None => return None,
        };
        let sp = one_level();
        let ds = &self.0;
        let mut s = String::from_str("int main() {\n");
        let ghost s0 = s@;
        let mut k: usize = 0;
        assert(ds@.take(0) =~= Seq::<(TypedVariable, Option<Expr>)>::empty());
        assert(s@ =~= s0 + decl_lines(ds@.take(0)));
        while k < ds.len()
            invariant
                k <= ds@.len(),
                ds == &self.0,
                sp@ == sp1(),
                s@ == s0 + decl_lines(ds@.take(k as int)),
            decreases ds.len() - k,
        {
            assert(ds@.take(k + 1).drop_last() =~= ds@.take(k as int));
            assert(ds@.take(k + 1).last() == ds@[k as int]);
            let mut line = sp.clone();
            put(&mut line, ds[k].0.cvt().as_str());
            match &ds[k].1 {
                Some(e) => {
                    put(&mut line, " = ");
                    put(&mut line, e.cvt().as_str());
                },
                None => put(&mut line, "{}"),
            }
            put(&mut line, ";\n");
            put(&mut s, line.as_str());
            k = k + 1;
        }
        assert(ds@.take(k as int) =~= ds@);
        put(&mut s, "\n");
        put(&mut s, self.1.cvt_ind(&sp).as_str());
        put(&mut s, "\n");
        put(&mut s, self.2.cvt_ind(&sp).as_str());
        put(&mut s, "\n");
        put(&mut s, back.cvt_ind(&sp).as_str());
        put(&mut s, "\n");
        let mut prints = String::new();
        k = 0;
        assert(ds@.take(0) =~= Seq::<(TypedVariable, Option<Expr>)>::empty());
        while k < ds.len()
            invariant
                k <= ds@.len(),
                ds == &self.0,
                sp@ == sp1(),
                prints@ == print_lines(ds@.take(k as int)),
            decreases ds.len() - k,
        {
            assert(ds@.take(k + 1).drop_last() =~= ds@.take(k as int));
            assert(ds@.take(k + 1).last() == ds@[k as int]);
            let x = (ds[k].0.1).0.as_str();
            put(&mut prints, sp.as_str());
            put(&mut prints, "print(\"");
            put(&mut prints, x);
            put(&mut prints, "\", ");
            put(&mut prints, x);
            put(&mut prints, ");\n");
            k = k + 1;
        }
        assert(ds@.take(k as int) =~= ds@);
        put(&mut s, prints.as_str());
        put(&mut s, "}\n");
        Some(s)
    }
}

fn mat_params_cvt(m: &SquareMat) -> (r: String)
    requires
        m.wf(),
    ensures
        r@ == mat_params(m.elems(), m.side()),
{
    let n = m.size();
    let ghost want = Seq::new(
        n as nat,
        |i: int| (if nop_text(m.elems(), m.side(), i) {
            "const "@
        } else {
            Seq::empty()
        }) + "Int& v"@ + digits_text(i as nat),
    );
    let mut pieces: Vec<String> = Vec::new();
    let mut i: usize = 0;
    while i < n
        invariant
            m.wf(),
            n == m.side(),
            i <= n,
            want == Seq::new(
                n as nat,
                |i: int| (if nop_text(m.elems(), m.side(), i) {
                    "const "@
                } else {
                    Seq::empty()
                }) + "Int& v"@ + digits_text(i as nat),
            ),
            texts(pieces@) == want.take(i as int),
        decreases n - i,
    {
        let mut p = if m.nop(i) {
            String::from_str("const ")
        } else {
            String::new()
        };
        put(&mut p, "Int& v");
        put(&mut p, unsigned_decimal(i as u64).as_str());
        let ghost prev = pieces@;
        pieces.push(p);
        assert(texts(pieces@) =~= texts(prev).push(p@));
        i = i + 1;
        assert(texts(pieces@) =~= want.take(i as int));
    }
    assert(want.take(i as int) =~= want);
    concat(&pieces, ", ")
}

fn mat_row_cvt(m: &SquareMat, i: usize) -> (r: String)
    requires
        m.wf(),
        i < m.side(),
    ensures
        r@ == mat_row(m.elems(), m.side(), i as int),
{
    let n = m.size();
    let ghost d = m.elems();
    let ghost want = Seq::new(
        n as nat,
        |j: int| decimal_text(entry(d, n as nat, i as int, j)) + " * "@ + (if nop_text(d, n as nat, j) {
            "v"@
        } else {
            "c"@
        }) + digits_text(j as nat),
    );
    let mut pieces: Vec<String> = Vec::new();
    let mut j: usize = 0;
    while j < n
        invariant
            m.wf(),
            n == m.side(),
            d == m.elems(),
            i < n,
            j <= n,
            want == Seq::new(
                n as nat,
                |j: int| decimal_text(entry(d, n as nat, i as int, j)) + " * "@ + (if nop_text(
                    d,
                    n as nat,
                    j,
                ) {
                    "v"@
                } else {
                    "c"@
                }) + digits_text(j as nat),
            ),
            texts(pieces@) == want.take(j as int),
        decreases n - j,
    {
        let mut p = decimal(m.get(i, j) as i64);
        put(&mut p, " * ");
        put(&mut p, if m.nop(j) {
            "v"
        } else {
            "c"
        });
        put(&mut p, unsigned_decimal(j as u64).as_str());
        let ghost prev = pieces@;
        pieces.push(p);
        assert(texts(pieces@) =~= texts(prev).push(p@));
        j = j + 1;
        assert(texts(pieces@) =~= want.take(j as int));
    }
    assert(want.take(j as int) =~= want);
    concat(&pieces, " + ")
}

fn mat_body_cvt(m: &SquareMat) -> (r: String)
    requires
        m.wf(),
    ensures
        r@ == mat_body(m.elems(), m.side()),
{
    let n = m.size();
    let sp = one_level();
    let mut copies = String::new();
    let mut assigns = String::new();
    let mut i: usize = 0;
    while i < n
        invariant
            m.wf(),
            n == m.side(),
            i <= n,
            sp@ == sp1(),
            copies@ == mat_copies(m.elems(), m.side(), i as nat),
            assigns@ == mat_assigns(m.elems(), m.side(), i as nat),
        decreases n - i,
    {
        if m.nop(i) {
            assert(copies@ + Seq::<char>::empty() =~= copies@);
            assert(assigns@ + Seq::<char>::empty() =~= assigns@);
        } else {
            let v = unsigned_decimal(i as u64);
            let mut c = sp.clone();
            put(&mut c, "Int c");
            put(&mut c, v.as_str());
            put(&mut c, " = v");
            put(&mut c, v.as_str());
            put(&mut c, ";\n");
            put(&mut copies, c.as_str());
            let mut a = sp.clone();
            put(&mut a, "v");
            put(&mut a, v.as_str());
            put(&mut a, " = ");
            put(&mut a, mat_row_cvt(m, i).as_str());
            put(&mut a, ";\n");
            put(&mut assigns, a.as_str());
        }
        i = i + 1;
    }
    let mut s = mat_params_cvt(m);
    put(&mut s, ") {\n");
    put(&mut s, copies.as_str());
    put(&mut s, assigns.as_str());
    put(&mut s, "}\n");
    s
}

impl Proc {
    /// The forward and backward functions of this procedure; `None` where
    /// its forward body has no inverse.
    pub fn cvt(&self) -> (r: Option<String>)
        ensures
            r is Some <==> proc_emittable(*self),
            r matches Some(t) ==> t@ == proc_text(*self),
    {
        let sp = one_level();
        match self {
            Proc::Inj(q, ps, st) => {
                let back = match st.flip() {
                    Some(b) => b,
                    None => return None,
                };
                let args = params_cvt(ps);
                let mut s = String::from_str("void ");
                put(&mut s, q.0.as_str());
                put(&mut s, "_fwd(");
                put(&mut s, args.as_str());
                put(&mut s, ") {\n");
                put(&mut s, st.cvt_ind(&sp).as_str());
                put(&mut s, "}\n\nvoid ");
                put(&mut s, q.0.as_str());
                put(&mut s, "_rev(");
                put(&mut s, args.as_str());
                put(&mut s, ") {\n");
                put(&mut s, back.cvt_ind(&sp).as_str());
                put(&mut s, "}\n");
                Some(s)
            },
            Proc::Invl(q, ps, st, invl) => {
                let back = match st.flip() {
                    Some(b) => b,
                    None => return None,
                };
                let mut body = params_cvt(ps);
                put(&mut body, ") {\n");
                put(&mut body, st.cvt_ind(&sp).as_str());
                put(&mut body, "\n");
                put(&mut body, invl.cvt_ind(&sp).as_str());
                put(&mut body, "\n");
                put(&mut body, back.cvt_ind(&sp).as_str());
                put(&mut body, "}\n");
                Some(wrap_bodies(q, &body))
            },
            Proc::Mat(q, m) => {
                let body = mat_body_cvt(m.matrix());
                Some(wrap_bodies(q, &body))
            },
        }
    }

    /// The declarations of the forward and backward functions of this procedure.
    pub fn cvt_sig(&self) -> (r: String)
        ensures
            r@ == sig_text(*self),
    {
        let hello = match self {
            Proc::Inj(_, ps, _) => params_cvt(ps),
            Proc::Invl(_, ps, _, _) => params_cvt(ps),
            Proc::Mat(_, m) => mat_params_cvt(m.matrix()),
        };
        let q = match self {
            Proc::Inj(q, _, _) => q,
            Proc::Invl(q, _, _, _) => q,
            Proc::Mat(q, _) => q,
        };
        let mut s = String::from_str("void ");
        put(&mut s, q.0.as_str());
        put(&mut s, "_fwd(");
        put(&mut s, hello.as_str());
        put(&mut s, ");\nvoid ");
        put(&mut s, q.0.as_str());
        put(&mut s, "_rev(");
        put(&mut s, hello.as_str());
        put(&mut s, ");");
        s
    }
}

fn wrap_bodies(q: &ProcId, body: &String) -> (r: String)
    ensures
        r@ == "void "@ + q@ + "_fwd("@ + body@ + "\nvoid "@ + q@ + "_rev("@ + body@,
{
    let mut s = String::from_str("void ");
    put(&mut s, q.0.as_str());
    put(&mut s, "_fwd(");
    put(&mut s, body.as_str());
    put(&mut s, "\nvoid ");
    put(&mut s, q.0.as_str());
    put(&mut s, "_rev(");
    put(&mut s, body.as_str());
    s
}

impl Program {
    /// The text of the whole program; `None` where a forward body has no inverse.
    pub fn cvt(&self) -> (r: Option<String>)
        ensures
            r is Some <==> emittable(*self),
            r matches Some(t) ==> t@ == program_text(*self),
    {
        let procs = &self.1;
        let mut sigs = String::new();
        let mut bodies = String::new();
        let mut k: usize = 0;
        assert(procs@.take(0) =~= Seq::<Proc>::empty());
        while k < procs.len()
            invariant
                k <= procs@.len(),
                procs == &self.1,
                sigs@ == sigs_text(procs@.take(k as int)),
                bodies@ == procs_text(procs@.take(k as int)),
                forall|i: int| 0 <= i < k ==> #[trigger] proc_emittable(procs@[i]),
            decreases procs.len() - k,
        {
            assert(procs@.take(k + 1).drop_last() =~= procs@.take(k as int));
            assert(procs@.take(k + 1).last() == procs@[k as int]);
            let p = &procs[k];
            let sig = p.cvt_sig();
            put(&mut sigs, sig.as_str());
            put(&mut sigs, "\n");
            let text = match p.cvt() {
                Some(t) => t,
                None => return None,
            };
            put(&mut bodies, "\n");
            put(&mut bodies, text.as_str());
            k = k + 1;
        }
        assert(procs@.take(k as int) =~= procs@);
        let main = match self.0.cvt() {
            Some(t) => t,
            None => return None,
        };
        let mut s = String::from_str("#include \"prelude.hpp\"\n\n");
        put(&mut s, sigs.as_str());
        put(&mut s, "\n");
        put(&mut s, main.as_str());
        put(&mut s, bodies.as_str());
        Some(s)
    }
}

} // verus!
