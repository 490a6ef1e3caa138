use reversible::ast::{BinOp, Expr, InnerType, Proc, Statement, UnrOp};
use reversible::mat::MatError;
use reversible::parser::{ParseError, Parser};
use reversible::token::{Symbol, Token};
use reversible::tokenizer::Tokenizer;

fn parser(src: &str) -> Parser {
    Parser::new(Tokenizer::tokenize(src).expect("tokens"))
}

fn expr(src: &str) -> Expr {
    let mut p = parser(src);
    let e = p.parse_expr(0).expect("expression");
    assert!(p.is_done());
    e
}

fn is_const(e: &Expr, n: i32) -> bool {
    matches!(e, Expr::Const(m) if *m == n)
}

#[test]
fn multiplication_binds_tighter_on_the_right() {
    match expr("1 + 2 * 3") {
        Expr::BinOp(l, BinOp::Add, r) => {
            assert!(is_const(&l, 1));
            match *r {
                Expr::BinOp(a, BinOp::Mul, b) => {
                    assert!(is_const(&a, 2));
                    assert!(is_const(&b, 3));
                }
                other => panic!("unexpected operand {:?}", other),
            }
        }
        other => panic!("unexpected tree {:?}", other),
    }
}

#[test]
fn multiplication_binds_tighter_on_the_left() {
    match expr("1 * 2 + 3") {
        Expr::BinOp(l, BinOp::Add, r) => {
            assert!(is_const(&r, 3));
            match *l {
                Expr::BinOp(a, BinOp::Mul, b) => {
                    assert!(is_const(&a, 1));
                    assert!(is_const(&b, 2));
                }
                other => panic!("unexpected operand {:?}", other),
            }
        }
        other => panic!("unexpected tree {:?}", other),
    }
}

#[test]
fn equal_precedence_associates_to_the_right() {
    match expr("1 - 2 + 3") {
        Expr::BinOp(l, BinOp::Sub, r) => {
            assert!(is_const(&l, 1));
            assert!(matches!(*r, Expr::BinOp(_, BinOp::Add, _)));
        }
        other => panic!("unexpected tree {:?}", other),
    }
}

#[test]
fn logical_operators_bind_loosest() {
    match expr("a < 1 && b = 2 || c") {
        Expr::BinOp(l, BinOp::LogicalOr, _) => {
            assert!(matches!(*l, Expr::BinOp(_, BinOp::LogicalAnd, _)));
        }
        other => panic!("unexpected tree {:?}", other),
    }
}

#[test]
fn unary_minus_binds_tighter_than_binary() {
    match expr("-x * 2") {
        Expr::BinOp(l, BinOp::Mul, _) => {
            assert!(matches!(*l, Expr::UnrOp(UnrOp::Negative, _)));
        }
        other => panic!("unexpected tree {:?}", other),
    }
}

#[test]
fn primaries_parse() {
    assert!(matches!(expr("(1)"), Expr::Wrapped(_)));
    assert!(matches!(expr("[]"), Expr::Array(ref v) if v.is_empty()));
    assert!(matches!(expr("[1, x, 2 + 3]"), Expr::Array(ref v) if v.len() == 3));
    assert!(matches!(expr("a[i + 1]"), Expr::Indexed(_, _)));
    assert!(matches!(expr("empty(l)"), Expr::Empty(_)));
    assert!(matches!(expr("size(l)"), Expr::Size(_)));
    assert!(matches!(expr("nil"), Expr::Nil));
    assert!(matches!(expr("!x"), Expr::UnrOp(UnrOp::Not, _)));
}

#[test]
fn parse_stops_before_a_weaker_operator() {
    let mut p = parser("1 * 2 + 3");
    let e = p.parse_expr(8).expect("expression");
    assert!(matches!(e, Expr::BinOp(_, BinOp::Mul, _)));
    assert!(!p.is_done());
}

#[test]
fn if_without_else_defaults_to_skip() {
    let s = parser("if a = 0 then x ^= 1 end").parse_statement().expect("statement");
    match s {
        Statement::IfThenElse(_, _, r) => assert!(matches!(*r, Statement::Skip)),
        other => panic!("unexpected statement {:?}", other),
    }
    let s = parser("if a = 0 then x += 1 fi a = 0").parse_statement().expect("statement");
    match s {
        Statement::IfThenElseFi(_, _, r, _) => assert!(matches!(*r, Statement::Skip)),
        other => panic!("unexpected statement {:?}", other),
    }
}

#[test]
fn from_without_do_defaults_to_skip() {
    let s = parser("from i = 0 loop i += 1 until i = 3").parse_statement().expect("statement");
    match s {
        Statement::FromDoLoopUntil(_, l, _, _) => assert!(matches!(*l, Statement::Skip)),
        other => panic!("unexpected statement {:?}", other),
    }
}

#[test]
fn sequences_nest_to_the_right() {
    let s = parser("x += 1 y += 2 z += 3").parse_statement().expect("statement");
    match s {
        Statement::Sequence(l, r) => {
            assert!(matches!(*l, Statement::Mut(_, _, _)));
            assert!(matches!(*r, Statement::Sequence(_, _)));
        }
        other => panic!("unexpected statement {:?}", other),
    }
}

#[test]
fn for_loop_with_packs_and_permutations() {
    let s = parser("for (v, [a, b]) in (l, m[p]) v ^= a end").parse_statement().expect("statement");
    match s {
        Statement::For(f) => {
            assert_eq!(f.vars.len(), 2);
            assert_eq!(f.vars[1].len(), 2);
            assert_eq!(f.containers.len(), 2);
            assert!(f.containers[0].1.is_none());
            assert!(matches!(f.containers[1].1, Some(ref i) if i.0 == "p"));
        }
        other => panic!("unexpected statement {:?}", other),
    }
}

#[test]
fn for_loop_arity_mismatch_is_rejected() {
    let r = parser("for (v, w) in l v ^= 1 end").parse_statement();
    assert!(matches!(r, Err(ParseError::ForArity(2, 1))));
}

#[test]
fn local_delocal_mismatch_is_rejected() {
    let r = parser("local int t = 0 skip delocal int u = 0").parse_statement();
    assert!(matches!(r, Err(ParseError::LocalMismatch(_, _))));
    let r = parser("local int t = 0 skip delocal const int t = 0").parse_statement();
    assert!(matches!(r, Err(ParseError::LocalMismatch(_, _))));
    assert!(parser("local int t = 0 skip delocal int t = 0").parse_statement().is_ok());
}

#[test]
fn program_with_procedures() {
    let src = "invl main() int x = 1 list l array<4> a with x ^= 1 \
               inj f(int a, const int b) a += b \
               invl g(int a) a += 1 with a ^= 2 \
               invl m [0 1; 1 0]";
    let p = parser(src).parse_program().expect("program");
    assert_eq!(p.0 .0.len(), 3);
    assert!(p.0 .0[0].1.is_some());
    assert!(matches!(p.0 .0[2].0 .0.inner, InnerType::Array(4)));
    assert_eq!(p.1.len(), 3);
    assert!(matches!(p.1[0], Proc::Inj(_, _, _)));
    assert!(matches!(p.1[1], Proc::Invl(_, _, Statement::Mut(_, _, _), _)));
    assert!(matches!(p.1[2], Proc::Mat(_, _)));
    match &p.1[0] {
        Proc::Inj(_, params, _) => assert!(params[1].0.is_const),
        _ => unreachable!(),
    }
}

#[test]
fn matrix_procedure_must_be_involutory() {
    let r = parser("invl main() with skip invl m [1 1; 0 1]").parse_program();
    assert!(matches!(r, Err(ParseError::Matrix(MatError::NotInvolutory(_)))));
    let r = parser("invl main() with skip invl m [1, 2, 3]").parse_program();
    assert!(matches!(r, Err(ParseError::UnexpectedToken(_)) | Err(ParseError::Matrix(_))));
    let r = parser("invl main() with skip invl m [1 2 3]").parse_program();
    assert!(matches!(r, Err(ParseError::Matrix(MatError::NotSquare(3)))));
    let r = parser("invl main() with skip invl m [-1]").parse_program();
    assert!(r.is_ok());
}

#[test]
fn empty_input_is_rejected() {
    assert!(matches!(Parser::new(vec![]).parse_program(), Err(ParseError::UnexpectedEnd)));
}

#[test]
fn truncated_program_is_rejected() {
    assert!(matches!(parser("invl main() int x with").parse_program(), Err(ParseError::UnexpectedEnd)));
}

#[test]
fn unexpected_token_is_reported() {
    match parser("invl main() with skip skip then").parse_program() {
        Err(ParseError::UnexpectedToken(Token::Symbol(Symbol::Then))) => {}
        other => panic!("unexpected result {:?}", other),
    }
}

#[test]
fn zero_array_size_is_rejected() {
    let r = parser("invl main() array<0> a with skip").parse_program();
    assert!(matches!(r, Err(ParseError::InvalidArraySize(0))));
}

#[test]
fn negated_minimum_literal_is_rejected() {
    let tokens = vec![
        Token::Symbol(Symbol::Minus),
        Token::Literal(i32::MIN),
        Token::Symbol(Symbol::RBracket),
    ];
    let mut all = Tokenizer::tokenize("invl main() with skip invl m [").expect("tokens");
    all.extend(tokens);
    assert!(matches!(Parser::new(all).parse_program(), Err(ParseError::LiteralOutOfRange(_))));
}

#[test]
fn matrix_literal_with_negative_entries_and_semicolons() {
    let p = parser("invl main() with skip invl m [-1 0; 0 1]").parse_program().expect("program");
    match &p.1[0] {
        Proc::Mat(_, m) => {
            let sq = m.matrix();
            assert_eq!(sq.size(), 2);
            assert_eq!(sq.get(0, 0), -1);
            assert_eq!(sq.get(0, 1), 0);
            assert_eq!(sq.get(1, 0), 0);
            assert_eq!(sq.get(1, 1), 1);
        }
        other => panic!("unexpected procedure {:?}", other),
    }
}
