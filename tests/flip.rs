use reversible::ast::{BinOp, Expr, MutOp, Statement};
use std::collections::HashMap;
use reversible::parser::Parser;
use reversible::tokenizer::Tokenizer;

fn statement(src: &str) -> Statement {
    let tokens = Tokenizer::tokenize(src).expect("tokens");
    Parser::new(tokens).parse_statement().expect("statement")
}

#[test]
fn flip_twice_gives_back_the_statement() {
    let src = "x += 1 local int t = 0 t ^= x delocal int t = 0 \
               if x = 1 then y -= x else skip fi y = 0 \
               from i = 0 do i += 1 loop skip until i = 3 \
               push_back(x, l) pop_front(3, l) call f(x, y) a[i] ^= 2 swap(a, 0, 1) print(x)";
    let s = statement(src);
    let once = s.flip().expect("invertible");
    let twice = once.flip().expect("invertible");
    assert_eq!(format!("{:?}", twice), format!("{:?}", s));
    assert_ne!(format!("{:?}", once), format!("{:?}", s));
}

#[test]
fn add_and_sub_swap_and_xor_stays() {
    assert_eq!(MutOp::Add.flip(), MutOp::Sub);
    assert_eq!(MutOp::Sub.flip(), MutOp::Add);
    assert_eq!(MutOp::Xor.flip(), MutOp::Xor);
    assert_eq!(MutOp::Swap.flip(), MutOp::Swap);
}

#[test]
fn sequence_is_reversed() {
    let s = statement("x += 1 y -= 2");
    match s.flip().expect("invertible") {
        Statement::Sequence(l, r) => {
            assert!(matches!(*l, Statement::Mut(ref v, MutOp::Add, _) if v.0 == "y"));
            assert!(matches!(*r, Statement::Mut(ref v, MutOp::Sub, _) if v.0 == "x"));
        }
        other => panic!("unexpected inverse {:?}", other),
    }
}

#[test]
fn push_and_pop_invert_on_the_same_end() {
    assert!(matches!(statement("push_front(x, l)").flip(), Some(Statement::PopFront(_, _))));
    assert!(matches!(statement("push_back(x, l)").flip(), Some(Statement::PopBack(_, _))));
    assert!(matches!(statement("pop_front(x, l)").flip(), Some(Statement::PushFront(_, _))));
    assert!(matches!(statement("pop_back(x, l)").flip(), Some(Statement::PushBack(_, _))));
}

#[test]
fn call_and_uncall_invert() {
    assert!(matches!(statement("call f(x)").flip(), Some(Statement::Uncall(_, _))));
    assert!(matches!(statement("uncall f(x)").flip(), Some(Statement::Call(_, _))));
}

#[test]
fn conditional_swaps_its_assertions() {
    match statement("if a = 1 then x += 1 fi b = 2").flip() {
        Some(Statement::IfThenElseFi(entry, _, _, exit)) => {
            assert!(format!("{:?}", entry).contains("\"b\""));
            assert!(format!("{:?}", exit).contains("\"a\""));
        }
        other => panic!("unexpected inverse {:?}", other),
    }
}

#[test]
fn plain_conditional_and_for_loop_have_no_inverse() {
    assert!(statement("if a = 1 then x ^= 1 end").flip().is_none());
    assert!(statement("for v in l v ^= 1 end").flip().is_none());
    assert!(statement("x += 1 for v in l v ^= 1 end").flip().is_none());
}

fn value(e: &Expr, env: &HashMap<String, i64>) -> i64 {
    match e {
        Expr::Const(n) => *n as i64,
        Expr::Variable(x) => env[&x.0],
        Expr::Wrapped(x) => value(x, env),
        Expr::BinOp(l, op, r) => {
            let (a, b) = (value(l, env), value(r, env));
            match op {
                BinOp::Add => a + b,
                BinOp::Sub => a - b,
                BinOp::Mul => a * b,
                BinOp::Equal => (a == b) as i64,
                BinOp::LessThan => (a < b) as i64,
                _ => panic!("operator outside the test language"),
            }
        }
        _ => panic!("expression outside the test language"),
    }
}

fn run(s: &Statement, env: &mut HashMap<String, i64>) {
    match s {
        Statement::Mut(x, op, e) => {
            let d = value(e, env);
            let v = env[&x.0];
            match op {
                MutOp::Add => {
                    env.insert(x.0.clone(), v + d);
                }
                MutOp::Sub => {
                    env.insert(x.0.clone(), v - d);
                }
                MutOp::Swap => {
                    if let Expr::Variable(y) = e {
                        env.insert(x.0.clone(), env[&y.0]);
                        env.insert(y.0.clone(), v);
                    }
                }
                MutOp::Xor => {
                    env.insert(x.0.clone(), v ^ d);
                }
            }
        }
        Statement::Sequence(l, r) => {
            run(l, env);
            run(r, env);
        }
        Statement::IfThenElseFi(el, sl, sr, er) => {
            let taken = value(el, env) != 0;
            if taken {
                run(sl, env);
            } else {
                run(sr, env);
            }
            assert_eq!(value(er, env) != 0, taken, "exit assertion");
        }
        Statement::Skip | Statement::Print(_) => {}
        _ => panic!("statement outside the test language"),
    }
}

#[test]
fn forward_then_inverse_restores_bindings() {
    let s = statement(
        "x += y * 2 y -= 3 if x = 7 then z += x else z -= 1 fi z = 7 x <=> y w ^= x",
    );
    let back = s.flip().expect("invertible");
    let mut env: HashMap<String, i64> =
        [("x", 1), ("y", 3), ("z", 0), ("w", 5)].iter().map(|(k, v)| (k.to_string(), *v)).collect();
    let start = env.clone();
    run(&s, &mut env);
    assert_ne!(env, start);
    run(&back, &mut env);
    assert_eq!(env, start);
}
