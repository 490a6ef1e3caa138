use reversible::ast::Program;
use reversible::checker::{CheckError, Checker};
use reversible::parser::Parser;
use reversible::tokenizer::Tokenizer;

fn program(src: &str) -> Program {
    let tokens = Tokenizer::tokenize(src).expect("tokens");
    Parser::new(tokens).parse_program().expect("program")
}

fn verdict(src: &str) -> Result<(), CheckError> {
    Checker::check(&program(src))
}

#[test]
fn linear_body_with_independent_variables_is_accepted() {
    assert!(verdict("invl main() int x int y with x += 1 y -= 1").is_ok());
}

#[test]
fn variable_used_twice_in_involution_is_rejected() {
    match verdict("invl main() int x with x += 1 x -= 2") {
        Err(CheckError::NonLinearUse(v)) => assert_eq!(v.0, "x"),
        other => panic!("unexpected verdict {:?}", other),
    }
}

#[test]
fn const_variable_may_be_read_twice() {
    assert!(verdict("invl main() const int c int x int y with x ^= c y ^= c").is_ok());
}

#[test]
fn self_reference_is_rejected() {
    match verdict("invl main() with skip inj f(int x, int y) x += x") {
        Err(CheckError::SelfReference(v)) => assert_eq!(v.0, "x"),
        other => panic!("unexpected verdict {:?}", other),
    }
}

#[test]
fn reference_to_other_variable_is_accepted() {
    assert!(verdict("invl main() with skip inj f(int x, int y) x += y").is_ok());
}

#[test]
fn indexed_self_reference_is_rejected() {
    match verdict("invl main() with skip inj f(array<3> a, int i) a[i] += a[0]") {
        Err(CheckError::SelfReference(v)) => assert_eq!(v.0, "a"),
        other => panic!("unexpected verdict {:?}", other),
    }
}

#[test]
fn duplicate_argument_is_rejected() {
    match verdict("invl main() int x int y call f(x, x) with skip inj f(int a, int b) skip") {
        Err(CheckError::RepeatedArgument(v)) => assert_eq!(v.0, "x"),
        other => panic!("unexpected verdict {:?}", other),
    }
}

#[test]
fn distinct_arguments_are_accepted() {
    assert!(verdict("invl main() int x int y call f(x, y) with skip inj f(int a, int b) skip").is_ok());
}

#[test]
fn injective_call_in_involution_is_rejected() {
    match verdict("invl main() int x with call f(x) inj f(int a) a += 1") {
        Err(CheckError::InjectiveInInvolution(q)) => assert_eq!(q.0, "f"),
        other => panic!("unexpected verdict {:?}", other),
    }
}

#[test]
fn involutive_call_in_involution_is_accepted() {
    assert!(verdict("invl main() int x with call f(x) invl f(int a) with a ^= 1").is_ok());
}

#[test]
fn matrix_call_in_involution_is_accepted() {
    assert!(verdict("invl main() int x int y with call m(x, y) invl m [0 1; 1 0]").is_ok());
}

#[test]
fn injective_uncall_in_nested_involution_is_rejected() {
    let src = "invl main() int x int y with if x = 0 then uncall f(y) end inj f(int a) a += 1";
    match verdict(src) {
        Err(CheckError::InjectiveInInvolution(q)) => assert_eq!(q.0, "f"),
        other => panic!("unexpected verdict {:?}", other),
    }
}

#[test]
fn undefined_procedure_is_rejected() {
    match verdict("invl main() int x with call g(x)") {
        Err(CheckError::UndefinedProc(q)) => assert_eq!(q.0, "g"),
        other => panic!("unexpected verdict {:?}", other),
    }
}

#[test]
fn duplicate_procedure_name_is_rejected() {
    match verdict("invl main() with skip inj f(int a) skip invl f(int b) with skip") {
        Err(CheckError::DuplicateProc(q)) => assert_eq!(q.0, "f"),
        other => panic!("unexpected verdict {:?}", other),
    }
}

#[test]
fn guard_use_counts_before_both_arms() {
    match verdict("invl main() int x int y with if x = 0 then x ^= 1 end") {
        Err(CheckError::NonLinearUse(v)) => assert_eq!(v.0, "x"),
        other => panic!("unexpected verdict {:?}", other),
    }
}

#[test]
fn each_arm_may_use_a_variable_once() {
    assert!(verdict("invl main() int x int y with if y = 0 then x ^= 1 else x ^= 2 end").is_ok());
}

#[test]
fn use_in_either_arm_counts_after_the_conditional() {
    match verdict("invl main() int x int y int z with if y = 0 then x ^= 1 end x ^= 2") {
        Err(CheckError::NonLinearUse(v)) => assert_eq!(v.0, "x"),
        other => panic!("unexpected verdict {:?}", other),
    }
}

#[test]
fn loop_body_may_not_touch_outer_variables() {
    match verdict("invl main() list l int x with for v in l x ^= v end") {
        Err(CheckError::NonLinearUse(v)) => assert_eq!(v.0, "x"),
        other => panic!("unexpected verdict {:?}", other),
    }
}

#[test]
fn loop_variable_is_fresh_in_the_body() {
    assert!(verdict("invl main() list l int x with for v in l v ^= 1 end x ^= 1").is_ok());
}

#[test]
fn statement_outside_involution_forms_is_rejected_in_involution_body() {
    match verdict("invl main() list l int x with push_back(x, l)") {
        Err(CheckError::NotInvolutive) => {}
        other => panic!("unexpected verdict {:?}", other),
    }
}
