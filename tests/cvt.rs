use reversible::ast::{Expr, Statement};
use reversible::cvt::{decimal, indent, unsigned_decimal};
use reversible::parser::Parser;
use reversible::tokenizer::Tokenizer;

fn parser(src: &str) -> Parser {
    Parser::new(Tokenizer::tokenize(src).expect("tokens"))
}

fn expr(src: &str) -> Expr {
    parser(src).parse_expr(0).expect("expression")
}

fn statement(src: &str) -> Statement {
    parser(src).parse_statement().expect("statement")
}

#[test]
fn numbers_and_indentation() {
    assert_eq!(decimal(0), "0");
    assert_eq!(decimal(-5), "-5");
    assert_eq!(decimal(1234), "1234");
    assert_eq!(decimal(i64::MIN), "-9223372036854775808");
    assert_eq!(unsigned_decimal(u64::MAX), "18446744073709551615");
    assert_eq!(indent(0), "");
    assert_eq!(indent(2), "        ");
}

#[test]
fn concat_puts_the_delimiter_between_items() {
    assert_eq!(reversible::cvt::concat(&vec![], ", "), "");
    assert_eq!(reversible::cvt::concat(&vec!["a".to_string()], ", "), "a");
    assert_eq!(reversible::cvt::concat(&vec!["a".to_string(), "b".to_string(), "c".to_string()], ", "), "a, b, c");
}

#[test]
fn expressions_are_spelled_in_the_target_language() {
    assert_eq!(expr("1 + 2 * 3").cvt(), "1 + 2 * 3");
    assert_eq!(expr("a = b").cvt(), "a == b");
    assert_eq!(expr("a[i] + (x)").cvt(), "index(a, i) + (x)");
    assert_eq!(expr("[1, -2]").cvt(), "{1, -2}");
    assert_eq!(expr("empty(l) || size(l) != 0").cvt(), "l.empty() || l.size() != 0");
    assert_eq!(expr("nil").cvt(), "List{}");
}

#[test]
fn statements_are_spelled_in_the_target_language() {
    let sp = String::new();
    assert_eq!(statement("x += 1").cvt_ind(&sp), "x += 1;\n");
    assert_eq!(statement("x <=> y").cvt_ind(&sp), "swap(x, y);\n");
    assert_eq!(statement("a[i] ^= 2").cvt_ind(&sp), "index(a, i) ^= 2;\n");
    assert_eq!(statement("call f(x, y)").cvt_ind(&sp), "f_fwd(x, y);\n");
    assert_eq!(statement("uncall f(x)").cvt_ind(&sp), "f_rev(x);\n");
    assert_eq!(statement("push_back(x, l)").cvt_ind(&sp), "l.push_back(x);\nx = 0;\n");
    assert_eq!(statement("pop_front(3, l)").cvt_ind(&sp), "assert(3 == l.front());\nl.pop_front();\n");
    assert_eq!(statement("print(x)").cvt_ind(&sp), "print(\"x\", x);\n");
    assert_eq!(statement("skip").cvt_ind(&sp), "");
    assert_eq!(
        statement("if a = 1 then x += 1 end").cvt_ind(&sp),
        "if (a == 1) {\n    x += 1;\n}\n"
    );
    assert_eq!(
        statement("if a = 1 then x += 1 else x -= 1 fi b = 2").cvt_ind(&sp),
        "if (a == 1) {\n    x += 1;\n    assert(b == 2);\n} else {\n    x -= 1;\n    assert(!(b == 2));\n}\n"
    );
    assert_eq!(
        statement("local int t = 0 t ^= x delocal int t = 0").cvt_ind(&sp),
        "{\n    Int t = 0;\n    t ^= x;\n    assert(t == 0);\n}\n"
    );
    assert_eq!(
        statement("for v in l[p] v ^= 1 end").cvt_ind(&sp),
        "std::size_t i_l{};\nassert_valid_perm(l, p);\nwhile (i_l + 0 < l.size()) {\n    auto& v = index(l, p[i_l++]);\n\n    v ^= 1;\n}\n"
    );
}

#[test]
fn loop_is_spelled_with_its_guards() {
    let sp = String::new();
    assert_eq!(
        statement("from i = 0 do i += 1 loop skip until i = 3").cvt_ind(&sp),
        "assert(i == 0);\ni += 1;\nwhile (!(i == 3)) {\n    assert(!(i == 0));\n    i += 1;\n}\n"
    );
}

#[test]
fn program_is_spelled_with_backward_bodies() {
    let src = "invl main() int x = 1 with x ^= 1 inj f(int a, const int b) a += b";
    let p = parser(src).parse_program().expect("program");
    let text = p.cvt().expect("text");
    let want = "#include \"prelude.hpp\"\n\n\
                void f_fwd(Int& a, const Int& b);\nvoid f_rev(Int& a, const Int& b);\n\
                \nint main() {\n    Int x = 1;\n\n\n    x ^= 1;\n\n\n    print(\"x\", x);\n}\n\
                \nvoid f_fwd(Int& a, const Int& b) {\n    a += b;\n}\n\nvoid f_rev(Int& a, const Int& b) {\n    a -= b;\n}\n";
    assert_eq!(text, want);
}

#[test]
fn matrix_procedure_is_spelled_as_a_linear_transform() {
    let src = "invl main() with skip invl m [1 0 0; 0 0 1; 0 1 0]";
    let p = parser(src).parse_program().expect("program");
    assert_eq!(
        p.1[0].cvt_sig(),
        "void m_fwd(const Int& v0, Int& v1, Int& v2);\nvoid m_rev(const Int& v0, Int& v1, Int& v2);"
    );
    let body = "const Int& v0, Int& v1, Int& v2) {\n    Int c1 = v1;\n    Int c2 = v2;\n    \
                v1 = 0 * v0 + 0 * c1 + 1 * c2;\n    v2 = 0 * v0 + 1 * c1 + 0 * c2;\n}\n";
    assert_eq!(p.1[0].cvt().expect("text"), format!("void m_fwd({body}\nvoid m_rev({body}"));
}

#[test]
fn forward_body_without_inverse_is_not_spelled() {
    let p = parser("invl main() list l for v in l v ^= 1 end with skip").parse_program().expect("program");
    assert!(p.cvt().is_none());
    assert!(p.0.cvt().is_none());
}
