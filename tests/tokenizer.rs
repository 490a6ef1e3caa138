use reversible::token::{Symbol, Token};
use reversible::tokenizer::{is_symbol, keyword, LexError, Machine, TokenType, Tokenizer};

fn names(tokens: &[Token]) -> Vec<String> {
    tokens.iter().map(|t| format!("{:?}", t)).collect()
}

#[test]
fn words_and_marks_are_split() {
    let t = Tokenizer::tokenize("x += 12").expect("tokens");
    assert_eq!(t.len(), 3);
    assert!(matches!(t[0], Token::Name(ref s) if s == "x"));
    assert!(matches!(t[1], Token::Symbol(Symbol::PlusEqual)));
    assert!(matches!(t[2], Token::Literal(12)));
}

#[test]
fn marks_without_spaces_split_greedily() {
    let t = Tokenizer::tokenize("a<=>b").expect("tokens");
    assert!(matches!(t[1], Token::Symbol(Symbol::Spaceship)));
    let t = Tokenizer::tokenize("x+=-1").expect("tokens");
    assert_eq!(t.len(), 4);
    assert!(matches!(t[1], Token::Symbol(Symbol::PlusEqual)));
    assert!(matches!(t[2], Token::Symbol(Symbol::Minus)));
    let t = Tokenizer::tokenize("f(x)").expect("tokens");
    assert_eq!(t.len(), 4);
}

#[test]
fn comments_run_to_end_of_line() {
    let t = Tokenizer::tokenize("x // comment here\ny").expect("tokens");
    assert_eq!(names(&t), names(&Tokenizer::tokenize("x y").expect("tokens")));
    let t = Tokenizer::tokenize("// only a comment").expect("tokens");
    assert!(t.is_empty());
}

#[test]
fn keywords_are_recognised() {
    let t = Tokenizer::tokenize("invl main inj with push_back pop_front").expect("tokens");
    assert!(matches!(t[0], Token::Symbol(Symbol::Invl)));
    assert!(matches!(t[1], Token::Symbol(Symbol::Main)));
    assert!(matches!(t[2], Token::Symbol(Symbol::Inj)));
    assert!(matches!(t[3], Token::Symbol(Symbol::With)));
    assert!(matches!(t[4], Token::Symbol(Symbol::PushBack)));
    assert!(matches!(t[5], Token::Symbol(Symbol::PopFront)));
}

#[test]
fn names_may_hold_digits() {
    let t = Tokenizer::tokenize("x1 2y").expect("tokens");
    assert!(matches!(t[0], Token::Name(ref s) if s == "x1"));
    assert!(matches!(t[1], Token::Literal(2)));
    assert!(matches!(t[2], Token::Name(ref s) if s == "y"));
}

#[test]
fn largest_literal_fits_and_the_next_does_not() {
    let t = Tokenizer::tokenize("2147483647").expect("tokens");
    assert!(matches!(t[0], Token::Literal(2147483647)));
    assert!(matches!(Tokenizer::tokenize("2147483648"), Err(LexError::InvalidInt(ref s)) if s == "2147483648"));
}

#[test]
fn marks_split_into_known_marks() {
    assert!(matches!(Tokenizer::tokenize("a %% b"), Ok(ref t) if t.len() == 4));
    match Tokenizer::tokenize("x =! y") {
        Ok(t) => {
            assert!(matches!(t[1], Token::Symbol(Symbol::Equal)));
            assert!(matches!(t[2], Token::Symbol(Symbol::Exclamation)));
        }
        Err(e) => panic!("unexpected error {:?}", e),
    }
}

#[test]
fn run_that_spells_no_mark_is_rejected() {
    let mut m = Machine::new();
    m.word = "+a".chars().collect();
    assert!(matches!(m.process_word(), Err(LexError::InvalidSymbol(ref s)) if s == "+a"));
}

#[test]
fn machine_reads_words() {
    let mut m = Machine::new();
    assert!(m.get_type().is_none());
    m.word = "42".chars().collect();
    assert_eq!(m.get_type(), Some(TokenType::Number));
    assert!(m.process_word().is_ok());
    assert!(m.word.is_empty());
    m.word = "((".chars().collect();
    assert_eq!(m.get_type(), Some(TokenType::Symbol));
    assert!(m.process_word().is_ok());
    let t = m.take_tokens();
    assert_eq!(t.len(), 3);
    assert!(matches!(t[0], Token::Literal(42)));
}

#[test]
fn machine_rejects_mixed_number_word() {
    let mut m = Machine::new();
    m.word = "4x".chars().collect();
    assert!(matches!(m.process_word(), Err(LexError::InvalidInt(ref s)) if s == "4x"));
}

#[test]
fn keyword_lookup_and_symbol_characters() {
    let w: Vec<char> = "xdelocal".chars().collect();
    assert_eq!(keyword(&w, 1, 8), Some(Symbol::Delocal));
    assert_eq!(keyword(&w, 0, 8), None);
    assert!(!is_symbol(';'));
    assert!(is_symbol('!'));
    assert!(!is_symbol('a'));
}

#[test]
fn semicolon_starts_a_text_word() {
    let t = Tokenizer::tokenize(";x 1;").expect("tokens");
    assert!(matches!(t[0], Token::Name(ref s) if s == ";x"));
    assert!(matches!(t[1], Token::Literal(1)));
    assert!(matches!(t[2], Token::Symbol(Symbol::Semicolon)));
}

#[test]
fn unicode_spaces_separate_words() {
    let t = Tokenizer::tokenize("x\u{00A0}y\u{3000}z\u{000B}w").expect("tokens");
    assert_eq!(t.len(), 4);
    assert!(matches!(t[3], Token::Name(ref s) if s == "w"));
}
