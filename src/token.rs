//! Tokens: the parser's input.
use crate::ast::{BinOp, BinOpDetail, Direction};
use vstd::prelude::*;

verus! {

/// A keyword or a punctuation mark.
#[derive(Debug, Clone, Copy, PartialEq, Eq, Structural)]
pub enum Symbol {
    LBracket,
    RBracket,
    LParen,
    RParen,
    Int,
    List,
    Array,
    Const,
    Invl,
    Inj,
    Main,
    Plus,
    Minus,
    Caret,
    PlusEqual,
    MinusEqual,
    CaretEqual,
    Spaceship,
    Asterisk,
    Slash,
    Percent,
    Ampersand,
    VerticalBar,
    DoubleAmpersand,
    DoubleVerticalBar,
    LAngleBracket,
    RAngleBracket,
    Equal,
    ExclamationEqual,
    LAngleBracketEqual,
    RAngleBracketEqual,
    If,
    Then,
    Else,
    Fi,
    End,
    From,
    Do,
    Loop,
    Until,
    PushFront,
    PushBack,
    PopFront,
    PopBack,
    Local,
    Delocal,
    Call,
    Uncall,
    Skip,
    Empty,
    Top,
    Exclamation,
    Comma,
    Semicolon,
    Swap,
    Nil,
    Size,
    Print,
    With,
    For,
    In,
}

/// A token: a name, an integer literal, or a keyword or punctuation mark.
#[derive(Debug)]
pub enum Token {
    Name(String),
    Literal(i32),
    Symbol(Symbol),
}

/// The mathematical value of a token.
pub enum TokenV {
    Name(Seq<char>),
    Literal(i32),
    Symbol(Symbol),
}

impl View for Token {
    type V = TokenV;

    open spec fn view(&self) -> TokenV {
        match self {
            Token::Name(x) => TokenV::Name(x@),
            Token::Literal(n) => TokenV::Literal(*n),
            Token::Symbol(s) => TokenV::Symbol(*s),
        }
    }
}

impl Clone for Token {
    fn clone(&self) -> (r: Self)
        ensures
            r@ == self@,
    {
        match self {
            Token::Name(x) => Token::Name(x.clone()),
            Token::Literal(n) => Token::Literal(*n),
            Token::Symbol(s) => Token::Symbol(*s),
        }
    }
}

/// The binary operator that a mark stands for.
pub open spec fn binop_of(s: Symbol) -> Option<BinOp> {
    match s {
        Symbol::DoubleVerticalBar => Some(BinOp::LogicalOr),
        Symbol::DoubleAmpersand => Some(BinOp::LogicalAnd),
        Symbol::VerticalBar => Some(BinOp::BitwiseOr),
        Symbol::Caret => Some(BinOp::Xor),
        Symbol::Ampersand => Some(BinOp::BitwiseAnd),
        Symbol::Equal => Some(BinOp::Equal),
        Symbol::ExclamationEqual => Some(BinOp::NotEqual),
        Symbol::LAngleBracket => Some(BinOp::LessThan),
        Symbol::RAngleBracket => Some(BinOp::GreaterThan),
        Symbol::LAngleBracketEqual => Some(BinOp::LessEqual),
        Symbol::RAngleBracketEqual => Some(BinOp::GreaterEqual),
        Symbol::Plus => Some(BinOp::Add),
        Symbol::Minus => Some(BinOp::Sub),
        Symbol::Asterisk => Some(BinOp::Mul),
        Symbol::Slash => Some(BinOp::Div),
        Symbol::Percent => Some(BinOp::Remainder),
        _ => None,
    }
}

/// The mark of a binary operator.
pub open spec fn binop_symbol(op: BinOp) -> Symbol {
    match op {
        BinOp::LogicalOr => Symbol::DoubleVerticalBar,
        BinOp::LogicalAnd => Symbol::DoubleAmpersand,
        BinOp::BitwiseOr => Symbol::VerticalBar,
        BinOp::Xor => Symbol::Caret,
        BinOp::BitwiseAnd => Symbol::Ampersand,
        BinOp::Equal => Symbol::Equal,
        BinOp::NotEqual => Symbol::ExclamationEqual,
        BinOp::LessThan => Symbol::LAngleBracket,
        BinOp::GreaterThan => Symbol::RAngleBracket,
        BinOp::LessEqual => Symbol::LAngleBracketEqual,
        BinOp::GreaterEqual => Symbol::RAngleBracketEqual,
        BinOp::Add => Symbol::Plus,
        BinOp::Sub => Symbol::Minus,
        BinOp::Mul => Symbol::Asterisk,
        BinOp::Div => Symbol::Slash,
        BinOp::Remainder => Symbol::Percent,
    }
}

/// The precedence of a binary operator, from logical-or (lowest) to the
/// multiplicative operators (highest).
pub open spec fn prec(op: BinOp) -> u8 {
    match op {
        BinOp::LogicalOr => 0,
        BinOp::LogicalAnd => 1,
        BinOp::BitwiseOr => 2,
        BinOp::Xor => 3,
        BinOp::BitwiseAnd => 4,
        BinOp::Equal | BinOp::NotEqual => 5,
        BinOp::LessThan | BinOp::GreaterThan | BinOp::LessEqual | BinOp::GreaterEqual => 6,
        BinOp::Add | BinOp::Sub => 7,
        BinOp::Mul | BinOp::Div | BinOp::Remainder => 8,
    }
}

/// The binary operator that a token stands for, if any.
pub open spec fn token_binop(t: TokenV) -> Option<BinOp> {
    match t {
        TokenV::Symbol(s) => binop_of(s),
        _ => None,
    }
}

impl Token {
    /// The operator, precedence and associativity of a binary-operator
    /// token; all of them associate to the right.
    pub fn detail(&self) -> (r: Option<BinOpDetail>)
        ensures
            match token_binop(self@) {
                Some(op) => r matches Some(d) && d.op == op && d.prec == prec(op) && d.direction
                    == Direction::Right && binop_symbol(op) == self@->Symbol_0,
                None => r is None,
            },
    {
        let s = match self {
            Token::Symbol(s) => *s,
            _ => return None,
        };
        let (op, p): (BinOp, u8) = match s {
            Symbol::DoubleVerticalBar => (BinOp::LogicalOr, 0),
            Symbol::DoubleAmpersand => (BinOp::LogicalAnd, 1),
            Symbol::VerticalBar => (BinOp::BitwiseOr, 2),
            Symbol::Caret => (BinOp::Xor, 3),
            Symbol::Ampersand => (BinOp::BitwiseAnd, 4),
            Symbol::Equal => (BinOp::Equal, 5),
            Symbol::ExclamationEqual => (BinOp::NotEqual, 5),
            Symbol::LAngleBracket => (BinOp::LessThan, 6),
            Symbol::RAngleBracket => (BinOp::GreaterThan, 6),
            Symbol::LAngleBracketEqual => (BinOp::LessEqual, 6),
            Symbol::RAngleBracketEqual => (BinOp::GreaterEqual, 6),
            Symbol::Plus => (BinOp::Add, 7),
            Symbol::Minus => (BinOp::Sub, 7),
            Symbol::Asterisk => (BinOp::Mul, 8),
            Symbol::Slash => (BinOp::Div, 8),
            Symbol::Percent => (BinOp::Remainder, 8),
            _ => return None,
        };
        Some(BinOpDetail::new(op, p, Direction::Right))
    }
}

} // verus!
