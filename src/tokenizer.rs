//! Splits source text into tokens: names, integer literals, keywords and
//! punctuation. A `//` starts a comment that runs to the end of the line.
use crate::token::{Symbol, Token, TokenV};
use vstd::prelude::*;
use vstd::string::StrSliceExecFns;

verus! {

/// Why source text cannot be split into tokens.
#[derive(Debug)]
pub enum LexError {
    /// A run of punctuation characters that is no sequence of known marks.
    InvalidSymbol(String),
    /// A run of digits whose value does not fit in an `i32`.
    InvalidInt(String),
}

/// The class of a word, read from its first character.
#[derive(Debug, Clone, Copy, PartialEq, Eq, Structural)]
pub enum TokenType {
    Number,
    Symbol,
    Text,
}

pub open spec fn is_digit(c: char) -> bool {
    '0' <= c <= '9'
}

/// The characters that make up punctuation marks.
pub open spec fn is_symbol_char(c: char) -> bool {
    c == '[' || c == ']' || c == '(' || c == ')' || c == ',' || c == '+' || c == '-' || c == '^'
        || c == '*' || c == '/' || c == '%' || c == '&' || c == '|' || c == '<' || c == '>' || c
        == '=' || c == '!'
}

/// The characters that separate words: those with Unicode's White_Space
/// property, which `char::is_whitespace` tests.
pub open spec fn is_space(c: char) -> bool {
    c == ' ' || c == '\t' || c == '\n' || c == '\r' || c == '\u{000B}' || c == '\u{000C}' || c
        == '\u{0085}' || c == '\u{00A0}' || c == '\u{1680}' || ('\u{2000}' <= c && c <= '\u{200A}')
        || c == '\u{2028}' || c == '\u{2029}' || c == '\u{202F}' || c == '\u{205F}' || c
        == '\u{3000}'
}

/// Whether `c` separates words.
fn is_space_char(c: char) -> (r: bool)
    ensures
        r == is_space(c),
{
    c == ' ' || c == '\t' || c == '\n' || c == '\r' || c == '\u{000B}' || c == '\u{000C}' || c
        == '\u{0085}' || c == '\u{00A0}' || c == '\u{1680}' || ('\u{2000}' <= c && c <= '\u{200A}')
        || c == '\u{2028}' || c == '\u{2029}' || c == '\u{202F}' || c == '\u{205F}' || c
        == '\u{3000}'
}

pub open spec fn class_of(c: char) -> TokenType {
    if is_digit(c) {
        TokenType::Number
    } else if is_symbol_char(c) {
        TokenType::Symbol
    } else {
        TokenType::Text
    }
}

/// Whether `c` makes up punctuation marks.
pub fn is_symbol(c: char) -> (r: bool)
    ensures
        r == is_symbol_char(c),
{
    c == '[' || c == ']' || c == '(' || c == ')' || c == ',' || c == '+' || c == '-' || c == '^'
        || c == '*' || c == '/' || c == '%' || c == '&' || c == '|' || c == '<' || c == '>' || c
        == '=' || c == '!'
}

fn class(c: char) -> (r: TokenType)
    ensures
        r == class_of(c),
{
    if '0' <= c && c <= '9' {
        TokenType::Number
    } else if is_symbol(c) {
        TokenType::Symbol
    } else {
        TokenType::Text
    }
}

/// The keyword or mark that a whole word spells, if any.
pub open spec fn keyword_of(w: Seq<char>) -> Option<Symbol> {
    if w == "["@ { Some(Symbol::LBracket) }
    else if w == "]"@ { Some(Symbol::RBracket) }
    else if w == "("@ { Some(Symbol::LParen) }
    else if w == ")"@ { Some(Symbol::RParen) }
    else if w == "int"@ { Some(Symbol::Int) }
    else if w == "list"@ { Some(Symbol::List) }
    else if w == "array"@ { Some(Symbol::Array) }
    else if w == "const"@ { Some(Symbol::Const) }
    else if w == "invl"@ { Some(Symbol::Invl) }
    else if w == "inj"@ { Some(Symbol::Inj) }
    else if w == "main"@ { Some(Symbol::Main) }
    else if w == "+"@ { Some(Symbol::Plus) }
    else if w == "-"@ { Some(Symbol::Minus) }
    else if w == "^"@ { Some(Symbol::Caret) }
    else if w == "+="@ { Some(Symbol::PlusEqual) }
    else if w == "-="@ { Some(Symbol::MinusEqual) }
    else if w == "^="@ { Some(Symbol::CaretEqual) }
    else if w == "<=>"@ { Some(Symbol::Spaceship) }
    else if w == "*"@ { Some(Symbol::Asterisk) }
    else if w == "/"@ { Some(Symbol::Slash) }
    else if w == "%"@ { Some(Symbol::Percent) }
    else if w == "&"@ { Some(Symbol::Ampersand) }
    else if w == "|"@ { Some(Symbol::VerticalBar) }
    else if w == "&&"@ { Some(Symbol::DoubleAmpersand) }
    else if w == "||"@ { Some(Symbol::DoubleVerticalBar) }
    else if w == "<"@ { Some(Symbol::LAngleBracket) }
    else if w == ">"@ { Some(Symbol::RAngleBracket) }
    else if w == "="@ { Some(Symbol::Equal) }
    else if w == "!="@ { Some(Symbol::ExclamationEqual) }
    else if w == "<="@ { Some(Symbol::LAngleBracketEqual) }
    else if w == ">="@ { Some(Symbol::RAngleBracketEqual) }
    else if w == "if"@ { Some(Symbol::If) }
    else if w == "then"@ { Some(Symbol::Then) }
    else if w == "else"@ { Some(Symbol::Else) }
    else if w == "fi"@ { Some(Symbol::Fi) }
    else if w == "end"@ { Some(Symbol::End) }
    else if w == "from"@ { Some(Symbol::From) }
    else if w == "do"@ { Some(Symbol::Do) }
    else if w == "loop"@ { Some(Symbol::Loop) }
    else if w == "until"@ { Some(Symbol::Until) }
    else if w == "push_front"@ { Some(Symbol::PushFront) }
    else if w == "push_back"@ { Some(Symbol::PushBack) }
    else if w == "pop_front"@ { Some(Symbol::PopFront) }
    else if w == "pop_back"@ { Some(Symbol::PopBack) }
    else if w == "local"@ { Some(Symbol::Local) }
    else if w == "delocal"@ { Some(Symbol::Delocal) }
    else if w == "call"@ { Some(Symbol::Call) }
    else if w == "uncall"@ { Some(Symbol::Uncall) }
    else if w == "skip"@ { Some(Symbol::Skip) }
    else if w == "empty"@ { Some(Symbol::Empty) }
    else if w == "top"@ { Some(Symbol::Top) }
    else if w == "!"@ { Some(Symbol::Exclamation) }
    else if w == ","@ { Some(Symbol::Comma) }
    else if w == ";"@ { Some(Symbol::Semicolon) }
    else if w == "swap"@ { Some(Symbol::Swap) }
    else if w == "nil"@ { Some(Symbol::Nil) }
    else if w == "size"@ { Some(Symbol::Size) }
    else if w == "print"@ { Some(Symbol::Print) }
    else if w == "with"@ { Some(Symbol::With) }
    else if w == "for"@ { Some(Symbol::For) }
    else if w == "in"@ { Some(Symbol::In) }
    else { None }
}

/// Whether the characters of `w` from `from` up to `to` spell the literal `lit`.
fn spells(w: &Vec<char>, from: usize, to: usize, lit: &str) -> (r: bool)
    requires
        from <= to <= w@.len(),
    ensures
        r == (w@.subrange(from as int, to as int) == lit@),
{
    let n = lit.unicode_len();
    if to - from != n {
        return false;
    }
    let mut i: usize = 0;
    while i < n
        invariant
            n == lit@.len(),
            from <= to <= w@.len(),
            to - from == n,
            i <= n,
            forall|j: int| 0 <= j < i ==> w@[from + j] == lit@[j],
        decreases n - i,
    {
        if w[from + i] != lit.get_char(i) {
            assert(w@.subrange(from as int, to as int)[i as int] != lit@[i as int]);
            return false;
        }
        i = i + 1;
    }
    assert(w@.subrange(from as int, to as int) =~= lit@);
    true
}

/// The keyword or mark that the characters of `w` from `from` up to `to` spell, if any.
pub fn keyword(w: &Vec<char>, from: usize, to: usize) -> (r: Option<Symbol>)
    requires
        from <= to <= w@.len(),
    ensures
        r == keyword_of(w@.subrange(from as int, to as int)),
{
    if spells(w, from, to, "[") { return Some(Symbol::LBracket); }
    if spells(w, from, to, "]") { return Some(Symbol::RBracket); }
    if spells(w, from, to, "(") { return Some(Symbol::LParen); }
    if spells(w, from, to, ")") { return Some(Symbol::RParen); }
    if spells(w, from, to, "int") { return Some(Symbol::Int); }
    if spells(w, from, to, "list") { return Some(Symbol::List); }
    if spells(w, from, to, "array") { return Some(Symbol::Array); }
    if spells(w, from, to, "const") { return Some(Symbol::Const); }
    if spells(w, from, to, "invl") { return Some(Symbol::Invl); }
    if spells(w, from, to, "inj") { return Some(Symbol::Inj); }
    if spells(w, from, to, "main") { return Some(Symbol::Main); }
    if spells(w, from, to, "+") { return Some(Symbol::Plus); }
    if spells(w, from, to, "-") { return Some(Symbol::Minus); }
    if spells(w, from, to, "^") { return Some(Symbol::Caret); }
    if spells(w, from, to, "+=") { return Some(Symbol::PlusEqual); }
    if spells(w, from, to, "-=") { return Some(Symbol::MinusEqual); }
    if spells(w, from, to, "^=") { return Some(Symbol::CaretEqual); }
    if spells(w, from, to, "<=>") { return Some(Symbol::Spaceship); }
    if spells(w, from, to, "*") { return Some(Symbol::Asterisk); }
    if spells(w, from, to, "/") { return Some(Symbol::Slash); }
    if spells(w, from, to, "%") { return Some(Symbol::Percent); }
    if spells(w, from, to, "&") { return Some(Symbol::Ampersand); }
    if spells(w, from, to, "|") { return Some(Symbol::VerticalBar); }
    if spells(w, from, to, "&&") { return Some(Symbol::DoubleAmpersand); }
    if spells(w, from, to, "||") { return Some(Symbol::DoubleVerticalBar); }
    if spells(w, from, to, "<") { return Some(Symbol::LAngleBracket); }
    if spells(w, from, to, ">") { return Some(Symbol::RAngleBracket); }
    if spells(w, from, to, "=") { return Some(Symbol::Equal); }
    if spells(w, from, to, "!=") { return Some(Symbol::ExclamationEqual); }
    if spells(w, from, to, "<=") { return Some(Symbol::LAngleBracketEqual); }
    if spells(w, from, to, ">=") { return Some(Symbol::RAngleBracketEqual); }
    if spells(w, from, to, "if") { return Some(Symbol::If); }
    if spells(w, from, to, "then") { return Some(Symbol::Then); }
    if spells(w, from, to, "else") { return Some(Symbol::Else); }
    if spells(w, from, to, "fi") { return Some(Symbol::Fi); }
    if spells(w, from, to, "end") { return Some(Symbol::End); }
    if spells(w, from, to, "from") { return Some(Symbol::From); }
    if spells(w, from, to, "do") { return Some(Symbol::Do); }
    if spells(w, from, to, "loop") { return Some(Symbol::Loop); }
    if spells(w, from, to, "until") { return Some(Symbol::Until); }
    if spells(w, from, to, "push_front") { return Some(Symbol::PushFront); }
    if spells(w, from, to, "push_back") { return Some(Symbol::PushBack); }
    if spells(w, from, to, "pop_front") { return Some(Symbol::PopFront); }
    if spells(w, from, to, "pop_back") { return Some(Symbol::PopBack); }
    if spells(w, from, to, "local") { return Some(Symbol::Local); }
    if spells(w, from, to, "delocal") { return Some(Symbol::Delocal); }
    if spells(w, from, to, "call") { return Some(Symbol::Call); }
    if spells(w, from, to, "uncall") { return Some(Symbol::Uncall); }
    if spells(w, from, to, "skip") { return Some(Symbol::Skip); }
    if spells(w, from, to, "empty") { return Some(Symbol::Empty); }
    if spells(w, from, to, "top") { return Some(Symbol::Top); }
    if spells(w, from, to, "!") { return Some(Symbol::Exclamation); }
    if spells(w, from, to, ",") { return Some(Symbol::Comma); }
    if spells(w, from, to, ";") { return Some(Symbol::Semicolon); }
    if spells(w, from, to, "swap") { return Some(Symbol::Swap); }
    if spells(w, from, to, "nil") { return Some(Symbol::Nil); }
    if spells(w, from, to, "size") { return Some(Symbol::Size); }
    if spells(w, from, to, "print") { return Some(Symbol::Print); }
    if spells(w, from, to, "with") { return Some(Symbol::With); }
    if spells(w, from, to, "for") { return Some(Symbol::For); }
    if spells(w, from, to, "in") { return Some(Symbol::In); }
    None
}

// ---------------------------------------------------------------------
// Words to tokens
// ---------------------------------------------------------------------
/// The value of a run of decimal digits.
pub open spec fn digits_value(w: Seq<char>) -> int
    decreases w.len(),
{
    if w.len() == 0 {
        0
    } else {
        digits_value(w.drop_last()) * 10 + (w.last() as int - '0' as int)
    }
}

pub open spec fn all_digits(w: Seq<char>) -> bool {
    forall|i: int| 0 <= i < w.len() ==> is_digit(#[trigger] w[i])
}

/// The longest prefix of `w`, of at most `k` characters, that spells a
/// mark; 0 if there is none.
pub open spec fn longest_mark(w: Seq<char>, k: int) -> int
    decreases k,
{
    if k <= 0 {
        0
    } else if keyword_of(w.take(k)) is Some {
        k
    } else {
        longest_mark(w, k - 1)
    }
}

/// A run of punctuation split into marks, each the longest that fits,
/// from the left; `None` where some part spells no mark.
pub open spec fn mark_tokens(w: Seq<char>) -> Option<Seq<TokenV>>
    decreases w.len(),
{
    if w.len() == 0 {
        Some(Seq::empty())
    } else if keyword_of(w) is Some {
        Some(seq![TokenV::Symbol(keyword_of(w)->0)])
    } else {
        let k = longest_mark(w, w.len() - 1);
        if k <= 0 || k >= w.len() {
            None
        } else {
            match mark_tokens(w.skip(k)) {
                Some(rest) => Some(seq![TokenV::Symbol(keyword_of(w.take(k))->0)] + rest),
                None => None,
            }
        }
    }
}

/// The tokens of one word.
pub open spec fn word_tokens(w: Seq<char>) -> Option<Seq<TokenV>> {
    if w.len() == 0 {
        Some(Seq::empty())
    } else if keyword_of(w) is Some {
        Some(seq![TokenV::Symbol(keyword_of(w)->0)])
    } else {
        match class_of(w[0]) {
            TokenType::Number => if all_digits(w) && digits_value(w) <= i32::MAX {
                Some(seq![TokenV::Literal(digits_value(w) as i32)])
            } else {
                None
            },
            TokenType::Text => Some(seq![TokenV::Name(w)]),
            TokenType::Symbol => mark_tokens(w),
        }
    }
}

pub open spec fn tokens_view(ts: Seq<Token>) -> Seq<TokenV> {
    ts.map_values(|t: Token| t@)
}

/// Relies on `FromIterator<char>` for `String`: the string holds the characters in order.
#[verifier::external_body]
pub(crate) fn string_of(cs: &Vec<char>) -> (r: String)
    ensures
        r@ == cs@,
{
    cs.iter().collect()
}

/// The value of the digits of `w`, if they are all digits and the value fits.
fn parse_digits(w: &Vec<char>) -> (r: Option<i32>)
    ensures
        match r {
            Some(v) => all_digits(w@) && digits_value(w@) == v,
            None => !(all_digits(w@) && digits_value(w@) <= i32::MAX),
        },
{
    let mut v: i32 = 0;
    let mut i: usize = 0;
    while i < w.len()
        invariant
            i <= w@.len(),
            all_digits(w@.take(i as int)),
            v as int == digits_value(w@.take(i as int)),
            v >= 0,
        decreases w.len() - i,
    {
        let c = w[i];
        assert(w@.take(i + 1).drop_last() =~= w@.take(i as int));
        if !('0' <= c && c <= '9') {
            assert(!all_digits(w@));
            return None;
        }
        let d = (c as u32 - '0' as u32) as i32;
        if v > (i32::MAX - d) / 10 {
            proof {
                lemma_digits_grow(w@, i as int + 1);
            }
            return None;
        }
        v = v * 10 + d;
        i = i + 1;
    }
    assert(w@.take(i as int) =~= w@);
    Some(v)
}

proof fn lemma_digits_nonneg(w: Seq<char>)
    requires
        all_digits(w),
    ensures
        digits_value(w) >= 0,
    decreases w.len(),
{
    if w.len() > 0 {
        assert(all_digits(w.drop_last())) by {
            assert forall|i: int| 0 <= i < w.drop_last().len() implies is_digit(#[trigger] w.drop_last()[i]) by {
                assert(w.drop_last()[i] == w[i]);
            }
        }
        lemma_digits_nonneg(w.drop_last());
    }
}

/// Once a prefix of digits exceeds the bound, so does every longer run.
proof fn lemma_digits_grow(w: Seq<char>, k: int)
    requires
        0 < k <= w.len(),
        all_digits(w.take(k - 1)),
        is_digit(w[k - 1]),
        digits_value(w.take(k)) > i32::MAX,
    ensures
        !(all_digits(w) && digits_value(w) <= i32::MAX),
    decreases w.len() - k,
{
    if all_digits(w) {
        if k == w.len() {
            assert(w.take(k) =~= w);
        } else {
            assert(w.take(k + 1).drop_last() =~= w.take(k));
            assert(all_digits(w.take(k))) by {
                assert forall|i: int| 0 <= i < k implies is_digit(#[trigger] w.take(k)[i]) by {
                    assert(w.take(k)[i] == w[i]);
                }
            }
            assert(is_digit(w[k]));
            lemma_digits_grow(w, k + 1);
        }
    }
}

/// The longest mark that starts at `start` and ends before the end of `w`;
/// 0 if there is none.
fn longest_prefix_mark(w: &Vec<char>, start: usize) -> (r: usize)
    requires
        start < w@.len(),
    ensures
        r as int == longest_mark(w@.skip(start as int), w@.len() - start - 1),
        r < w@.len() - start,
        r > 0 ==> keyword_of(w@.subrange(start as int, start + r)) is Some,
{
    let ghost ws = w@.skip(start as int);
    let n = w.len();
    let mut j: usize = n - start - 1;
    while j > 0
        invariant
            ws == w@.skip(start as int),
            n == w@.len(),
            start < n,
            j <= n - start - 1,
            longest_mark(ws, ws.len() - 1) == longest_mark(ws, j as int),
        decreases j,
    {
        assert(w@.subrange(start as int, (start + j) as int) =~= ws.take(j as int));
        if keyword(w, start, start + j).is_some() {
            return j;
        }
        j = j - 1;
    }
    0
}

pub open spec fn prepend(acc: Seq<TokenV>, o: Option<Seq<TokenV>>) -> Option<Seq<TokenV>> {
    match o {
        Some(r) => Some(acc + r),
        None => None,
    }
}

/// A word being read, and the tokens read so far.
#[derive(Debug)]
pub struct Machine {
    pub word: Vec<char>,
    pub tokens: Vec<Token>,
}

impl Machine {
    /// No word and no tokens.
    pub fn new() -> (r: Machine)
        ensures
            r.word@.len() == 0,
            r.tokens@.len() == 0,
    {
        Machine { word: Vec::new(), tokens: Vec::new() }
    }

    /// The class of the word being read, from its first character.
    pub fn get_type(&self) -> (r: Option<TokenType>)
        ensures
            match r {
                Some(t) => self.word@.len() > 0 && t == class_of(self.word@[0]),
                None => self.word@.len() == 0,
            },
    {
        if self.word.len() == 0 {
            None
        } else {
            Some(class(self.word[0]))
        }
    }

    /// The tokens read.
    pub fn take_tokens(self) -> (r: Vec<Token>)
        ensures
            r@ == self.tokens@,
    {
        self.tokens
    }

    fn push_and_clear(&mut self, t: Token)
        ensures
            final(self).word@.len() == 0,
            final(self).tokens@ == old(self).tokens@.push(t),
    {
        self.tokens.push(t);
        self.word.clear();
    }

    /// Turns the word being read into tokens and empties it.
    pub fn process_word(&mut self) -> (r: Result<(), LexError>)
        ensures
            match word_tokens(old(self).word@) {
                Some(ts) => r is Ok && final(self).word@.len() == 0 && tokens_view(
                    final(self).tokens@,
                ) == tokens_view(old(self).tokens@) + ts,
                None => r is Err,
            },
    {
        let ghost base = tokens_view(self.tokens@);
        let n = self.word.len();
        if n == 0 {
            assert(tokens_view(self.tokens@) =~= base + Seq::<TokenV>::empty());
            return Ok(());
        }
        assert(self.word@.subrange(0, n as int) =~= self.word@);
        if let Some(s) = keyword(&self.word, 0, n) {
            self.push_and_clear(Token::Symbol(s));
            assert(tokens_view(self.tokens@) =~= base + seq![TokenV::Symbol(s)]);
            return Ok(());
        }
        match class(self.word[0]) {
            TokenType::Number => match parse_digits(&self.word) {
                Some(v) => {
                    self.push_and_clear(Token::Literal(v));
                    assert(tokens_view(self.tokens@) =~= base + seq![TokenV::Literal(v)]);
                    Ok(())
                },
                None => Err(LexError::InvalidInt(string_of(&self.word))),
            },
            TokenType::Text => {
                let name = string_of(&self.word);
                self.push_and_clear(Token::Name(name));
                assert(tokens_view(self.tokens@) =~= base + seq![TokenV::Name(name@)]);
                Ok(())
            },
            TokenType::Symbol => self.split_marks(),
        }
    }

    /// Splits a run of punctuation into marks, each the longest that fits.
    fn split_marks(&mut self) -> (r: Result<(), LexError>)
        requires
            old(self).word@.len() > 0,
        ensures
            match mark_tokens(old(self).word@) {
                Some(ts) => r is Ok && final(self).word@.len() == 0 && tokens_view(
                    final(self).tokens@,
                ) == tokens_view(old(self).tokens@) + ts,
                None => r is Err,
            },
    {
        let ghost base = tokens_view(self.tokens@);
        let ghost w = self.word@;
        let n = self.word.len();
        let mut start: usize = 0;
        assert(w.skip(0) =~= w);
        assert(tokens_view(self.tokens@).subrange(0, base.len() as int) =~= base);
        assert(tokens_view(self.tokens@).subrange(base.len() as int, base.len() as int) =~= Seq::<TokenV>::empty());
        assert(mark_tokens(w) matches Some(r) ==> Seq::<TokenV>::empty() + r =~= r);
        loop
            invariant
                self.word@ == w,
                w == old(self).word@,
                base == tokens_view(old(self).tokens@),
                n == w.len(),
                start < n,
                tokens_view(self.tokens@).len() >= base.len(),
                tokens_view(self.tokens@).subrange(0, base.len() as int) == base,
                mark_tokens(w) == prepend(
                    tokens_view(self.tokens@).subrange(base.len() as int, tokens_view(self.tokens@).len() as int),
                    mark_tokens(w.skip(start as int)),
                ),
            decreases n - start,
        {
            let ghost ws = w.skip(start as int);
            let ghost acc = tokens_view(self.tokens@).subrange(
                base.len() as int,
                tokens_view(self.tokens@).len() as int,
            );
            assert(w.subrange(start as int, n as int) =~= ws);
            if let Some(s) = keyword(&self.word, start, n) {
                let ghost before = self.tokens@;
                self.tokens.push(Token::Symbol(s));
                self.word.clear();
                proof {
                    assert(tokens_view(self.tokens@) =~= tokens_view(before).push(TokenV::Symbol(s)));
                    assert(tokens_view(self.tokens@) =~= base + (acc + seq![TokenV::Symbol(s)]));
                }
                return Ok(());
            }
            let j = longest_prefix_mark(&self.word, start);
            if j == 0 {
                return Err(LexError::InvalidSymbol(string_of(&self.word)));
            }
            assert(w.subrange(start as int, (start + j) as int) =~= ws.take(j as int));
            let s = match keyword(&self.word, start, start + j) {
                Some(s) => s,
                None => {
                    return Err(LexError::InvalidSymbol(string_of(&self.word)));
                },
            };
            let ghost before = self.tokens@;
            self.tokens.push(Token::Symbol(s));
            proof {
                assert(ws.skip(j as int) =~= w.skip(start + j));
                assert(tokens_view(self.tokens@) =~= tokens_view(before).push(TokenV::Symbol(s)));
                assert(tokens_view(self.tokens@).subrange(base.len() as int, tokens_view(self.tokens@).len() as int)
                    =~= acc + seq![TokenV::Symbol(s)]);
                assert(tokens_view(self.tokens@).subrange(0, base.len() as int) =~= tokens_view(before).subrange(0, base.len() as int));
            }
            start = start + j;
        }
    }
}

// ---------------------------------------------------------------------
// Source text to tokens
// ---------------------------------------------------------------------
/// How many characters precede the end of the first line of `cs`.
pub open spec fn line_rest(cs: Seq<char>) -> nat
    decreases cs.len(),
{
    if cs.len() == 0 || cs[0] == '\n' {
        0
    } else {
        1 + line_rest(cs.skip(1))
    }
}

/// The text without its comments: each `//` up to the end of its line is dropped.
pub open spec fn strip_comments(cs: Seq<char>) -> Seq<char>
    decreases cs.len(),
{
    if cs.len() == 0 {
        Seq::empty()
    } else if cs.len() >= 2 && cs[0] == '/' && cs[1] == '/' {
        let k = line_rest(cs);
        if 1 <= k <= cs.len() {
            strip_comments(cs.skip(k as int))
        } else {
            Seq::empty()
        }
    } else {
        seq![cs[0]] + strip_comments(cs.skip(1))
    }
}

/// Whether the character `c` ends the word `w` before it is added.
pub open spec fn breaks(w: Seq<char>, c: char) -> bool {
    w.len() > 0 && match class_of(w[0]) {
        TokenType::Number => !is_digit(c),
        TokenType::Symbol => !is_symbol_char(c),
        TokenType::Text => is_symbol_char(c),
    }
}

/// The word being read and the tokens read after the characters `cs`.
pub open spec fn lex_state(cs: Seq<char>) -> Option<(Seq<char>, Seq<TokenV>)>
    decreases cs.len(),
{
    if cs.len() == 0 {
        Some((Seq::empty(), Seq::empty()))
    } else {
        match lex_state(cs.drop_last()) {
            None => None,
            Some((w, ts)) => {
                let c = cs.last();
                if is_space(c) {
                    match word_tokens(w) {
                        Some(t) => Some((Seq::empty(), ts + t)),
                        None => None,
                    }
                } else if breaks(w, c) {
                    match word_tokens(w) {
                        Some(t) => Some((seq![c], ts + t)),
                        None => None,
                    }
                } else {
                    Some((w.push(c), ts))
                }
            },
        }
    }
}

/// The tokens of text without comments.
pub open spec fn lex(cs: Seq<char>) -> Option<Seq<TokenV>> {
    match lex_state(cs) {
        Some((w, ts)) => match word_tokens(w) {
            Some(t) => Some(ts + t),
            None => None,
        },
        None => None,
    }
}

proof fn lemma_lex_state_none(cs: Seq<char>, k: int)
    requires
        0 <= k <= cs.len(),
        lex_state(cs.take(k)) is None,
    ensures
        lex_state(cs) is None,
    decreases cs.len(),
{
    if k == cs.len() {
        assert(cs.take(k) =~= cs);
    } else {
        assert(cs.drop_last().take(k) =~= cs.take(k));
        lemma_lex_state_none(cs.drop_last(), k);
    }
}

/// Relies on `str::chars`: the characters of the text, in order. Kept as
/// a trusted call because it reads the text once; the verified alternative
/// through vstd's `get_char` decodes from the start for every character,
/// which is quadratic in the length of a source file.
#[verifier::external_body]
fn chars_of(s: &str) -> (r: Vec<char>)
    ensures
        r@ == s@,
{
    s.chars().collect()
}

/// The text `cs` without its comments.
fn without_comments(cs: &Vec<char>) -> (r: Vec<char>)
    ensures
        r@ == strip_comments(cs@),
{
    let n = cs.len();
    let mut out: Vec<char> = Vec::new();
    let mut i: usize = 0;
    assert(cs@.skip(0) =~= cs@);
    while i < n
        invariant
            n == cs@.len(),
            i <= n,
            strip_comments(cs@) == out@ + strip_comments(cs@.skip(i as int)),
        decreases n - i,
    {
        let ghost rest = cs@.skip(i as int);
        if i + 1 < n && cs[i] == '/' && cs[i + 1] == '/' {
            let mut j: usize = i;
            while j < n && cs[j] != '\n'
                invariant
                    n == cs@.len(),
                    i <= j <= n,
                    rest == cs@.skip(i as int),
                    line_rest(rest) == (j - i) + line_rest(cs@.skip(j as int)),
                decreases n - j,
            {
                assert(cs@.skip(j as int).skip(1) =~= cs@.skip(j + 1));
                j = j + 1;
            }
            assert(line_rest(cs@.skip(j as int)) == 0);
            assert(rest[0] == '/' && rest[1] == '/');
            assert(rest.skip(j - i) =~= cs@.skip(j as int));
            i = j;
        } else {
            let ghost before = out@;
            out.push(cs[i]);
            assert(rest.skip(1) =~= cs@.skip(i + 1));
            assert(out@ + strip_comments(cs@.skip(i + 1)) =~= before + (seq![rest[0]] + strip_comments(rest.skip(1))));
            i = i + 1;
        }
    }
    assert(cs@.skip(i as int) =~= Seq::<char>::empty());
    assert(out@ + Seq::<char>::empty() =~= out@);
    out
}

/// Splits source text into tokens.
#[derive(Debug)]
pub struct Tokenizer {
    source: Vec<char>,
}

impl Tokenizer {
    /// The tokens of `input`, or why it has none.
    pub fn tokenize(input: &str) -> (r: Result<Vec<Token>, LexError>)
        ensures
            match lex(strip_comments(input@)) {
                Some(ts) => r matches Ok(v) && tokens_view(v@) == ts,
                None => r is Err,
            },
    {
        let t = Tokenizer::new(input);
        let m = t.tokenize_impl(Machine::new())?;
        Ok(m.take_tokens())
    }

    fn new(input: &str) -> (r: Self)
        ensures
            r.source@ == strip_comments(input@),
    {
        Tokenizer { source: without_comments(&chars_of(input)) }
    }

    /// Feeds the source to `machine`, character by character, and reads the last word.
    fn tokenize_impl(&self, machine: Machine) -> (r: Result<Machine, LexError>)
        requires
            machine.word@.len() == 0,
            machine.tokens@.len() == 0,
        ensures
            match lex(self.source@) {
                Some(ts) => r matches Ok(m) && tokens_view(m.tokens@) == ts,
                None => r is Err,
            },
    {
        let mut machine = machine;
        let cs = &self.source;
        let n = cs.len();
        let mut i: usize = 0;
        assert(cs@.take(0) =~= Seq::<char>::empty());
        assert(tokens_view(machine.tokens@) =~= Seq::<TokenV>::empty());
        while i < n
            invariant
                n == cs@.len(),
                cs@ == self.source@,
                i <= n,
                lex_state(cs@.take(i as int)) == Some((machine.word@, tokens_view(machine.tokens@))),
            decreases n - i,
        {
            let c = cs[i];
            assert(cs@.take(i + 1).drop_last() =~= cs@.take(i as int));
            assert(cs@.take(i + 1).last() == c);
            let ghost w = machine.word@;
            let ghost ts = tokens_view(machine.tokens@);
            if is_space_char(c) {
                if let Err(e) = machine.process_word() {
                    proof {
                        assert(word_tokens(w) is None);
                        assert(is_space(c));
                        assert(lex_state(cs@.take(i + 1)) is None);
                        lemma_lex_state_none(cs@, i + 1);
                        assert(lex_state(self.source@) is None);
                        assert(lex(self.source@) is None);
                    }
                    return Err(e);
                }
            } else {
                let push_token = match machine.get_type() {
                    Some(TokenType::Number) => !('0' <= c && c <= '9'),
                    Some(TokenType::Symbol) => !is_symbol(c),
                    Some(TokenType::Text) => is_symbol(c),
                    None => false,
                };
                if push_token {
                    if let Err(e) = machine.process_word() {
                        proof {
                            assert(breaks(w, c));
                            assert(lex_state(cs@.take(i + 1)) is None);
                            lemma_lex_state_none(cs@, i + 1);
                            assert(lex(self.source@) is None);
                        }
                        return Err(e);
                    }
                }
                machine.word.push(c);
                proof {
                    if push_token {
                        assert(machine.word@ =~= seq![c]);
                    }
                }
            }
            i = i + 1;
        }
        assert(cs@.take(i as int) =~= cs@);
        machine.process_word()?;
        Ok(machine)
    }
}

} // verus!
