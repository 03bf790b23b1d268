use vstd::prelude::*;
use crate::error::{Error, IntErrorKind, SpecError};
use crate::op::Op;
use crate::text::{chars_of, push_char};

verus! {

broadcast use vstd::string::group_string_axioms;

/// A lexical token. A floating-point literal is held as its source text.
#[derive(Debug, PartialEq, Clone)]
pub enum Token {
    LCurly,
    RCurly,
    Comma,
    SemiColon,
    EqualEqual,
    Op(Op),
    DotDot,
    Let,
    Ident(String),
    Str(String),
    Int(i64),
    Float(String),
    // Consumed tokens should never be generated.
    // They are an artifact of consuming a token, leaving
    // something behind
    Consumed,
    Eof,
}

/// The model of a token.
pub enum SpecToken {
    LCurly,
    RCurly,
    Comma,
    SemiColon,
    EqualEqual,
    Op(Op),
    DotDot,
    Let,
    Ident(Seq<char>),
    Str(Seq<char>),
    Int(i64),
    Float(Seq<char>),
    Consumed,
    Eof,
}

impl View for Token {
    type V = SpecToken;

    open spec fn view(&self) -> SpecToken {
        match self {
            Token::LCurly => SpecToken::LCurly,
            Token::RCurly => SpecToken::RCurly,
            Token::Comma => SpecToken::Comma,
            Token::SemiColon => SpecToken::SemiColon,
            Token::EqualEqual => SpecToken::EqualEqual,
            Token::Op(op) => SpecToken::Op(*op),
            Token::DotDot => SpecToken::DotDot,
            Token::Let => SpecToken::Let,
            Token::Ident(s) => SpecToken::Ident(s@),
            Token::Str(s) => SpecToken::Str(s@),
            Token::Int(i) => SpecToken::Int(*i),
            Token::Float(s) => SpecToken::Float(s@),
            Token::Consumed => SpecToken::Consumed,
            Token::Eof => SpecToken::Eof,
        }
    }
}

impl Token {
    /// Takes the token out, leaving `Consumed` in its place.
    pub fn consume(&mut self) -> (r: Self)
        ensures
            r == *old(self),
            *final(self) == Token::Consumed,
    {
        let mut consumed = Self::Consumed;
        std::mem::swap(&mut consumed, self);
        consumed
    }

    /// A copy of the token.
    pub fn duplicate(&self) -> (r: Self)
        ensures
            r@ == self@,
    {
        match self {
            Token::LCurly => Token::LCurly,
            Token::RCurly => Token::RCurly,
            Token::Comma => Token::Comma,
            Token::SemiColon => Token::SemiColon,
            Token::EqualEqual => Token::EqualEqual,
            Token::Op(op) => Token::Op(*op),
            Token::DotDot => Token::DotDot,
            Token::Let => Token::Let,
            Token::Ident(s) => Token::Ident(s.clone()),
            Token::Str(s) => Token::Str(s.clone()),
            Token::Int(i) => Token::Int(*i),
            Token::Float(s) => Token::Float(s.clone()),
            Token::Consumed => Token::Consumed,
            Token::Eof => Token::Eof,
        }
    }
}

/// The models of a sequence of tokens.
pub open spec fn token_models(s: Seq<Token>) -> Seq<SpecToken> {
    s.map_values(|t: Token| t@)
}

/// A stream of tokens with a read position.
#[derive(Debug)]
pub struct Tokens {
    inner: Vec<Token>,
    index: usize,
}

impl Tokens {
    #[verifier::type_invariant]
    spec fn wf(&self) -> bool {
        self.index <= self.inner@.len()
    }

    /// The tokens of the stream.
    pub closed spec fn items(&self) -> Seq<SpecToken> {
        token_models(self.inner@)
    }

    /// The read position.
    pub closed spec fn pos(&self) -> int {
        self.index as int
    }

    pub fn empty() -> (r: Self)
        ensures
            r.items() == Seq::<SpecToken>::empty(),
            r.pos() == 0,
    {
        Self { inner: vec![], index: 0 }
    }

    /// Moves past the current token, if there is one.
    pub fn consume(&mut self)
        ensures
            final(self).items() == old(self).items(),
            final(self).pos() == if old(self).pos() == old(self).items().len() {
                old(self).pos()
            } else {
                old(self).pos() + 1
            },
    {
        proof { use_type_invariant(&*self); }
        if self.index == self.inner.len() {
            return;
        }
        self.index = self.index + 1;
    }

    /// Returns the current token and moves past it, leaving `Consumed` in
    /// its place; `Eof` at the end, where nothing changes.
    pub fn take(&mut self) -> (r: Token)
        ensures
            r@ == peek_at(old(self).items(), old(self).pos()),
            final(self).items() == if old(self).pos() == old(self).items().len() {
                old(self).items()
            } else {
                old(self).items().update(old(self).pos(), SpecToken::Consumed)
            },
            final(self).pos() == if old(self).pos() == old(self).items().len() {
                old(self).pos()
            } else {
                old(self).pos() + 1
            },
    {
        proof { use_type_invariant(&*self); }
        if self.index == self.inner.len() {
            return Token::Eof;
        }
        self.take_current()
    }

    /// Moves past the current token and takes it out, leaving `Consumed`.
    fn take_current(&mut self) -> (r: Token)
        requires
            old(self).pos() < old(self).items().len(),
        ensures
            r@ == old(self).items()[old(self).pos()],
            final(self).items() == old(self).items().update(old(self).pos(), SpecToken::Consumed),
            final(self).pos() == old(self).pos() + 1,
    {
        proof { use_type_invariant(&*self); }
        let i = self.index;
        let n = self.inner.len();
        assert(token_models(self.inner@).len() == n);
        let next = i + 1;
        let mut t = Token::Consumed;
        std::mem::swap(&mut t, &mut self.inner[i]);
        self.index = next;
        proof {
            assert(token_models(self.inner@) =~= token_models(old(self).inner@).update(i as int, SpecToken::Consumed));
        }
        t
    }

    /// A stream over `tokens`, read from the start.
    fn from_tokens(tokens: Vec<Token>) -> (r: Self)
        ensures
            r.items() == token_models(tokens@),
            r.pos() == 0,
    {
        Self { inner: tokens, index: 0 }
    }

    /// The current token; `Eof` at the end.
    pub fn peek(&self) -> (r: &Token)
        ensures
            r@ == peek_at(self.items(), self.pos()),
            0 <= self.pos() <= self.items().len(),
    {
        proof { use_type_invariant(self); }
        if self.index == self.inner.len() {
            return &Token::Eof;
        }
        &self.inner[self.index]
    }

    /// Takes the text of the current token, which is an identifier or a string.
    pub fn take_string(&mut self) -> (r: String)
        requires
            old(self).pos() < old(self).items().len(),
            old(self).items()[old(self).pos()] is Ident || old(self).items()[old(self).pos()] is Str,
        ensures
            final(self).items() == old(self).items().update(old(self).pos(), SpecToken::Consumed),
            final(self).pos() == old(self).pos() + 1,
            old(self).items()[old(self).pos()] matches SpecToken::Ident(s) ==> r@ == s,
            old(self).items()[old(self).pos()] matches SpecToken::Str(s) ==> r@ == s,
    {
        match self.take_current() {
            Token::Ident(ident) => ident,
            Token::Str(s) => s,
            _ => { assert(false); String::new() },
        }
    }

    /// Takes the value of the current token, which is an integer.
    pub fn take_int(&mut self) -> (r: i64)
        requires
            old(self).pos() < old(self).items().len(),
            old(self).items()[old(self).pos()] is Int,
        ensures
            final(self).items() == old(self).items().update(old(self).pos(), SpecToken::Consumed),
            final(self).pos() == old(self).pos() + 1,
            old(self).items()[old(self).pos()] == SpecToken::Int(r),
    {
        match self.take_current() {
            Token::Int(v) => v,
            _ => { assert(false); 0 },
        }
    }

    /// Takes the text of the current token, which is a floating-point literal.
    pub fn take_float(&mut self) -> (r: String)
        requires
            old(self).pos() < old(self).items().len(),
            old(self).items()[old(self).pos()] is Float,
        ensures
            final(self).items() == old(self).items().update(old(self).pos(), SpecToken::Consumed),
            final(self).pos() == old(self).pos() + 1,
            old(self).items()[old(self).pos()] == SpecToken::Float(r@),
    {
        match self.take_current() {
            Token::Float(f) => f,
            _ => { assert(false); String::new() },
        }
    }
}

/// The token at position `p`, or `Eof` past the end.
pub open spec fn peek_at(items: Seq<SpecToken>, p: int) -> SpecToken {
    if 0 <= p < items.len() { items[p] } else { SpecToken::Eof }
}

// ----- the lexical grammar -----

pub open spec fn is_alpha(c: char) -> bool {
    ('a' <= c && c <= 'z') || ('A' <= c && c <= 'Z')
}

pub open spec fn is_ident_char(c: char) -> bool {
    is_alpha(c) || c == '_'
}

pub open spec fn is_digit(c: char) -> bool {
    '0' <= c && c <= '9'
}

/// The end of the run of identifier characters that starts at `i`.
pub open spec fn ident_end(cs: Seq<char>, i: int) -> int
    decreases cs.len() - i,
{
    if 0 <= i < cs.len() && is_ident_char(cs[i]) {
        ident_end(cs, i + 1)
    } else {
        i
    }
}

/// The end of the number that continues at `i`, and whether it holds a dot:
/// digits, and at most one `.`.
pub open spec fn number_end(cs: Seq<char>, i: int, dot: bool) -> (int, bool)
    decreases cs.len() - i,
{
    if 0 <= i < cs.len() && is_digit(cs[i]) {
        number_end(cs, i + 1, dot)
    } else if 0 <= i < cs.len() && cs[i] == '.' && !dot {
        number_end(cs, i + 1, true)
    } else {
        (i, dot)
    }
}

/// The position of the first `"` at or after `i`.
pub open spec fn closing_quote(cs: Seq<char>, i: int) -> Option<int>
    decreases cs.len() - i,
{
    if !(0 <= i < cs.len()) {
        None
    } else if cs[i] == '"' {
        Some(i)
    } else {
        closing_quote(cs, i + 1)
    }
}

/// The value of a string of decimal digits.
pub open spec fn decimal_value(s: Seq<char>) -> int
    decreases s.len(),
{
    if s.len() == 0 {
        0
    } else {
        decimal_value(s.drop_last()) * 10 + (s.last() as int - '0' as int)
    }
}

/// The token for a word: the keyword `let`, or an identifier.
pub open spec fn word_token(w: Seq<char>) -> SpecToken {
    if w == seq!['l', 'e', 't'] { SpecToken::Let } else { SpecToken::Ident(w) }
}

/// The token for a number literal, or the error for an integer that is too large.
pub open spec fn number_token(text: Seq<char>, is_float: bool) -> Result<SpecToken, SpecError> {
    if is_float {
        Ok(SpecToken::Float(text))
    } else if decimal_value(text) <= i64::MAX {
        Ok(SpecToken::Int(decimal_value(text) as i64))
    } else {
        Err(SpecError::IntError(IntErrorKind::PosOverflow))
    }
}

/// The token for a one-character symbol, if `c` is one.
pub open spec fn symbol_token(c: char) -> Option<SpecToken> {
    if c == '=' { Some(SpecToken::Op(Op::Equal)) }
    else if c == ',' { Some(SpecToken::Comma) }
    else if c == '(' { Some(SpecToken::Op(Op::LParen)) }
    else if c == ')' { Some(SpecToken::Op(Op::RParen)) }
    else if c == '[' { Some(SpecToken::Op(Op::LBracket)) }
    else if c == ']' { Some(SpecToken::Op(Op::RBracket)) }
    else if c == '+' { Some(SpecToken::Op(Op::Plus)) }
    else if c == '-' { Some(SpecToken::Op(Op::Minus)) }
    else if c == '*' { Some(SpecToken::Op(Op::Mul)) }
    else if c == '/' { Some(SpecToken::Op(Op::Div)) }
    else if c == ';' { Some(SpecToken::SemiColon) }
    else if c == '{' { Some(SpecToken::LCurly) }
    else if c == '}' { Some(SpecToken::RCurly) }
    else { None }
}

/// Lexes `cs` from position `i`, after the tokens `acc`.
/// A `.` followed by `.` gives `DotDot`, and `=` followed by `=` gives
/// `EqualEqual`; in both cases only the first character is used up.
/// Characters that start no token are skipped.
pub open spec fn lex_from(cs: Seq<char>, i: int, acc: Seq<SpecToken>) -> Result<Seq<SpecToken>, SpecError>
    decreases cs.len() - i,
{
    if !(0 <= i < cs.len()) {
        Ok(acc)
    } else {
        let c = cs[i];
        let next_same = i + 1 < cs.len() && cs[i + 1] == c;
        if c == '.' && next_same {
            lex_from(cs, i + 1, acc.push(SpecToken::DotDot))
        } else if c == '=' && next_same {
            lex_from(cs, i + 1, acc.push(SpecToken::EqualEqual))
        } else if symbol_token(c) is Some {
            lex_from(cs, i + 1, acc.push(symbol_token(c)->0))
        } else if is_alpha(c) {
            let e = ident_end(cs, i + 1);
            if e <= i || e > cs.len() { Ok(acc) } else {
                lex_from(cs, e, acc.push(word_token(cs.subrange(i as int, e))))
            }
        } else if is_digit(c) {
            let (e, is_float) = number_end(cs, i + 1, false);
            if e <= i || e > cs.len() { Ok(acc) } else {
                match number_token(cs.subrange(i as int, e), is_float) {
                    Ok(t) => lex_from(cs, e, acc.push(t)),
                    Err(err) => Err(err),
                }
            }
        } else if c == '"' {
            match closing_quote(cs, i + 1) {
                Some(j) => if j <= i || j >= cs.len() { Ok(acc) } else {
                    lex_from(cs, j + 1, acc.push(SpecToken::Str(cs.subrange(i + 1, j))))
                },
                None => Err(SpecError::UnterminatedString),
            }
        } else {
            lex_from(cs, i + 1, acc)
        }
    }
}

/// The tokens of a source text.
pub open spec fn spec_lex(src: Seq<char>) -> Result<Seq<SpecToken>, SpecError> {
    lex_from(src, 0, Seq::empty())
}

} // verus!

verus! {

/// Lexes a source text into a token stream.
pub fn lex(src: &str) -> (r: Result<Tokens, Error>)
    ensures
        match spec_lex(src@) {
            Ok(ts) => r matches Ok(tokens) && tokens.items() == ts && tokens.pos() == 0,
            Err(e) => r matches Err(err) && err@ == e,
        },
{
    let mut lexer = Lexer::new(src);
    lexer.lex()
}

struct Lexer {
    chars: Vec<char>,
    pos: usize,
    tokens: Vec<Token>,
}

impl Lexer {
    fn new(src: &str) -> (r: Self)
        ensures
            r.chars@ == src@,
            r.pos == 0,
            r.tokens@.len() == 0,
    {
        Self { chars: chars_of(src), pos: 0, tokens: Vec::new() }
    }

    fn consume(&mut self)
        requires
            old(self).pos < old(self).chars@.len(),
        ensures
            final(self).pos == old(self).pos + 1,
            final(self).chars@ == old(self).chars@,
            final(self).tokens@ == old(self).tokens@,
    {
        let n = self.chars.len();
        self.pos = self.pos + 1;
    }

    fn push(&mut self, token: Token)
        ensures
            final(self).pos == old(self).pos,
            final(self).chars@ == old(self).chars@,
            token_models(final(self).tokens@) == token_models(old(self).tokens@).push(token@),
    {
        self.tokens.push(token);
        assert(token_models(self.tokens@) =~= token_models(old(self).tokens@).push(token@));
    }

    fn lex(&mut self) -> (r: Result<Tokens, Error>)
        requires
            old(self).pos == 0,
            old(self).tokens@.len() == 0,
        ensures
            match spec_lex(old(self).chars@) {
                Ok(ts) => r matches Ok(tokens) && tokens.items() == ts && tokens.pos() == 0,
                Err(e) => r matches Err(err) && err@ == e,
            },
    {
        let ghost cs = self.chars@;
        assert(token_models(self.tokens@) =~= Seq::<SpecToken>::empty());
        loop
            invariant
                self.chars@ == cs,
                cs == old(self).chars@,
                self.pos <= cs.len(),
                lex_from(cs, self.pos as int, token_models(self.tokens@)) == spec_lex(cs),
            decreases cs.len() - self.pos,
        {
            let len = self.chars.len();
            if self.pos == len {
                assert(spec_lex(cs) == Ok::<Seq<SpecToken>, SpecError>(token_models(self.tokens@)));
                let mut tokens = Vec::new();
                std::mem::swap(&mut tokens, &mut self.tokens);
                return Ok(Tokens::from_tokens(tokens));
            }
            let c = self.chars[self.pos];
            let i = self.pos;
            proof {
                lemma_ident_end(cs, i + 1);
                lemma_number_end(cs, i + 1, false);
                lemma_closing_quote(cs, i + 1);
            }
            self.consume();
            let next_same = self.pos < len && self.chars[self.pos] == c;
            let ghost acc = token_models(self.tokens@);
            if c == '.' && next_same {
                self.push(Token::DotDot);
            } else if c == '=' && next_same {
                self.push(Token::EqualEqual);
            } else if let Some(t) = symbol(c) {
                self.push(t);
            } else if ('a' <= c && c <= 'z') || ('A' <= c && c <= 'Z') {
                self.ident(c);
            } else if '0' <= c && c <= '9' {
                let r = self.number(c);
                if let Err(e) = r {
                    return Err(e);
                }
            } else if c == '"' {
                let r = self.string();
                if let Err(e) = r {
                    return Err(e);
                }
            }
        }
    }

    /// Reads the rest of a word whose first character `start` was just used up.
    fn ident(&mut self, start: char)
        requires
            1 <= old(self).pos <= old(self).chars@.len(),
            old(self).chars@[old(self).pos - 1] == start,
            is_alpha(start),
        ensures
            final(self).chars@ == old(self).chars@,
            final(self).pos == ident_end(old(self).chars@, old(self).pos as int),
            token_models(final(self).tokens@) == token_models(old(self).tokens@).push(
                word_token(old(self).chars@.subrange(old(self).pos - 1, final(self).pos as int)),
            ),
    {
        let ghost cs = self.chars@;
        let i = self.pos - 1;
        let mut buffer = String::new();
        push_char(&mut buffer, start);
        let len = self.chars.len();
        while self.pos < len && (('a' <= self.chars[self.pos] && self.chars[self.pos] <= 'z')
            || ('A' <= self.chars[self.pos] && self.chars[self.pos] <= 'Z')
            || self.chars[self.pos] == '_')
            invariant
                self.chars@ == cs,
                len == cs.len(),
                i + 1 <= self.pos <= len,
                self.tokens@ == old(self).tokens@,
                buffer@ == cs.subrange(i as int, self.pos as int),
                ident_end(cs, i + 1) == ident_end(cs, self.pos as int),
            decreases len - self.pos,
        {
            push_char(&mut buffer, self.chars[self.pos]);
            self.consume();
            assert(buffer@ =~= cs.subrange(i as int, self.pos as int));
        }
        let e = self.pos;
        let is_let = e - i == 3 && self.chars[e - 3] == 'l' && self.chars[e - 2] == 'e'
            && self.chars[e - 1] == 't';
        proof {
            if is_let {
                assert(cs.subrange(i as int, e as int) =~= seq!['l', 'e', 't']);
            } else {
                assert(cs.subrange(i as int, e as int) != seq!['l', 'e', 't']) by {
                    if cs.subrange(i as int, e as int) == seq!['l', 'e', 't'] {
                        assert(cs.subrange(i as int, e as int).len() == 3);
                        assert(cs.subrange(i as int, e as int)[0] == 'l');
                        assert(cs.subrange(i as int, e as int)[1] == 'e');
                        assert(cs.subrange(i as int, e as int)[2] == 't');
                    }
                }
            }
        }
        let token = if is_let { Token::Let } else { Token::Ident(buffer) };
        self.push(token);
    }

    /// Reads the rest of a number whose first digit `num` was just used up.
    fn number(&mut self, num: char) -> (r: Result<(), Error>)
        requires
            1 <= old(self).pos <= old(self).chars@.len(),
            old(self).chars@[old(self).pos - 1] == num,
            is_digit(num),
        ensures
            final(self).chars@ == old(self).chars@,
            ({
                let (e, is_float) = number_end(old(self).chars@, old(self).pos as int, false);
                let text = old(self).chars@.subrange(old(self).pos - 1, e);
                match number_token(text, is_float) {
                    Ok(t) => r is Ok && final(self).pos == e && token_models(final(self).tokens@)
                        == token_models(old(self).tokens@).push(t),
                    Err(err) => r matches Err(x) && x@ == err,
                }
            }),
    {
        let ghost cs = self.chars@;
        let i = self.pos - 1;
        let mut buffer = String::new();
        push_char(&mut buffer, num);
        let mut is_float = false;
        let len = self.chars.len();
        loop
            invariant
                self.chars@ == cs,
                len == cs.len(),
                i + 1 <= self.pos <= len,
                self.tokens@ == old(self).tokens@,
                buffer@ == cs.subrange(i as int, self.pos as int),
                number_end(cs, i + 1, false) == number_end(cs, self.pos as int, is_float),
            ensures
                number_end(cs, self.pos as int, is_float) == (self.pos as int, is_float),
            decreases len - self.pos,
        {
            if self.pos < len && '0' <= self.chars[self.pos] && self.chars[self.pos] <= '9' {
                push_char(&mut buffer, self.chars[self.pos]);
                self.consume();
            } else if self.pos < len && self.chars[self.pos] == '.' && !is_float {
                push_char(&mut buffer, '.');
                self.consume();
                is_float = true;
            } else {
                break;
            }
            assert(buffer@ =~= cs.subrange(i as int, self.pos as int));
        }
        let e = self.pos;
        assert(number_end(cs, e as int, is_float) == (e as int, is_float));
        if is_float {
            self.push(Token::Float(buffer));
            Ok(())
        } else {
            // every character of the text is a digit
            let mut value: i128 = 0;
            let mut overflow = false;
            let mut k = i;
            proof { lemma_digits_only(cs, i + 1, false); }
            while k < e
                invariant
                    self.chars@ == cs,
                    len == cs.len(),
                    is_digit(num),
                    cs[i as int] == num,
                    i <= k <= e <= len,
                    e == self.pos,
                    number_end(cs, i + 1, false) == (e as int, false),
                    forall|m: int| i < m < e ==> is_digit(#[trigger] cs[m]),
                    !overflow ==> value == decimal_value(cs.subrange(i as int, k as int)),
                    !overflow ==> 0 <= value <= i64::MAX,
                    overflow ==> decimal_value(cs.subrange(i as int, k as int)) > i64::MAX,
                decreases e - k,
            {
                let d = self.chars[k];
                proof {
                    assert(cs.subrange(i as int, k + 1).drop_last() =~= cs.subrange(i as int, k as int));
                    assert(cs.subrange(i as int, k + 1).last() == d);
                    assert(is_digit(d)) by {
                        if k > i { assert(is_digit(cs[k as int])); }
                    }
                    assert forall|m: int| 0 <= m < cs.subrange(i as int, k as int).len() implies
                        is_digit(#[trigger] cs.subrange(i as int, k as int)[m]) by {
                        if m > 0 { assert(is_digit(cs[i + m])); }
                    }
                    lemma_decimal_nonneg(cs.subrange(i as int, k as int));
                }
                if !overflow {
                    value = value * 10 + (d as u32 - '0' as u32) as i128;
                    if value > i64::MAX as i128 {
                        overflow = true;
                    }
                }
                k = k + 1;
            }
            if overflow {
                Err(Error::IntError(IntErrorKind::PosOverflow))
            } else {
                self.push(Token::Int(value as i64));
                Ok(())
            }
        }
    }

    /// Reads a string literal whose opening quote was just used up.
    fn string(&mut self) -> (r: Result<(), Error>)
        requires
            old(self).pos <= old(self).chars@.len(),
        ensures
            final(self).chars@ == old(self).chars@,
            match closing_quote(old(self).chars@, old(self).pos as int) {
                Some(j) => r is Ok && final(self).pos == j + 1 && token_models(final(self).tokens@)
                    == token_models(old(self).tokens@).push(
                    SpecToken::Str(old(self).chars@.subrange(old(self).pos as int, j)),
                ),
                None => r matches Err(x) && x@ == SpecError::UnterminatedString,
            },
    {
        let ghost cs = self.chars@;
        let ghost i = self.pos;
        let mut buffer = String::new();
        let len = self.chars.len();
        while self.pos < len && self.chars[self.pos] != '"'
            invariant
                self.chars@ == cs,
                len == cs.len(),
                i <= self.pos <= len,
                self.tokens@ == old(self).tokens@,
                buffer@ == cs.subrange(i as int, self.pos as int),
                closing_quote(cs, i as int) == closing_quote(cs, self.pos as int),
            decreases len - self.pos,
        {
            push_char(&mut buffer, self.chars[self.pos]);
            self.consume();
            assert(buffer@ =~= cs.subrange(i as int, self.pos as int));
        }
        if self.pos == len {
            return Err(Error::UnterminatedString);
        }
        self.consume();
        self.push(Token::Str(buffer));
        Ok(())
    }
}

/// The token of a one-character symbol.
fn symbol(c: char) -> (r: Option<Token>)
    ensures
        match symbol_token(c) {
            Some(t) => r matches Some(x) && x@ == t,
            None => r is None,
        },
{
    if c == '=' { Some(Token::Op(Op::Equal)) }
    else if c == ',' { Some(Token::Comma) }
    else if c == '(' { Some(Token::Op(Op::LParen)) }
    else if c == ')' { Some(Token::Op(Op::RParen)) }
    else if c == '[' { Some(Token::Op(Op::LBracket)) }
    else if c == ']' { Some(Token::Op(Op::RBracket)) }
    else if c == '+' { Some(Token::Op(Op::Plus)) }
    else if c == '-' { Some(Token::Op(Op::Minus)) }
    else if c == '*' { Some(Token::Op(Op::Mul)) }
    else if c == '/' { Some(Token::Op(Op::Div)) }
    else if c == ';' { Some(Token::SemiColon) }
    else if c == '{' { Some(Token::LCurly) }
    else if c == '}' { Some(Token::RCurly) }
    else { None }
}

proof fn lemma_ident_end(cs: Seq<char>, i: int)
    requires
        0 <= i <= cs.len(),
    ensures
        i <= ident_end(cs, i) <= cs.len(),
    decreases cs.len() - i,
{
    if i < cs.len() && is_ident_char(cs[i]) {
        lemma_ident_end(cs, i + 1);
    }
}

proof fn lemma_number_end(cs: Seq<char>, i: int, dot: bool)
    requires
        0 <= i <= cs.len(),
    ensures
        i <= number_end(cs, i, dot).0 <= cs.len(),
    decreases cs.len() - i,
{
    if i < cs.len() && is_digit(cs[i]) {
        lemma_number_end(cs, i + 1, dot);
    } else if i < cs.len() && cs[i] == '.' && !dot {
        lemma_number_end(cs, i + 1, true);
    }
}

proof fn lemma_closing_quote(cs: Seq<char>, i: int)
    requires
        0 <= i <= cs.len(),
    ensures
        closing_quote(cs, i) matches Some(j) ==> i <= j < cs.len() && cs[j] == '"',
    decreases cs.len() - i,
{
    if i < cs.len() && cs[i] != '"' {
        lemma_closing_quote(cs, i + 1);
    }
}

proof fn lemma_digits_only(cs: Seq<char>, i: int, dot: bool)
    requires
        0 <= i <= cs.len(),
        !dot,
        number_end(cs, i, dot).1 == false,
    ensures
        i <= number_end(cs, i, dot).0 <= cs.len(),
        forall|m: int| i <= m < number_end(cs, i, dot).0 ==> is_digit(#[trigger] cs[m]),
    decreases cs.len() - i,
{
    if i < cs.len() && is_digit(cs[i]) {
        lemma_digits_only(cs, i + 1, dot);
    } else if i < cs.len() && cs[i] == '.' && !dot {
        lemma_dot_sticks(cs, i + 1);
    }
}

proof fn lemma_dot_sticks(cs: Seq<char>, i: int)
    ensures
        number_end(cs, i, true).1 == true,
    decreases cs.len() - i,
{
    if 0 <= i < cs.len() && is_digit(cs[i]) {
        lemma_dot_sticks(cs, i + 1);
    }
}

proof fn lemma_decimal_nonneg(s: Seq<char>)
    requires
        forall|m: int| 0 <= m < s.len() ==> is_digit(#[trigger] s[m]),
    ensures
        decimal_value(s) >= 0,
    decreases s.len(),
{
    if s.len() > 0 {
        assert forall|m: int| 0 <= m < s.drop_last().len() implies is_digit(#[trigger] s.drop_last()[m]) by {
            assert(s.drop_last()[m] == s[m]);
        }
        lemma_decimal_nonneg(s.drop_last());
    }
}

} // verus!
