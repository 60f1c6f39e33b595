//! The lexical grammar of the expression language, and the lexer that implements it.
use vstd::prelude::*;
use crate::text::{utf16_len, utf16_width, char_units, is_ecma_space, is_ascii_digit, is_word_start, is_word_char,
    hex_value, char_utf16_width, ecma_space, ascii_digit, word_start, word_char, hex_digit, lemma_utf16_len_prefix,
    push_units};
use crate::{Diagnostic, Refusal, Span, Value, ValueModel, in_domain, MAX_INT, MAX_SOURCE_UNITS, MAX_TOKENS};

verus! {

/// Operator and bracket symbols.
#[derive(Clone, Copy, Debug, PartialEq, Eq, Structural)]
pub enum Sym { LParen, RParen, Plus, Minus, Star, Lt, Gt, Bang, Le, Ge, EqEq, Ne, AndAnd, OrOr }

#[derive(Clone, Debug)]
pub enum TokenKind { Literal(Value), Word(Vec<char>), Symbol(Sym), End }

#[derive(Clone, Debug)]
pub struct Token { pub kind: TokenKind, pub span: Span }

/// What a token is: a literal value, a word, a symbol or the end of the source.
pub enum Lexeme { Literal(ValueModel), Word(Seq<char>), Symbol(Sym), End }

/// A token's kind and span.
pub struct TokenView { pub kind: Lexeme, pub span: Span }

pub open spec fn token_view(t: Token) -> TokenView {
    TokenView {
        kind: match t.kind {
            TokenKind::Literal(v) => Lexeme::Literal(v@),
            TokenKind::Word(w) => Lexeme::Word(w@),
            TokenKind::Symbol(s) => Lexeme::Symbol(s),
            TokenKind::End => Lexeme::End,
        },
        span: t.span,
    }
}

pub open spec fn token_views(ts: Seq<Token>) -> Seq<TokenView> {
    ts.map_values(|t: Token| token_view(t))
}

/// A token whose span lies within a source of `units` UTF-16 units and whose literal,
/// if any, is a value of the language.
pub open spec fn token_ok(t: Token, units: nat) -> bool {
    &&& t.span.end <= units
    &&& t.span.start <= t.span.end
    &&& (t.kind matches TokenKind::Literal(v) ==> (v@ matches ValueModel::Int(n) ==> in_domain(n as int)))
}

/// A token list that ends with its only `End` token.
pub open spec fn tokens_ok(ts: Seq<Token>, units: nat) -> bool {
    &&& 1 <= ts.len() <= MAX_TOKENS + 1
    &&& ts.last().kind is End
    &&& forall|i: int| 0 <= i < ts.len() ==> token_ok(#[trigger] ts[i], units)
}

/// A place in the source: character index, UTF-16 offset, and one-based line and column
/// (columns count UTF-16 units).
pub struct Cursor { pub pos: nat, pub offset: nat, pub line: nat, pub column: nat }

pub open spec fn first_cursor() -> Cursor { Cursor { pos: 0, offset: 0, line: 1, column: 1 } }

/// The cursor after the character at `a.pos`: a newline starts a new line.
pub open spec fn next(cs: Seq<char>, a: Cursor) -> Cursor {
    let c = cs[a.pos as int];
    Cursor {
        pos: a.pos + 1,
        offset: a.offset + utf16_width(c),
        line: if c == '\n' { a.line + 1 } else { a.line },
        column: if c == '\n' { 1 } else { a.column + utf16_width(c) },
    }
}

/// The empty span at `a`.
pub open spec fn point(a: Cursor) -> Span {
    Span { start: a.offset as usize, end: a.offset as usize, line: a.line as usize, column: a.column as usize }
}

/// The span from `a` to `b`, positioned at `a`.
pub open spec fn stretch(a: Cursor, b: Cursor) -> Span {
    Span { start: a.offset as usize, end: b.offset as usize, line: a.line as usize, column: a.column as usize }
}

pub open spec fn lex_refusal(message: Seq<char>, span: Span) -> Refusal {
    Refusal { code: "PARSE_ERROR", message, span }
}

/// The end of a line comment: the next newline, or the end of the source.
pub open spec fn skip_comment(cs: Seq<char>, a: Cursor) -> Cursor
    decreases cs.len() - a.pos,
{
    if a.pos < cs.len() && cs[a.pos as int] != '\n' { skip_comment(cs, next(cs, a)) } else { a }
}

/// The end of a run of decimal digits.
pub open spec fn skip_digits(cs: Seq<char>, a: Cursor) -> Cursor
    decreases cs.len() - a.pos,
{
    if a.pos < cs.len() && is_ascii_digit(cs[a.pos as int]) { skip_digits(cs, next(cs, a)) } else { a }
}

/// The end of a run of word characters.
pub open spec fn skip_word(cs: Seq<char>, a: Cursor) -> Cursor
    decreases cs.len() - a.pos,
{
    if a.pos < cs.len() && is_word_char(cs[a.pos as int]) { skip_word(cs, next(cs, a)) } else { a }
}

pub open spec fn digit_value(c: char) -> nat { (c as u32 - '0' as u32) as nat }

/// The number that a string of decimal digits writes.
pub open spec fn digits_value(s: Seq<char>) -> nat
    decreases s.len(),
{
    if s.len() == 0 { 0 } else { digits_value(s.drop_last()) * 10 + digit_value(s.last()) }
}

/// The code unit of a one-character JSON escape such as `\n`.
pub open spec fn escape_unit(e: char) -> Option<u16> {
    if e == '"' { Some(34u16) } else if e == '\\' { Some(92u16) } else if e == '/' { Some(47u16) }
    else if e == 'b' { Some(8u16) } else if e == 'f' { Some(12u16) } else if e == 'n' { Some(10u16) }
    else if e == 'r' { Some(13u16) } else if e == 't' { Some(9u16) } else { None }
}

/// Reads the hexadecimal digits of a `\u` escape, `k` of four having been read with
/// value `value`: the code unit and the cursor after the last digit.
pub open spec fn hex_escape(cs: Seq<char>, a: Cursor, value: nat, k: nat) -> Option<(nat, Cursor)>
    decreases 4 - k,
{
    if k >= 4 {
        Some((value, a))
    } else if a.pos < cs.len() && hex_value(cs[a.pos as int]) is Some {
        hex_escape(cs, next(cs, a), value * 16 + (hex_value(cs[a.pos as int])->0) as nat, k + 1)
    } else {
        None
    }
}

/// Reads the rest of a JSON string literal after its opening quote, `units` having been
/// read: its UTF-16 text and the cursor after the closing quote, or why it is refused.
pub open spec fn string_rest(cs: Seq<char>, a: Cursor, units: Seq<u16>) -> Result<(Seq<u16>, Cursor), Seq<char>>
    decreases cs.len() - a.pos,
{
    if a.pos >= cs.len() {
        Err("Unterminated string."@)
    } else {
        let c = cs[a.pos as int];
        let b = next(cs, a);
        if c == '"' {
            Ok((units, b))
        } else if c == '\\' {
            if b.pos >= cs.len() {
                Err("Invalid JSON string escape."@)
            } else {
                let e = cs[b.pos as int];
                let b2 = next(cs, b);
                match escape_unit(e) {
                    Some(u) => string_rest(cs, b2, units.push(u)),
                    None => if e == 'u' {
                        match hex_escape(cs, b2, 0, 0) {
                            Some((v, b3)) => {
                                proof { lemma_hex_escape_advances(cs, b2, 0, 0); }
                                string_rest(cs, b3, units.push(v as u16))
                            }
                            None => Err("Expected four hexadecimal escape digits."@),
                        }
                    } else {
                        Err("Invalid JSON string escape."@)
                    },
                }
            }
        } else if (c as u32) < 32 {
            Err("Unescaped control character in string."@)
        } else {
            string_rest(cs, b, units + char_units(c))
        }
    }
}

/// The symbol that the two characters `c` and `d` spell, if any.
pub open spec fn pair_symbol(c: char, d: char) -> Option<Sym> {
    if c == '<' && d == '=' { Some(Sym::Le) } else if c == '>' && d == '=' { Some(Sym::Ge) }
    else if c == '=' && d == '=' { Some(Sym::EqEq) } else if c == '!' && d == '=' { Some(Sym::Ne) }
    else if c == '&' && d == '&' { Some(Sym::AndAnd) } else if c == '|' && d == '|' { Some(Sym::OrOr) }
    else { None }
}

/// The symbol that the character `c` spells alone, if any.
pub open spec fn single_symbol(c: char) -> Option<Sym> {
    if c == '(' { Some(Sym::LParen) } else if c == ')' { Some(Sym::RParen) } else if c == '+' { Some(Sym::Plus) }
    else if c == '-' { Some(Sym::Minus) } else if c == '*' { Some(Sym::Star) } else if c == '<' { Some(Sym::Lt) }
    else if c == '>' { Some(Sym::Gt) } else if c == '!' { Some(Sym::Bang) } else { None }
}

/// The kind of token that a word spells: a boolean literal or a plain word.
pub open spec fn word_lexeme(w: Seq<char>) -> Lexeme {
    if w == seq!['t', 'r', 'u', 'e'] {
        Lexeme::Literal(ValueModel::Bool(true))
    } else if w == seq!['f', 'a', 'l', 's', 'e'] {
        Lexeme::Literal(ValueModel::Bool(false))
    } else {
        Lexeme::Word(w)
    }
}

/// The token that starts at `a`, where neither white space nor a comment starts: the
/// token and the cursor after it, or why the source is refused there.
pub open spec fn lex_token(cs: Seq<char>, a: Cursor) -> Result<(TokenView, Cursor), Refusal> {
    let c = cs[a.pos as int];
    if c == '"' {
        match string_rest(cs, next(cs, a), Seq::empty()) {
            Ok((units, b)) => Ok((TokenView { kind: Lexeme::Literal(ValueModel::Text(units)), span: stretch(a, b) }, b)),
            Err(m) => Err(lex_refusal(m, point(a))),
        }
    } else if is_ascii_digit(c) {
        let b = skip_digits(cs, a);
        let n = digits_value(cs.subrange(a.pos as int, b.pos as int));
        if n > MAX_INT {
            Err(lex_refusal("Integer literal is outside the safe integer range."@, stretch(a, b)))
        } else {
            Ok((TokenView { kind: Lexeme::Literal(ValueModel::Int(n as i64)), span: stretch(a, b) }, b))
        }
    } else if is_word_start(c) {
        let b = skip_word(cs, a);
        Ok((TokenView { kind: word_lexeme(cs.subrange(a.pos as int, b.pos as int)), span: stretch(a, b) }, b))
    } else {
        let pair = if a.pos + 1 < cs.len() { pair_symbol(c, cs[a.pos + 1int]) } else { None };
        match pair {
            Some(s) => {
                let b = next(cs, next(cs, a));
                Ok((TokenView { kind: Lexeme::Symbol(s), span: stretch(a, b) }, b))
            }
            None => match single_symbol(c) {
                Some(s) => {
                    let b = next(cs, a);
                    Ok((TokenView { kind: Lexeme::Symbol(s), span: stretch(a, b) }, b))
                }
                None => Err(lex_refusal("Unexpected character in native expression subset."@, point(a))),
            },
        }
    }
}

/// Whether a line comment starts at `a`.
pub open spec fn comment_at(cs: Seq<char>, a: Cursor) -> bool {
    a.pos + 1 < cs.len() && cs[a.pos as int] == '/' && cs[a.pos + 1int] == '/'
}

/// The tokens of the source from `a` on, after the tokens `acc`: white space and line
/// comments separate tokens, and the list ends with an `End` token at the end of the source.
pub open spec fn lex_from(cs: Seq<char>, a: Cursor, acc: Seq<TokenView>) -> Result<Seq<TokenView>, Refusal>
    decreases cs.len() - a.pos,
{
    if a.pos >= cs.len() {
        Ok(acc.push(TokenView { kind: Lexeme::End, span: point(a) }))
    } else if is_ecma_space(cs[a.pos as int]) {
        lex_from(cs, next(cs, a), acc)
    } else if comment_at(cs, a) {
        proof { lemma_skip_comment_advances(cs, next(cs, next(cs, a))); }
        lex_from(cs, skip_comment(cs, next(cs, next(cs, a))), acc)
    } else {
        match lex_token(cs, a) {
            Err(f) => Err(f),
            Ok((t, b)) => {
                proof { lemma_lex_token_advances(cs, a); }
                if acc.len() + 1 > MAX_TOKENS {
                    Err(lex_refusal("Token budget exceeded."@, point(a)))
                } else {
                    lex_from(cs, b, acc.push(t))
                }
            }
        }
    }
}

/// The tokens of a whole source.
pub open spec fn lex(cs: Seq<char>) -> Result<Seq<TokenView>, Refusal> {
    lex_from(cs, first_cursor(), Seq::empty())
}

/// The symbol that `c` and `d` spell together.
fn pair_sym(c: char, d: char) -> (r: Option<Sym>)
    ensures r == pair_symbol(c, d),
{
    if c == '<' && d == '=' { Some(Sym::Le) } else if c == '>' && d == '=' { Some(Sym::Ge) }
    else if c == '=' && d == '=' { Some(Sym::EqEq) } else if c == '!' && d == '=' { Some(Sym::Ne) }
    else if c == '&' && d == '&' { Some(Sym::AndAnd) } else if c == '|' && d == '|' { Some(Sym::OrOr) }
    else { None }
}

/// The symbol that `c` spells alone.
fn single_sym(c: char) -> (r: Option<Sym>)
    ensures r == single_symbol(c),
{
    if c == '(' { Some(Sym::LParen) } else if c == ')' { Some(Sym::RParen) } else if c == '+' { Some(Sym::Plus) }
    else if c == '-' { Some(Sym::Minus) } else if c == '*' { Some(Sym::Star) } else if c == '<' { Some(Sym::Lt) }
    else if c == '>' { Some(Sym::Gt) } else if c == '!' { Some(Sym::Bang) } else { None }
}

/// The characters `v[from..to]`.
pub fn slice_chars(v: &Vec<char>, from: usize, to: usize) -> (r: Vec<char>)
    requires from <= to <= v@.len(),
    ensures r@ == v@.subrange(from as int, to as int),
{
    let mut r: Vec<char> = Vec::new();
    let mut i = from;
    while i < to
        invariant
            from <= i <= to, to <= v@.len(),
            r@ == v@.subrange(from as int, i as int),
        decreases to - i,
    {
        r.push(v[i]);
        assert(r@ =~= v@.subrange(from as int, i + 1));
        i += 1;
    }
    r
}

spec fn pow16(k: nat) -> nat
    decreases k,
{
    if k == 0 { 1 } else { 16 * pow16((k - 1) as nat) }
}

proof fn lemma_pow16_step(value: nat, d: nat, k: nat)
    requires value < pow16(k), d < 16, k < 4,
    ensures value * 16 + d < pow16(k + 1), pow16(k + 1) <= 65536,
{
    reveal_with_fuel(pow16, 5);
    assert(pow16(k + 1) == 16 * pow16(k));
    let p = pow16(k);
    assert(value * 16 + d < 16 * p) by (nonlinear_arith)
        requires value < p, d < 16;
    assert(pow16(1) == 16);
    assert(pow16(2) == 256);
    assert(pow16(3) == 4096);
    assert(pow16(4) == 65536);
}

/// A prefix of a digit string writes a number no larger than the whole string.
proof fn lemma_digits_prefix(s: Seq<char>, j: int)
    requires 0 <= j <= s.len(), forall|i: int| 0 <= i < s.len() ==> is_ascii_digit(#[trigger] s[i]),
    ensures digits_value(s.take(j)) <= digits_value(s),
    decreases s.len(),
{
    if j < s.len() {
        assert(s.drop_last().take(j) =~= s.take(j));
        lemma_digits_prefix(s.drop_last(), j);
    } else {
        assert(s.take(j) =~= s);
    }
}

struct Lexer {
    chars: Vec<char>,
    pos: usize,
    offset: usize,
    line: usize,
    column: usize,
}

impl Lexer {
    spec fn inv(&self) -> bool {
        &&& self.pos <= self.chars@.len()
        &&& self.offset == utf16_len(self.chars@.take(self.pos as int))
        &&& utf16_len(self.chars@) <= MAX_SOURCE_UNITS
        &&& 1 <= self.line <= self.pos + 1
        &&& 1 <= self.column <= self.offset + 1
    }

    spec fn units(&self) -> nat { utf16_len(self.chars@) }

    spec fn at(&self) -> Cursor {
        Cursor { pos: self.pos as nat, offset: self.offset as nat, line: self.line as nat, column: self.column as nat }
    }

    fn span(&self) -> (s: Span)
        requires self.inv(),
        ensures s == point(self.at()), s.end <= self.units(),
    {
        proof { lemma_utf16_len_prefix(self.chars@, self.pos as int); }
        Span { start: self.offset, end: self.offset, line: self.line, column: self.column }
    }

    fn peek_at(&self, k: usize) -> (r: Option<char>)
        requires self.inv(), k <= 2,
        ensures
            r is Some <==> self.pos + k < self.chars@.len(),
            r matches Some(c) ==> c == self.chars@[self.pos + k],
    {
        if k < self.chars.len() - self.pos { Some(self.chars[self.pos + k]) } else { None }
    }

    fn bump(&mut self) -> (r: Option<char>)
        requires old(self).inv(),
        ensures
            final(self).inv(),
            final(self).chars@ == old(self).chars@,
            old(self).pos < old(self).chars@.len() ==>
                r == Some(old(self).chars@[old(self).pos as int]) && final(self).at() == next(old(self).chars@, old(self).at()),
            old(self).pos >= old(self).chars@.len() ==> r is None && final(self).at() == old(self).at(),
    {
        if self.pos >= self.chars.len() { return None; }
        let c = self.chars[self.pos];
        proof {
            assert(self.chars@.take(self.pos + 1).drop_last() =~= self.chars@.take(self.pos as int));
            assert(self.chars@.take(self.pos + 1).last() == c);
            lemma_utf16_len_prefix(self.chars@, self.pos + 1);
            crate::text::lemma_utf16_len_at_least_len(self.chars@);
        }
        let w = char_utf16_width(c);
        self.pos = self.pos + 1;
        self.offset = self.offset + w;
        if c == '\n' {
            self.line = self.line + 1;
            self.column = 1;
        } else {
            self.column = self.column + w;
        }
        Some(c)
    }

    fn error(&self, message: &str, span: Span) -> (d: Diagnostic)
        ensures d.reports(lex_refusal(message@, span)),
    {
        Diagnostic::new("PARSE_ERROR", message.to_owned(), span)
    }

    /// Reads a JSON string literal whose opening quote is at the current position.
    fn string(&mut self, start: Span) -> (r: Result<Value, Diagnostic>)
        requires old(self).inv(), old(self).pos < old(self).chars@.len(),
        ensures
            final(self).inv(),
            final(self).chars@ == old(self).chars@,
            final(self).pos > old(self).pos,
            (match string_rest(old(self).chars@, next(old(self).chars@, old(self).at()), Seq::empty()) {
                Ok((u, b)) => r matches Ok(v) && v@ == ValueModel::Text(u) && final(self).at() == b,
                Err(m) => r matches Err(d) && d.reports(lex_refusal(m, start)),
            }),
    {
        let ghost cs = self.chars@;
        let ghost a0 = self.at();
        self.bump();
        let mut units: Vec<u16> = Vec::new();
        loop
            invariant
                self.inv(),
                self.chars@ == cs,
                cs == old(self).chars@,
                a0 == old(self).at(),
                self.pos > a0.pos,
                string_rest(cs, self.at(), units@) == string_rest(cs, next(cs, a0), Seq::empty()),
            decreases self.chars@.len() - self.pos,
        {
            let ghost a = self.at();
            match self.bump() {
                Some('"') => { return Ok(Value::Text(units)); }
                Some('\\') => {
                    let unit: u16 = match self.bump() {
                        Some('"') => 34, Some('\\') => 92, Some('/') => 47,
                        Some('b') => 8, Some('f') => 12, Some('n') => 10,
                        Some('r') => 13, Some('t') => 9,
                        Some('u') => {
                            let ghost b2 = self.at();
                            let ghost goal = string_rest(cs, next(cs, a0), Seq::empty());
                            assert(goal == (match hex_escape(cs, b2, 0, 0) {
                                Some((v, b3)) => string_rest(cs, b3, units@.push(v as u16)),
                                None => Err("Expected four hexadecimal escape digits."@),
                            }));
                            let mut value: u16 = 0;
                            let mut k: usize = 0;
                            while k < 4
                                invariant
                                    self.inv(),
                                    self.chars@ == cs,
                                    cs == old(self).chars@,
                                    self.pos >= b2.pos,
                                    b2.pos > old(self).pos,
                                    goal == string_rest(cs, next(cs, old(self).at()), Seq::empty()),
                                    goal == (match hex_escape(cs, b2, 0, 0) {
                                        Some((v, b3)) => string_rest(cs, b3, units@.push(v as u16)),
                                        None => Err("Expected four hexadecimal escape digits."@),
                                    }),
                                    k <= 4,
                                    value < pow16(k as nat),
                                    hex_escape(cs, self.at(), value as nat, k as nat) == hex_escape(cs, b2, 0, 0),
                                decreases 4 - k,
                            {
                                let digit = match self.bump() {
                                    Some(c) => hex_digit(c),
                                    None => None,
                                };
                                match digit {
                                    Some(d) => {
                                        proof { lemma_pow16_step(value as nat, d as nat, k as nat); }
                                        value = value * 16 + d as u16;
                                    }
                                    None => { return Err(self.error("Expected four hexadecimal escape digits.", start)); }
                                }
                                k += 1;
                            }
                            value
                        }
                        _ => { return Err(self.error("Invalid JSON string escape.", start)); }
                    };
                    units.push(unit);
                }
                Some(c) => {
                    if (c as u32) < 32 {
                        return Err(self.error("Unescaped control character in string.", start));
                    }
                    push_units(&mut units, c);
                }
                None => { return Err(self.error("Unterminated string.", start)); }
            }
        }
    }

    /// Reads the token that starts at the current position.
    fn token(&mut self) -> (r: Result<Token, Diagnostic>)
        requires old(self).inv(), old(self).pos < old(self).chars@.len(),
        ensures
            final(self).inv(),
            final(self).chars@ == old(self).chars@,
            (match lex_token(old(self).chars@, old(self).at()) {
                Ok((tv, b)) => r matches Ok(t) && token_view(t) == tv && final(self).at() == b
                    && token_ok(t, old(self).units()),
                Err(f) => r matches Err(d) && d.reports(f),
            }),
    {
        let ghost cs = self.chars@;
        let ghost a0 = self.at();
        let c = self.chars[self.pos];
        let start = self.span();
        let p0 = self.pos;
        let kind = if c == '"' {
            match self.string(start) {
                Ok(v) => TokenKind::Literal(v),
                Err(d) => { return Err(d); }
            }
        } else if ascii_digit(c) {
            let begin = self.pos;
            while self.pos < self.chars.len() && ascii_digit(self.chars[self.pos])
                invariant
                    self.inv(),
                    self.chars@ == cs,
                    cs == old(self).chars@,
                    a0 == old(self).at(),
                    begin == a0.pos,
                    begin <= self.pos,
                    skip_digits(cs, self.at()) == skip_digits(cs, a0),
                    forall|j: int| begin <= j < self.pos ==> is_ascii_digit(#[trigger] cs[j]),
                decreases self.chars@.len() - self.pos,
            {
                self.bump();
            }
            let ghost digits = cs.subrange(begin as int, self.pos as int);
            let mut value: i64 = 0;
            let mut k: usize = begin;
            while k < self.pos
                invariant
                    self.inv(),
                    self.chars@ == cs,
                    cs == old(self).chars@,
                    a0 == old(self).at(),
                    start == point(a0),
                    begin == a0.pos,
                    self.at() == skip_digits(cs, a0),
                    begin <= k <= self.pos,
                    0 <= value <= MAX_INT,
                    value == digits_value(cs.subrange(begin as int, k as int)),
                    digits == cs.subrange(begin as int, self.pos as int),
                    forall|j: int| begin <= j < self.pos ==> is_ascii_digit(#[trigger] cs[j]),
                decreases self.pos - k,
            {
                let digit = (self.chars[k] as u32 - '0' as u32) as i64;
                proof {
                    assert(cs.subrange(begin as int, k + 1).drop_last() =~= cs.subrange(begin as int, k as int));
                    assert(cs.subrange(begin as int, k + 1).last() == cs[k as int]);
                }
                assert((value > (MAX_INT - digit) / 10) == (value * 10 + digit > MAX_INT)) by (nonlinear_arith)
                    requires 0 <= digit <= 9, 0 <= value;
                if value > (MAX_INT - digit) / 10 {
                    let span = Span { start: start.start, end: self.offset, line: start.line, column: start.column };
                    proof {
                        assert(digits.take(k + 1 - begin) =~= cs.subrange(begin as int, k + 1));
                        lemma_digits_prefix(digits, k + 1 - begin);
                    }
                    return Err(self.error("Integer literal is outside the safe integer range.", span));
                }
                value = value * 10 + digit;
                k += 1;
            }
            TokenKind::Literal(Value::Int(value))
        } else if word_start(c) {
            let begin = self.pos;
            while self.pos < self.chars.len() && word_char(self.chars[self.pos])
                invariant
                    self.inv(),
                    self.chars@ == cs,
                    cs == old(self).chars@,
                    a0 == old(self).at(),
                    begin == a0.pos,
                    begin <= self.pos,
                    skip_word(cs, self.at()) == skip_word(cs, a0),
                decreases self.chars@.len() - self.pos,
            {
                self.bump();
            }
            let word = slice_chars(&self.chars, begin, self.pos);
            if word.len() == 4 && word[0] == 't' && word[1] == 'r' && word[2] == 'u' && word[3] == 'e' {
                assert(word@ =~= seq!['t', 'r', 'u', 'e']);
                TokenKind::Literal(Value::Bool(true))
            } else if word.len() == 5 && word[0] == 'f' && word[1] == 'a' && word[2] == 'l' && word[3] == 's' && word[4] == 'e' {
                assert(word@ =~= seq!['f', 'a', 'l', 's', 'e']);
                assert(word@ != seq!['t', 'r', 'u', 'e']);
                TokenKind::Literal(Value::Bool(false))
            } else {
                assert(word@ != seq!['t', 'r', 'u', 'e']) by {
                    if word@ == seq!['t', 'r', 'u', 'e'] { assert(word@[0] == 't' && word@[1] == 'r' && word@[2] == 'u' && word@[3] == 'e'); }
                }
                assert(word@ != seq!['f', 'a', 'l', 's', 'e']) by {
                    if word@ == seq!['f', 'a', 'l', 's', 'e'] {
                        assert(word@[0] == 'f' && word@[1] == 'a' && word@[2] == 'l' && word@[3] == 's' && word@[4] == 'e');
                    }
                }
                TokenKind::Word(word)
            }
        } else {
            let pair = match self.peek_at(1) {
                Some(d) => pair_sym(c, d),
                None => None,
            };
            match pair {
                Some(sym) => {
                    self.bump();
                    self.bump();
                    TokenKind::Symbol(sym)
                }
                None => {
                    match single_sym(c) {
                        Some(sym) => { self.bump(); TokenKind::Symbol(sym) }
                        None => {
                            return Err(self.error("Unexpected character in native expression subset.", start));
                        }
                    }
                }
            }
        };
        proof {
            lemma_utf16_len_prefix(self.chars@, self.pos as int);
            lemma_utf16_len_prefix(self.chars@.take(self.pos as int), p0 as int);
            assert(self.chars@.take(self.pos as int).take(p0 as int) =~= self.chars@.take(p0 as int));
        }
        Ok(Token { kind, span: Span { start: start.start, end: self.offset, line: start.line, column: start.column } })
    }

    /// Splits the source into tokens, ending with one `End` token.
    fn tokens(&mut self) -> (r: Result<Vec<Token>, Diagnostic>)
        requires old(self).inv(), old(self).at() == first_cursor(),
        ensures
            (match lex(old(self).chars@) {
                Ok(vs) => r matches Ok(ts) && token_views(ts@) == vs && tokens_ok(ts@, old(self).units()),
                Err(f) => r matches Err(d) && d.reports(f),
            }),
    {
        let ghost units = self.units();
        let ghost cs = self.chars@;
        let mut tokens: Vec<Token> = Vec::new();
        assert(token_views(tokens@) =~= Seq::<TokenView>::empty());
        while self.pos < self.chars.len()
            invariant
                self.inv(),
                self.units() == units,
                self.chars@ == cs,
                cs == old(self).chars@,
                units == old(self).units(),
                lex_from(cs, self.at(), token_views(tokens@)) == lex(cs),
                forall|i: int| 0 <= i < tokens@.len() ==> token_ok(#[trigger] tokens@[i], units) && !(tokens@[i].kind is End),
                tokens@.len() <= MAX_TOKENS,
            decreases self.chars@.len() - self.pos,
        {
            let c = self.chars[self.pos];
            if ecma_space(c) {
                self.bump();
                continue;
            }
            if c == '/' && self.peek_at(1) == Some('/') {
                let ghost a0 = self.at();
                self.bump();
                self.bump();
                while self.pos < self.chars.len() && self.chars[self.pos] != '\n'
                    invariant
                        self.inv(),
                        self.units() == units,
                        self.chars@ == cs,
                        skip_comment(cs, self.at()) == skip_comment(cs, next(cs, next(cs, a0))),
                        self.pos > a0.pos,
                    decreases self.chars@.len() - self.pos,
                {
                    self.bump();
                }
                continue;
            }
            let start = self.span();
            let ghost a0 = self.at();
            let t = match self.token() {
                Ok(t) => t,
                Err(d) => { return Err(d); }
            };
            proof { lemma_lex_token_advances(cs, a0); }
            let ghost before = tokens@;
            tokens.push(t);
            assert(token_views(tokens@) =~= token_views(before).push(token_view(t)));
            if tokens.len() > MAX_TOKENS {
                return Err(self.error("Token budget exceeded.", start));
            }
        }
        let end = self.span();
        let ghost before = tokens@;
        tokens.push(Token { kind: TokenKind::End, span: end });
        proof {
            assert(token_views(tokens@) =~= token_views(before).push(TokenView { kind: Lexeme::End, span: point(self.at()) }));
            assert(token_ok(tokens@.last(), units));
        }
        Ok(tokens)
    }
}

/// Splits a source into tokens by the lexical grammar, ending with one `End` token.
pub fn tokenize(chars: Vec<char>) -> (r: Result<Vec<Token>, Diagnostic>)
    requires utf16_len(chars@) <= MAX_SOURCE_UNITS,
    ensures
        (match lex(chars@) {
            Ok(vs) => r matches Ok(ts) && token_views(ts@) == vs && tokens_ok(ts@, utf16_len(chars@)),
            Err(f) => r matches Err(d) && d.reports(f),
        }),
{
    let mut lexer = Lexer { chars, pos: 0, offset: 0, line: 1, column: 1 };
    assert(lexer.chars@.take(0) =~= Seq::<char>::empty());
    lexer.tokens()
}


pub proof fn lemma_hex_escape_advances(cs: Seq<char>, a: Cursor, value: nat, k: nat)
    requires a.pos <= cs.len(),
    ensures hex_escape(cs, a, value, k) matches Some((_, b)) ==> a.pos <= b.pos <= cs.len(),
    decreases 4 - k,
{
    if k < 4 && a.pos < cs.len() && hex_value(cs[a.pos as int]) is Some {
        lemma_hex_escape_advances(cs, next(cs, a), value * 16 + (hex_value(cs[a.pos as int])->0) as nat, k + 1);
    }
}

pub proof fn lemma_skip_comment_advances(cs: Seq<char>, a: Cursor)
    requires a.pos <= cs.len(),
    ensures a.pos <= skip_comment(cs, a).pos <= cs.len(),
    decreases cs.len() - a.pos,
{
    if a.pos < cs.len() && cs[a.pos as int] != '\n' { lemma_skip_comment_advances(cs, next(cs, a)); }
}

pub proof fn lemma_skip_digits_advances(cs: Seq<char>, a: Cursor)
    requires a.pos <= cs.len(),
    ensures a.pos <= skip_digits(cs, a).pos <= cs.len(),
    decreases cs.len() - a.pos,
{
    if a.pos < cs.len() && is_ascii_digit(cs[a.pos as int]) { lemma_skip_digits_advances(cs, next(cs, a)); }
}

pub proof fn lemma_skip_word_advances(cs: Seq<char>, a: Cursor)
    requires a.pos <= cs.len(),
    ensures a.pos <= skip_word(cs, a).pos <= cs.len(),
    decreases cs.len() - a.pos,
{
    if a.pos < cs.len() && is_word_char(cs[a.pos as int]) { lemma_skip_word_advances(cs, next(cs, a)); }
}

pub proof fn lemma_string_rest_advances(cs: Seq<char>, a: Cursor, units: Seq<u16>)
    requires a.pos <= cs.len(),
    ensures string_rest(cs, a, units) matches Ok((_, b)) ==> a.pos < b.pos <= cs.len(),
    decreases cs.len() - a.pos,
{
    if a.pos < cs.len() {
        let c = cs[a.pos as int];
        let b = next(cs, a);
        if c == '\\' && b.pos < cs.len() {
            let e = cs[b.pos as int];
            let b2 = next(cs, b);
            match escape_unit(e) {
                Some(u) => { lemma_string_rest_advances(cs, b2, units.push(u)); }
                None => {
                    if e == 'u' {
                        lemma_hex_escape_advances(cs, b2, 0, 0);
                        if let Some((v, b3)) = hex_escape(cs, b2, 0, 0) {
                            lemma_string_rest_advances(cs, b3, units.push(v as u16));
                        }
                    }
                }
            }
        } else if c != '"' && (c as u32) >= 32 {
            lemma_string_rest_advances(cs, b, units + char_units(c));
        }
    }
}

/// Each token takes at least one character.
pub proof fn lemma_lex_token_advances(cs: Seq<char>, a: Cursor)
    requires a.pos < cs.len(),
    ensures lex_token(cs, a) matches Ok((_, b)) ==> a.pos < b.pos <= cs.len(),
{
    let c = cs[a.pos as int];
    if c == '"' {
        lemma_string_rest_advances(cs, next(cs, a), Seq::empty());
    } else if is_ascii_digit(c) {
        lemma_skip_digits_advances(cs, next(cs, a));
    } else if is_word_start(c) {
        lemma_skip_word_advances(cs, next(cs, a));
    }
}

/// The lexer refuses a source only with `PARSE_ERROR`.
pub proof fn lemma_lex_from_code(cs: Seq<char>, a: Cursor, acc: Seq<TokenView>)
    requires a.pos <= cs.len(),
    ensures lex_from(cs, a, acc) matches Err(f) ==> f.code == "PARSE_ERROR",
    decreases cs.len() - a.pos,
{
    if a.pos < cs.len() {
        if is_ecma_space(cs[a.pos as int]) {
            lemma_lex_from_code(cs, next(cs, a), acc);
        } else if comment_at(cs, a) {
            lemma_skip_comment_advances(cs, next(cs, next(cs, a)));
            lemma_lex_from_code(cs, skip_comment(cs, next(cs, next(cs, a))), acc);
        } else {
            lemma_lex_token_advances(cs, a);
            if let Ok((t, b)) = lex_token(cs, a) {
                lemma_lex_from_code(cs, b, acc.push(t));
            }
        }
    }
}

} // verus!
