//! The tokenizer of the source language.  It reads ASCII text; a `#` starts a
//! comment that runs to the end of the line.

use crate::decimal::{all_digits, digit_value, digits_value, is_digit};
use vstd::prelude::*;
use vstd::string::*;

verus! {

/// The kinds of token.
#[derive(Debug, PartialEq)]
pub enum TokenType {
    Def,
    RParam,
    LParam,
    RBracket,
    LBracket,
    Comma,
    Colon,
    Plus,
    Star,
    Minus,
    Divide,
    Excl,
    Eq,
    EqEq,
    Lt,
    Gt,
    LtEq,
    GtEq,
    Neq,
    Modulo,
    Exp,
    Not,
    And,
    AndAnd,
    TypeRecord,
    Return,
    If,
    ElseIf,
    Else,
    Match,
    With,
    Arm,
    Let,
    From,
    Arrow,
    MethodScope,
    Identifier(String),
    String(String),
    Undefined,
    Integer(i64),
    Eof,
}

/// A kind of token as contracts see it.
pub enum TokenKind {
    Def,
    RParam,
    LParam,
    RBracket,
    LBracket,
    Comma,
    Colon,
    Plus,
    Star,
    Minus,
    Divide,
    Excl,
    Eq,
    EqEq,
    Lt,
    Gt,
    LtEq,
    GtEq,
    Neq,
    Modulo,
    Exp,
    Not,
    And,
    AndAnd,
    TypeRecord,
    Return,
    If,
    ElseIf,
    Else,
    Match,
    With,
    Arm,
    Let,
    From,
    Arrow,
    MethodScope,
    Identifier(Seq<char>),
    String(Seq<char>),
    Undefined,
    Integer(i64),
    Eof,
}

impl View for TokenType {
    type V = TokenKind;

    open spec fn view(&self) -> TokenKind {
        match self {
            TokenType::Def => TokenKind::Def,
            TokenType::RParam => TokenKind::RParam,
            TokenType::LParam => TokenKind::LParam,
            TokenType::RBracket => TokenKind::RBracket,
            TokenType::LBracket => TokenKind::LBracket,
            TokenType::Comma => TokenKind::Comma,
            TokenType::Colon => TokenKind::Colon,
            TokenType::Plus => TokenKind::Plus,
            TokenType::Star => TokenKind::Star,
            TokenType::Minus => TokenKind::Minus,
            TokenType::Divide => TokenKind::Divide,
            TokenType::Excl => TokenKind::Excl,
            TokenType::Eq => TokenKind::Eq,
            TokenType::EqEq => TokenKind::EqEq,
            TokenType::Lt => TokenKind::Lt,
            TokenType::Gt => TokenKind::Gt,
            TokenType::LtEq => TokenKind::LtEq,
            TokenType::GtEq => TokenKind::GtEq,
            TokenType::Neq => TokenKind::Neq,
            TokenType::Modulo => TokenKind::Modulo,
            TokenType::Exp => TokenKind::Exp,
            TokenType::Not => TokenKind::Not,
            TokenType::And => TokenKind::And,
            TokenType::AndAnd => TokenKind::AndAnd,
            TokenType::TypeRecord => TokenKind::TypeRecord,
            TokenType::Return => TokenKind::Return,
            TokenType::If => TokenKind::If,
            TokenType::ElseIf => TokenKind::ElseIf,
            TokenType::Else => TokenKind::Else,
            TokenType::Match => TokenKind::Match,
            TokenType::With => TokenKind::With,
            TokenType::Arm => TokenKind::Arm,
            TokenType::Let => TokenKind::Let,
            TokenType::From => TokenKind::From,
            TokenType::Arrow => TokenKind::Arrow,
            TokenType::MethodScope => TokenKind::MethodScope,
            TokenType::Identifier(s) => TokenKind::Identifier(s@),
            TokenType::String(s) => TokenKind::String(s@),
            TokenType::Undefined => TokenKind::Undefined,
            TokenType::Integer(i) => TokenKind::Integer(*i),
            TokenType::Eof => TokenKind::Eof,
        }
    }
}

impl Clone for TokenType {
    fn clone(&self) -> (r: Self)
        ensures
            r@ == self@,
    {
        match self {
            TokenType::Def => TokenType::Def,
            TokenType::RParam => TokenType::RParam,
            TokenType::LParam => TokenType::LParam,
            TokenType::RBracket => TokenType::RBracket,
            TokenType::LBracket => TokenType::LBracket,
            TokenType::Comma => TokenType::Comma,
            TokenType::Colon => TokenType::Colon,
            TokenType::Plus => TokenType::Plus,
            TokenType::Star => TokenType::Star,
            TokenType::Minus => TokenType::Minus,
            TokenType::Divide => TokenType::Divide,
            TokenType::Excl => TokenType::Excl,
            TokenType::Eq => TokenType::Eq,
            TokenType::EqEq => TokenType::EqEq,
            TokenType::Lt => TokenType::Lt,
            TokenType::Gt => TokenType::Gt,
            TokenType::LtEq => TokenType::LtEq,
            TokenType::GtEq => TokenType::GtEq,
            TokenType::Neq => TokenType::Neq,
            TokenType::Modulo => TokenType::Modulo,
            TokenType::Exp => TokenType::Exp,
            TokenType::Not => TokenType::Not,
            TokenType::And => TokenType::And,
            TokenType::AndAnd => TokenType::AndAnd,
            TokenType::TypeRecord => TokenType::TypeRecord,
            TokenType::Return => TokenType::Return,
            TokenType::If => TokenType::If,
            TokenType::ElseIf => TokenType::ElseIf,
            TokenType::Else => TokenType::Else,
            TokenType::Match => TokenType::Match,
            TokenType::With => TokenType::With,
            TokenType::Arm => TokenType::Arm,
            TokenType::Let => TokenType::Let,
            TokenType::From => TokenType::From,
            TokenType::Arrow => TokenType::Arrow,
            TokenType::MethodScope => TokenType::MethodScope,
            TokenType::Undefined => TokenType::Undefined,
            TokenType::Eof => TokenType::Eof,
            TokenType::Identifier(s) => TokenType::Identifier(s.clone()),
            TokenType::String(s) => TokenType::String(s.clone()),
            TokenType::Integer(i) => TokenType::Integer(*i),
        }
    }
}

/// A stretch of the input, from `start` up to but not including `end`.
#[derive(Debug, Clone, Copy, PartialEq, Eq, Structural)]
pub struct Span {
    pub start: usize,
    pub end: usize,
}

impl Span {
    /// The stretch from `start` to `end`.
    pub fn new(start: usize, end: usize) -> (s: Self)
        ensures
            s.start == start,
            s.end == end,
    {
        Self { start, end }
    }
}

impl Default for Span {
    fn default() -> (s: Self)
        ensures
            s.start == 0,
            s.end == 0,
    {
        Span { start: 0, end: 0 }
    }
}

/// A token: its kind and where it stands.
#[derive(Debug)]
pub struct Token {
    pub token_type: TokenType,
    pub span: Span,
}

impl Clone for Token {
    fn clone(&self) -> (r: Self)
        ensures
            r@ == self@,
    {
        Token { token_type: self.token_type.clone(), span: self.span }
    }
}

/// A token as contracts see it.
pub struct TokenView {
    pub kind: TokenKind,
    pub start: int,
    pub end: int,
}

impl View for Token {
    type V = TokenView;

    open spec fn view(&self) -> TokenView {
        TokenView { kind: self.token_type@, start: self.span.start as int, end: self.span.end as int }
    }
}

/// What can go wrong while text is tokenized.
#[derive(Debug, Clone, Copy, PartialEq, Eq, Structural)]
pub enum LexerError {
    LexerFailed,
    LexerInvalid,
}

/// White space: blank, tab, line feed, vertical tab, form feed, carriage
/// return.
pub open spec fn is_space(c: char) -> bool {
    c == ' ' || c == '\t' || c == '\n' || c == '\r' || c == '\x0b' || c == '\x0c'
}

/// A letter of the Latin alphabet.
pub open spec fn is_letter(c: char) -> bool {
    ('a' <= c <= 'z') || ('A' <= c <= 'Z')
}

/// A character that an identifier is made of.
pub open spec fn is_word_char(c: char) -> bool {
    is_letter(c) || c == '_'
}

/// Where the line ends that `pos` lies in: behind the next line feed, or at
/// the end of the text.
pub open spec fn line_end(chars: Seq<char>, pos: int) -> int
    decreases chars.len() - pos,
{
    if pos < 0 || pos >= chars.len() {
        pos
    } else if chars[pos] == '\n' {
        pos + 1
    } else {
        line_end(chars, pos + 1)
    }
}

/// Where the space and the comments that start at `pos` end.  A comment
/// runs from a `#` to the end of its line.
pub open spec fn spaces_end(chars: Seq<char>, pos: int) -> int
    decreases chars.len() - pos,
{
    if 0 <= pos < chars.len() && is_space(chars[pos]) {
        spaces_end(chars, pos + 1)
    } else if 0 <= pos < chars.len() && chars[pos] == '#' {
        let next = line_end(chars, pos);
        if pos < next <= chars.len() {
            spaces_end(chars, next)
        } else {
            pos
        }
    } else {
        pos
    }
}

/// Where the run of digits that starts at `pos` ends.
pub open spec fn digits_end(chars: Seq<char>, pos: int) -> int
    decreases chars.len() - pos,
{
    if 0 <= pos < chars.len() && is_digit(chars[pos]) {
        digits_end(chars, pos + 1)
    } else {
        pos
    }
}

/// Where the run of identifier characters that starts at `pos` ends.
pub open spec fn word_end(chars: Seq<char>, pos: int) -> int
    decreases chars.len() - pos,
{
    if 0 <= pos < chars.len() && is_word_char(chars[pos]) {
        word_end(chars, pos + 1)
    } else {
        pos
    }
}

/// The token of a word: a keyword, or an identifier.
pub open spec fn word_kind(word: Seq<char>) -> TokenKind {
    if word == "def"@ {
        TokenKind::Def
    } else if word == "if"@ {
        TokenKind::If
    } else if word == "elseif"@ {
        TokenKind::ElseIf
    } else if word == "else"@ {
        TokenKind::Else
    } else if word == "let"@ {
        TokenKind::Let
    } else if word == "return"@ {
        TokenKind::Return
    } else if word == "type"@ {
        TokenKind::TypeRecord
    } else if word == "not"@ {
        TokenKind::Not
    } else if word == "with"@ {
        TokenKind::With
    } else if word == "match"@ {
        TokenKind::Match
    } else if word == "from"@ {
        TokenKind::From
    } else {
        TokenKind::Identifier(word)
    }
}

/// The token of a run of digits: the number it denotes, or nothing defined
/// where that number does not fit in 64 bits.
pub open spec fn number_kind(digits: Seq<char>) -> TokenKind {
    if digits_value(digits) <= i64::MAX {
        TokenKind::Integer(digits_value(digits) as i64)
    } else {
        TokenKind::Undefined
    }
}

/// The token that two characters make together, if they make one.
pub open spec fn pair_kind(a: char, b: char) -> Option<TokenKind> {
    if a == '<' && b == '>' {
        Some(TokenKind::Neq)
    } else if a == '-' && b == '>' {
        Some(TokenKind::Arrow)
    } else if a == '&' && b == '&' {
        Some(TokenKind::AndAnd)
    } else if a == '=' && b == '=' {
        Some(TokenKind::EqEq)
    } else if a == '>' && b == '=' {
        Some(TokenKind::EqEq)
    } else if a == '<' && b == '=' {
        Some(TokenKind::EqEq)
    } else {
        None
    }
}

/// The token that a character makes by itself.
pub open spec fn single_kind(c: char) -> TokenKind {
    if c == '+' {
        TokenKind::Plus
    } else if c == '-' {
        TokenKind::Minus
    } else if c == '*' {
        TokenKind::Star
    } else if c == '/' {
        TokenKind::Divide
    } else if c == '%' {
        TokenKind::Modulo
    } else if c == '^' {
        TokenKind::Exp
    } else if c == '!' {
        TokenKind::Excl
    } else if c == '=' {
        TokenKind::Eq
    } else if c == '<' {
        TokenKind::Lt
    } else if c == '>' {
        TokenKind::Gt
    } else if c == '&' {
        TokenKind::And
    } else if c == '|' {
        TokenKind::Arm
    } else if c == '(' {
        TokenKind::LParam
    } else if c == ')' {
        TokenKind::RParam
    } else if c == '[' {
        TokenKind::LBracket
    } else if c == ']' {
        TokenKind::RBracket
    } else if c == ',' {
        TokenKind::Comma
    } else if c == ':' {
        TokenKind::Colon
    } else {
        TokenKind::Undefined
    }
}

/// The token that starts at `base`, where no space stands, and the place
/// behind it.  A token made of two characters carries the span of the two
/// places behind it.
pub open spec fn token_at(chars: Seq<char>, base: int) -> (TokenView, int) {
    if base >= chars.len() {
        (TokenView { kind: TokenKind::Eof, start: base, end: base }, base)
    } else if is_digit(chars[base]) {
        let end = digits_end(chars, base);
        (TokenView { kind: number_kind(chars.subrange(base, end)), start: base, end }, end)
    } else if is_word_char(chars[base]) {
        let end = word_end(chars, base);
        (TokenView { kind: word_kind(chars.subrange(base, end)), start: base, end }, end)
    } else if base + 1 < chars.len() && pair_kind(chars[base], chars[base + 1]) is Some {
        (
            TokenView {
                kind: pair_kind(chars[base], chars[base + 1])->0,
                start: base + 2,
                end: base + 4,
            },
            base + 2,
        )
    } else {
        (TokenView { kind: single_kind(chars[base]), start: base, end: base + 1 }, base + 1)
    }
}

/// The next token from `pos` on, and the place behind it.
pub open spec fn next_token_spec(chars: Seq<char>, pos: int) -> (TokenView, int) {
    token_at(chars, spaces_end(chars, pos))
}

/// The tokens from `pos` to the end of the input.  The end of the input is
/// a token of its own only where space stands in front of it.
pub open spec fn tokens_from(chars: Seq<char>, pos: int) -> Seq<TokenView>
    decreases chars.len() - pos,
{
    if pos < 0 || pos >= chars.len() {
        Seq::empty()
    } else {
        let (tok, next) = next_token_spec(chars, pos);
        if tok.kind is Eof || next <= pos || next > chars.len() {
            seq![tok]
        } else {
            seq![tok] + tokens_from(chars, next)
        }
    }
}

/// What the tokenizer reads: ASCII text, short enough for a span behind its
/// end to be a machine number.
pub open spec fn lexable(chars: Seq<char>) -> bool {
    &&& chars.len() + 4 <= usize::MAX
    &&& forall|i: int| 0 <= i < chars.len() ==> '\0' <= #[trigger] chars[i] <= '\u{7f}'
}

/// The tokenizer: the text and the place of the next character.
pub struct Lexer<'src> {
    input: &'src str,
    len: usize,
    pos: usize,
}

proof fn lemma_line_end(chars: Seq<char>, pos: int)
    requires
        0 <= pos <= chars.len(),
    ensures
        pos <= line_end(chars, pos) <= chars.len(),
    decreases chars.len() - pos,
{
    if pos < chars.len() && chars[pos] != '\n' {
        lemma_line_end(chars, pos + 1);
    }
}

proof fn lemma_spaces_end(chars: Seq<char>, pos: int)
    requires
        0 <= pos <= chars.len(),
    ensures
        pos <= spaces_end(chars, pos) <= chars.len(),
    decreases chars.len() - pos,
{
    if pos < chars.len() && is_space(chars[pos]) {
        lemma_spaces_end(chars, pos + 1);
    } else if pos < chars.len() && chars[pos] == '#' {
        lemma_line_end(chars, pos + 1);
        lemma_spaces_end(chars, line_end(chars, pos));
    }
}

proof fn lemma_digits_end(chars: Seq<char>, pos: int)
    requires
        0 <= pos <= chars.len(),
    ensures
        pos <= digits_end(chars, pos) <= chars.len(),
        all_digits(chars.subrange(pos, digits_end(chars, pos))),
    decreases chars.len() - pos,
{
    if pos < chars.len() && is_digit(chars[pos]) {
        lemma_digits_end(chars, pos + 1);
        let end = digits_end(chars, pos);
        assert forall|i: int| 0 <= i < end - pos implies is_digit(
            #[trigger] chars.subrange(pos, end)[i],
        ) by {
            if i > 0 {
                assert(chars.subrange(pos, end)[i] == chars.subrange(pos + 1, end)[i - 1]);
            }
        }
    }
}

proof fn lemma_word_end(chars: Seq<char>, pos: int)
    requires
        0 <= pos <= chars.len(),
    ensures
        pos <= word_end(chars, pos) <= chars.len(),
    decreases chars.len() - pos,
{
    if pos < chars.len() && is_word_char(chars[pos]) {
        lemma_word_end(chars, pos + 1);
    }
}

impl<'src> Lexer<'src> {
    /// The text that is read.
    pub closed spec fn chars(&self) -> Seq<char> {
        self.input@
    }

    /// The place of the next character.
    pub closed spec fn position(&self) -> int {
        self.pos as int
    }

    /// The text can be read, and the place lies within it.
    pub closed spec fn wf(&self) -> bool {
        &&& lexable(self.input@)
        &&& self.len == self.input@.len()
        &&& self.pos <= self.len
    }

    /// A tokenizer at the start of `source`.
    pub fn new(source: &'src str) -> (lexer: Self)
        ensures
            lexer.chars() == source@,
            lexer.position() == 0,
            lexer.wf() <==> lexable(source@),
    {
        Lexer { input: source, len: source.unicode_len(), pos: 0 }
    }

    /// A tokenizer in good order reads text that can be read, from a place
    /// within it.
    pub proof fn lemma_wf(&self)
        requires
            self.wf(),
        ensures
            lexable(self.chars()),
            0 <= self.position() <= self.chars().len(),
    {
    }

    /// Whether the tokenizer is in a state to go on: it is after `new` on
    /// text that can be read, and stays so.
    pub fn ready(&self) -> (r: bool)
        ensures
            r ==> self.wf(),
            self.wf() ==> r,
    {
        if !(self.input.is_ascii() && self.pos <= self.len && self.len <= usize::MAX - 4
            && self.len == self.input.unicode_len()) {
            return false;
        }
        true
    }

    fn byte_at(&self, i: usize) -> (b: u8)
        requires
            self.wf(),
            i < self.len,
        ensures
            b as char == self.input@[i as int],
            b < 128,
    {
        self.input.get_ascii(i)
    }

    fn peek(&self) -> (r: Option<u8>)
        requires
            self.wf(),
        ensures
            match r {
                Some(b) => self.pos < self.len && b as char == self.input@[self.pos as int],
                None => self.pos == self.len,
            },
    {
        if self.pos < self.len {
            Some(self.byte_at(self.pos))
        } else {
            None
        }
    }

    fn peek_next(&self) -> (r: Option<u8>)
        requires
            self.wf(),
        ensures
            match r {
                Some(b) => self.pos + 1 < self.len && b as char == self.input@[self.pos + 1],
                None => self.pos + 1 >= self.len,
            },
    {
        if self.pos < self.len && self.pos + 1 < self.len {
            Some(self.byte_at(self.pos + 1))
        } else {
            None
        }
    }

    fn advance(&mut self) -> (r: Option<u8>)
        requires
            old(self).wf(),
            old(self).pos < old(self).len,
        ensures
            final(self).wf(),
            final(self).input == old(self).input,
            final(self).pos == old(self).pos + 1,
            r == Some(old(self).input@[old(self).pos as int] as u8),
    {
        let chr = self.peek();
        self.pos += 1;
        chr
    }

    fn is_end(&self) -> (r: bool)
        ensures
            r == (self.pos >= self.len),
    {
        self.pos >= self.len
    }

    fn skip_whitespace_and_comments(&mut self)
        requires
            old(self).wf(),
        ensures
            final(self).wf(),
            final(self).input == old(self).input,
            final(self).pos == spaces_end(old(self).input@, old(self).pos as int),
    {
        loop
            invariant
                self.wf(),
                self.input == old(self).input,
                old(self).pos <= self.pos,
                spaces_end(self.input@, self.pos as int) == spaces_end(
                    old(self).input@,
                    old(self).pos as int,
                ),
            ensures
                self.wf(),
                self.input == old(self).input,
                self.pos == spaces_end(old(self).input@, old(self).pos as int),
            decreases self.len - self.pos,
        {
            match self.peek() {
                Some(ch) => {
                    if is_space_byte(ch) {
                        self.advance();
                    } else if ch == 35u8 {
                        assert(self.input@[self.pos as int] == '#');
                        proof {
                            lemma_line_end(self.input@, self.pos + 1);
                        }
                        self.skip_comments();
                    } else {
                        break ;
                    }
                },
                None => {
                    break ;
                },
            }
        }
    }

    /// Passes over a comment: everything up to the end of the line, the line
    /// feed included.
    fn skip_comments(&mut self)
        requires
            old(self).wf(),
        ensures
            final(self).wf(),
            final(self).input == old(self).input,
            final(self).pos == line_end(old(self).input@, old(self).pos as int),
    {
        let ghost chars = self.input@;
        proof {
            lemma_line_end(chars, self.pos as int);
        }
        while self.pos < self.len
            invariant_except_break
                line_end(chars, self.pos as int) == line_end(chars, old(self).pos as int),
            invariant
                self.wf(),
                self.input == old(self).input,
                chars == self.input@,
            ensures
                self.pos == line_end(chars, old(self).pos as int),
            decreases self.len - self.pos,
        {
            let ch = self.advance();
            if ch == Some(10u8) {
                assert(chars[self.pos - 1] == '\n');
                break ;
            }
            assert(chars[self.pos - 1] != '\n');
        }
    }

    fn handle_number(&mut self) -> (r: TokenType)
        requires
            old(self).wf(),
        ensures
            final(self).wf(),
            final(self).input == old(self).input,
            final(self).pos == digits_end(old(self).input@, old(self).pos as int),
            r@ == number_kind(
                old(self).input@.subrange(old(self).pos as int, final(self).pos as int),
            ),
    {
        let base = self.pos;
        let ghost chars = self.input@;
        let mut value: u64 = 0;
        let mut fits = true;
        proof {
            lemma_digits_end(chars, base as int);
            assert(chars.subrange(base as int, base as int) =~= Seq::<char>::empty());
        }
        loop
            invariant
                self.wf(),
                self.input == old(self).input,
                chars == self.input@,
                base == old(self).pos,
                base <= self.pos,
                digits_end(chars, self.pos as int) == digits_end(chars, base as int),
                all_digits(chars.subrange(base as int, self.pos as int)),
                fits ==> value == digits_value(chars.subrange(base as int, self.pos as int)),
                fits ==> value <= 9223372036854775807u64,
                !fits ==> digits_value(chars.subrange(base as int, self.pos as int))
                    > 9223372036854775807,
            ensures
                self.wf(),
                self.input == old(self).input,
                self.pos == digits_end(chars, base as int),
                fits ==> value == digits_value(chars.subrange(base as int, self.pos as int)),
                fits ==> value <= 9223372036854775807u64,
                !fits ==> digits_value(chars.subrange(base as int, self.pos as int))
                    > 9223372036854775807,
            decreases self.len - self.pos,
        {
            match self.peek() {
                Some(ch) => {
                    if !(48u8 <= ch && ch <= 57u8) {
                        assert(!is_digit(chars[self.pos as int]));
                        break ;
                    }
                    let ghost c = chars[self.pos as int];
                    assert(is_digit(c));
                    let ghost before = chars.subrange(base as int, self.pos as int);
                    let ghost after = chars.subrange(base as int, self.pos + 1);
                    proof {
                        assert(after.drop_last() =~= before);
                        assert(after.last() == c);
                        assert forall|j: int| 0 <= j < after.len() implies is_digit(
                            #[trigger] after[j],
                        ) by {
                            if j < before.len() {
                                assert(after[j] == before[j]);
                            }
                        }
                    }
                    let d: u64 = (ch - 48u8) as u64;
                    assert(d == digit_value(c));
                    if fits {
                        let wide: u128 = value as u128 * 10u128 + d as u128;
                        if wide > 9223372036854775807u128 {
                            fits = false;
                        } else {
                            value = wide as u64;
                        }
                    }
                    self.advance();
                },
                None => {
                    break ;
                },
            }
        }
        if fits {
            TokenType::Integer(value as i64)
        } else {
            TokenType::Undefined
        }
    }

    fn handle_identifier(&mut self) -> (r: Result<TokenType, LexerError>)
        requires
            old(self).wf(),
        ensures
            final(self).wf(),
            final(self).input == old(self).input,
            final(self).pos == word_end(old(self).input@, old(self).pos as int),
            r is Ok,
            r->Ok_0@ == word_kind(
                old(self).input@.subrange(old(self).pos as int, final(self).pos as int),
            ),
    {
        let base = self.pos;
        let ghost chars = self.input@;
        proof {
            lemma_word_end(chars, base as int);
        }
        loop
            invariant
                self.wf(),
                self.input == old(self).input,
                chars == self.input@,
                base == old(self).pos,
                base <= self.pos,
                word_end(chars, self.pos as int) == word_end(chars, base as int),
            ensures
                self.wf(),
                self.input == old(self).input,
                base <= self.pos,
                self.pos == word_end(chars, base as int),
            decreases self.len - self.pos,
        {
            match self.peek() {
                Some(ch) => {
                    if is_letter_byte(ch) || ch == 95u8 {
                        self.advance();
                    } else {
                        assert(!is_word_char(chars[self.pos as int]));
                        break ;
                    }
                },
                None => {
                    break ;
                },
            }
        }
        let id = self.input.substring_ascii(base, self.pos);
        Ok(word_token(id))
    }

    /// Takes the two characters `a` and `b` if they come next.
    fn accept(&mut self, a: u8, b: u8) -> (r: bool)
        requires
            old(self).wf(),
            a < 128,
            b < 128,
        ensures
            final(self).wf(),
            final(self).input == old(self).input,
            r == (old(self).pos + 1 < old(self).len && old(self).input@[old(self).pos as int]
                == a as char && old(self).input@[old(self).pos + 1] == b as char),
            r ==> final(self).pos == old(self).pos + 2,
            !r ==> final(self).pos == old(self).pos,
    {
        if self.pos < self.len && self.pos + 1 < self.len && self.byte_at(self.pos) == a
            && self.byte_at(self.pos + 1) == b {
            self.pos += 2;
            return true;
        }
        false
    }

    fn accept_multichar(&mut self, a: u8, b: u8, token_type: TokenType) -> (r: Option<Token>)
        requires
            old(self).wf(),
            a < 128,
            b < 128,
        ensures
            final(self).wf(),
            final(self).input == old(self).input,
            r is Some == (old(self).pos + 1 < old(self).len && old(self).input@[old(self).pos as int]
                == a as char && old(self).input@[old(self).pos + 1] == b as char),
            r is Some ==> final(self).pos == old(self).pos + 2 && r->0@ == (TokenView {
                kind: token_type@,
                start: old(self).pos + 2,
                end: old(self).pos + 4,
            }),
            r is None ==> final(self).pos == old(self).pos,
    {
        if self.accept(a, b) {
            return Some(Token { token_type, span: Span::new(self.pos, self.pos + 2) });
        }
        None
    }

    /// Reads the next token: space is passed over; then comes a number, a
    /// word, a token of two characters or a token of one.  At the end of the
    /// input the token is `Eof`.
    pub fn next_token(&mut self) -> (tok: Token)
        requires
            old(self).wf(),
        ensures
            final(self).wf(),
            final(self).chars() == old(self).chars(),
            (tok@, final(self).position()) == next_token_spec(old(self).chars(), old(self).position()),
            old(self).position() <= final(self).position() <= final(self).chars().len(),
            !(tok@.kind is Eof) ==> old(self).position() < final(self).position(),
            tok@.kind is Eof ==> final(self).position() == final(self).chars().len(),
    {
        let ghost chars = self.input@;
        proof {
            lemma_spaces_end(chars, self.pos as int);
            if self.pos < self.len {
                lemma_token_moves(chars, self.pos as int);
            }
        }
        self.skip_whitespace_and_comments();
        let base = self.pos;
        if self.is_end() {
            return Token { token_type: TokenType::Eof, span: Span::new(base, self.pos) };
        }
        let first = self.byte_at(self.pos);
        let ghost c = chars[base as int];
        if 48u8 <= first && first <= 57u8 {
            assert(is_digit(c));
            let number = self.handle_number();
            return Token { span: Span::new(base, self.pos), token_type: number };
        }
        assert(!is_digit(c));
        if is_letter_byte(first) || first == 95u8 {
            let id = self.handle_identifier();
            return Token {
                span: Span::new(base, self.pos),
                token_type: match id {
                    Ok(t) => t,
                    Err(_) => TokenType::Undefined,
                },
            };
        }
        assert(!is_word_char(c));
        if let Some(tok) = self.accept_multichar(60u8, 62u8, TokenType::Neq) {
            return tok;
        }
        if let Some(tok) = self.accept_multichar(45u8, 62u8, TokenType::Arrow) {
            return tok;
        }
        if let Some(tok) = self.accept_multichar(38u8, 38u8, TokenType::AndAnd) {
            return tok;
        }
        if let Some(tok) = self.accept_multichar(61u8, 61u8, TokenType::EqEq) {
            return tok;
        }
        if let Some(tok) = self.accept_multichar(62u8, 61u8, TokenType::EqEq) {
            return tok;
        }
        if let Some(tok) = self.accept_multichar(60u8, 61u8, TokenType::EqEq) {
            return tok;
        }
        assert(!(base + 1 < chars.len() && pair_kind(chars[base as int], chars[base + 1]) is Some));
        self.advance();
        let kind = single_token(first);
        Token { token_type: kind, span: Span::new(base, self.pos) }
    }

    /// Reads tokens until the input is used up.
    pub fn scan_all(&mut self) -> (r: Result<Vec<Token>, LexerError>)
        requires
            old(self).wf(),
        ensures
            final(self).wf(),
            final(self).chars() == old(self).chars(),
            old(self).position() <= final(self).position() <= final(self).chars().len(),
            r is Ok,
            tokens_view(r->Ok_0@) == tokens_from(old(self).chars(), old(self).position()),
    {
        let mut token: Vec<Token> = Vec::new();
        let ghost chars = self.input@;
        let ghost start = self.pos as int;
        assert(tokens_view(token@) =~= Seq::<TokenView>::empty());
        while self.pos < self.len
            invariant
                self.wf(),
                self.input@ == chars,
                start <= self.pos,
                tokens_view(token@) + tokens_from(chars, self.pos as int) == tokens_from(chars, start),
            ensures
                self.wf(),
                self.input@ == chars,
                tokens_view(token@) == tokens_from(chars, start),
            decreases self.len - self.pos,
        {
            let ghost before = tokens_view(token@);
            let ghost p0 = self.pos as int;
            proof {
                lemma_token_moves(chars, p0);
            }
            let tok = self.next_token();
            let at_end = match &tok.token_type {
                TokenType::Eof => true,
                _ => false,
            };
            token.push(tok);
            proof {
                assert(tokens_view(token@) =~= before.push(tok@));
                let rest = tokens_from(chars, p0);
                if at_end {
                    assert(rest =~= seq![tok@]);
                    assert(before + rest =~= before.push(tok@));
                } else {
                    assert(rest =~= seq![tok@] + tokens_from(chars, self.pos as int));
                    assert(before + rest =~= before.push(tok@) + tokens_from(chars, self.pos as int));
                }
            }
            if at_end {
                break ;
            }
        }
        proof {
            if self.pos >= self.len {
                assert(tokens_from(chars, self.pos as int) =~= Seq::<TokenView>::empty());
                assert(tokens_view(token@) + Seq::<TokenView>::empty() =~= tokens_view(token@));
            }
        }
        Ok(token)
    }
}

/// The tokens of a list as contracts see them.
pub open spec fn tokens_view(v: Seq<Token>) -> Seq<TokenView> {
    Seq::new(v.len(), |i: int| v[i]@)
}

/// A token that is not the end of the input ends behind where it was looked
/// for.
proof fn lemma_token_moves(chars: Seq<char>, pos: int)
    requires
        0 <= pos < chars.len(),
    ensures
        next_token_spec(chars, pos).1 <= chars.len(),
        !(next_token_spec(chars, pos).0.kind is Eof) ==> pos < next_token_spec(chars, pos).1,
        next_token_spec(chars, pos).0.kind is Eof ==> next_token_spec(chars, pos).1 == chars.len(),
{
    lemma_spaces_end(chars, pos);
    let base = spaces_end(chars, pos);
    if base < chars.len() {
        lemma_digits_end(chars, base);
        lemma_word_end(chars, base);
        lemma_kinds_not_eof(chars, base);
    }
}

proof fn lemma_kinds_not_eof(chars: Seq<char>, base: int)
    requires
        0 <= base < chars.len(),
    ensures
        !(token_at(chars, base).0.kind is Eof),
        base < token_at(chars, base).1,
{
    if is_digit(chars[base]) {
        lemma_digits_end(chars, base + 1);
    } else if is_word_char(chars[base]) {
        lemma_word_end(chars, base + 1);
    }
}

fn is_space_byte(b: u8) -> (r: bool)
    requires
        b < 128,
    ensures
        r == is_space(b as char),
{
    b == 32u8 || (9u8 <= b && b <= 13u8)
}

fn is_letter_byte(b: u8) -> (r: bool)
    requires
        b < 128,
    ensures
        r == is_letter(b as char),
{
    (97u8 <= b && b <= 122u8) || (65u8 <= b && b <= 90u8)
}

/// Whether two ASCII texts are the same.
fn same_text(a: &str, b: &str) -> (r: bool)
    requires
        a.is_ascii(),
        b.is_ascii(),
    ensures
        r == (a@ == b@),
{
    let n = a.unicode_len();
    if n != b.unicode_len() {
        return false;
    }
    let mut i: usize = 0;
    while i < n
        invariant
            i <= n,
            n == a@.len(),
            n == b@.len(),
            a.is_ascii(),
            b.is_ascii(),
            forall|j: int| 0 <= j < i ==> a@[j] == b@[j],
        decreases n - i,
    {
        if a.get_ascii(i) != b.get_ascii(i) {
            assert(a@[i as int] != b@[i as int]);
            return false;
        }
        i += 1;
    }
    assert(a@ =~= b@);
    true
}

/// The token of a word.
fn word_token(id: &str) -> (r: TokenType)
    requires
        id.is_ascii(),
    ensures
        r@ == word_kind(id@),
{
    proof {
        reveal_strlit("def");
        reveal_strlit("if");
        reveal_strlit("elseif");
        reveal_strlit("else");
        reveal_strlit("let");
        reveal_strlit("return");
        reveal_strlit("type");
        reveal_strlit("not");
        reveal_strlit("with");
        reveal_strlit("match");
        reveal_strlit("from");
    }
    if same_text(id, "def") {
        TokenType::Def
    } else if same_text(id, "if") {
        TokenType::If
    } else if same_text(id, "elseif") {
        TokenType::ElseIf
    } else if same_text(id, "else") {
        TokenType::Else
    } else if same_text(id, "let") {
        TokenType::Let
    } else if same_text(id, "return") {
        TokenType::Return
    } else if same_text(id, "type") {
        TokenType::TypeRecord
    } else if same_text(id, "not") {
        TokenType::Not
    } else if same_text(id, "with") {
        TokenType::With
    } else if same_text(id, "match") {
        TokenType::Match
    } else if same_text(id, "from") {
        TokenType::From
    } else {
        TokenType::Identifier(String::from_str(id))
    }
}

/// The token that a character makes by itself.
fn single_token(b: u8) -> (r: TokenType)
    requires
        b < 128,
    ensures
        r@ == single_kind(b as char),
{
    if b == 43u8 {
        TokenType::Plus
    } else if b == 45u8 {
        TokenType::Minus
    } else if b == 42u8 {
        TokenType::Star
    } else if b == 47u8 {
        TokenType::Divide
    } else if b == 37u8 {
        TokenType::Modulo
    } else if b == 94u8 {
        TokenType::Exp
    } else if b == 33u8 {
        TokenType::Excl
    } else if b == 61u8 {
        TokenType::Eq
    } else if b == 60u8 {
        TokenType::Lt
    } else if b == 62u8 {
        TokenType::Gt
    } else if b == 38u8 {
        TokenType::And
    } else if b == 124u8 {
        TokenType::Arm
    } else if b == 40u8 {
        TokenType::LParam
    } else if b == 41u8 {
        TokenType::RParam
    } else if b == 91u8 {
        TokenType::LBracket
    } else if b == 93u8 {
        TokenType::RBracket
    } else if b == 44u8 {
        TokenType::Comma
    } else if b == 58u8 {
        TokenType::Colon
    } else {
        TokenType::Undefined
    }
}

} // verus!
