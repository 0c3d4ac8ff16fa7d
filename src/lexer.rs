use vstd::prelude::*;
use vstd::slice::slice_subrange;
use vstd::string::*;
use vstd::utf8::{decode_utf8, valid_utf8};
use crate::text::{append, decimal, decimal_text, owned, push_char, same_text};
use crate::tokens::{Tok, Token, TokenKind};

verus! {

/// A lexical error: what went wrong, and the byte offset where it did.
#[derive(PartialEq, Eq, Debug)]
pub struct Error {
    pub message: String,
    pub position: usize,
}

impl Error {
    pub fn new(message: &str, position: usize) -> (r: Self)
        ensures
            r.message@ == message@,
            r.position == position,
    {
        Self { message: owned(message), position }
    }

    /// `Error at position <offset>: <message>`
    pub fn to_string(&self) -> (r: String)
        ensures
            r@ == "Error at position "@ + decimal(self.position as nat) + ": "@ + self.message@,
    {
        let mut r = owned("Error at position ");
        append(&mut r, decimal_text(self.position).as_str());
        append(&mut r, ": ");
        append(&mut r, self.message.as_str());
        r
    }
}

/// ASCII whitespace: space, tab, line feed, form feed, carriage return.
pub open spec fn is_space(c: u8) -> bool {
    c == 32 || c == 9 || c == 10 || c == 12 || c == 13
}

/// The token that a byte stands for on its own, if it is one.
pub open spec fn single(c: u8) -> Option<Tok> {
    if c == '{' as u8 {
        Some(Tok::LeftBrace)
    } else if c == '}' as u8 {
        Some(Tok::RightBrace)
    } else if c == '(' as u8 {
        Some(Tok::LeftParen)
    } else if c == ')' as u8 {
        Some(Tok::RightParen)
    } else if c == '[' as u8 {
        Some(Tok::LeftBracket)
    } else if c == ']' as u8 {
        Some(Tok::RightBracket)
    } else if c == '@' as u8 {
        Some(Tok::At)
    } else if c == ':' as u8 {
        Some(Tok::Colon)
    } else if c == '?' as u8 {
        Some(Tok::QuestionMark)
    } else if c == ',' as u8 {
        Some(Tok::Comma)
    } else {
        None
    }
}

/// Punctuation that may not appear in a schema.
pub open spec fn is_forbidden(c: u8) -> bool {
    c == '%' as u8 || c == '!' as u8 || c == '&' as u8 || c == '*' as u8 || c == '+' as u8 || c == '/' as u8 || c == '<' as u8
        || c == '>' as u8 || c == '=' as u8 || c == '.' as u8 || c == ';' as u8 || c == '\'' as u8 || c == '\\' as u8 || c
        == '`' as u8 || c == '~' as u8 || c == '|' as u8 || c == '^' as u8
}

/// A byte that ends a word.
pub open spec fn is_delimiter(c: u8) -> bool {
    single(c) is Some || c == '"' as u8 || is_forbidden(c) || is_space(c)
}

/// The first offset from `pos` on that holds no whitespace.
pub open spec fn skip_spaces(b: Seq<u8>, pos: int) -> int
    decreases b.len() - pos,
{
    if 0 <= pos < b.len() && is_space(b[pos]) {
        skip_spaces(b, pos + 1)
    } else {
        pos
    }
}

/// The first offset from `pos` on that holds a delimiter, or the end.
pub open spec fn word_end(b: Seq<u8>, pos: int) -> int
    decreases b.len() - pos,
{
    if 0 <= pos < b.len() && !is_delimiter(b[pos]) {
        word_end(b, pos + 1)
    } else {
        pos
    }
}

/// The first offset from `pos` on that holds a double quote, or the end.
pub open spec fn string_end(b: Seq<u8>, pos: int) -> int
    decreases b.len() - pos,
{
    if 0 <= pos < b.len() && b[pos] != '"' as u8 {
        string_end(b, pos + 1)
    } else {
        pos
    }
}

/// The token that a word is: a type keyword, a boolean, the rule `---`, or
/// else an identifier.
pub open spec fn keyword(text: Seq<char>) -> Tok {
    if text == "Int"@ {
        Tok::Int
    } else if text == "Float"@ {
        Tok::Float
    } else if text == "String"@ {
        Tok::Str
    } else if text == "Bool"@ {
        Tok::Bool
    } else if text == "Date"@ {
        Tok::Date
    } else if text == "UUID"@ {
        Tok::Uuid
    } else if text == "true"@ {
        Tok::BoolLiteral(true)
    } else if text == "false"@ {
        Tok::BoolLiteral(false)
    } else if text == "---"@ {
        Tok::Rule
    } else {
        Tok::Identifier(text)
    }
}

pub open spec fn forbidden_message(c: u8) -> Seq<char> {
    "Forbidden character '"@ + seq![c as char] + "'"@
}

pub open spec fn invalid_message() -> Seq<char> {
    "Invalid UTF8 encoding"@
}

/// What one step of the lexer finds.
pub enum Lexed {
    /// Only whitespace was left.
    End,
    /// A token, and the offset where it starts.
    Token(Tok, int),
    /// An error message, and the offset where it arose.
    Fail(Seq<char>, int),
}

/// What the lexer finds at offset `p`, which holds no whitespace, and the
/// offset where the next step starts.
pub open spec fn lex_at(b: Seq<u8>, p: int) -> (Lexed, int) {
    let c = b[p];
    if single(c) is Some {
        (Lexed::Token(single(c)->0, p), p + 1)
    } else if c == '"' as u8 {
        let q = string_end(b, p + 1);
        let next = if q < b.len() {
            q + 1
        } else {
            q
        };
        let body = b.subrange(p + 1, q);
        if valid_utf8(body) {
            (Lexed::Token(Tok::StringLiteral(decode_utf8(body)), p), next)
        } else {
            (Lexed::Fail(invalid_message(), p), next)
        }
    } else if is_forbidden(c) {
        (Lexed::Fail(forbidden_message(c), p), p + 1)
    } else {
        let q = word_end(b, p + 1);
        let word = b.subrange(p, q);
        if valid_utf8(word) {
            (Lexed::Token(keyword(decode_utf8(word)), p), q)
        } else {
            (Lexed::Fail(invalid_message(), p), q)
        }
    }
}

/// One step of the lexer on `b` from offset `pos`: what it finds, and the
/// offset where the next step starts.
pub open spec fn step(b: Seq<u8>, pos: int) -> (Lexed, int) {
    let p = skip_spaces(b, pos);
    if p >= b.len() {
        (Lexed::End, p)
    } else {
        lex_at(b, p)
    }
}

/// The tokens that the lexer yields from `pos` on, up to the end of the input
/// or the first error.
pub open spec fn tokens_from(b: Seq<u8>, pos: int) -> Seq<Tok>
    decreases b.len() - pos,
{
    if 0 <= pos <= b.len() {
        match step(b, pos).0 {
            Lexed::Token(t, _) => {
                let next = step(b, pos).1;
                if pos < next <= b.len() {
                    seq![t] + tokens_from(b, next)
                } else {
                    Seq::empty()
                }
            },
            _ => Seq::empty(),
        }
    } else {
        Seq::empty()
    }
}

/// Lexing `b` from `pos` on reaches the end of the input without an error.
pub open spec fn lexes_cleanly(b: Seq<u8>, pos: int) -> bool
    decreases b.len() - pos,
{
    if 0 <= pos <= b.len() {
        match step(b, pos).0 {
            Lexed::End => true,
            Lexed::Fail(_, _) => false,
            Lexed::Token(_, _) => {
                let next = step(b, pos).1;
                pos < next <= b.len() && lexes_cleanly(b, next)
            },
        }
    } else {
        false
    }
}

/// All the tokens of `b`, up to its end or the first error.
pub open spec fn tokens(b: Seq<u8>) -> Seq<Tok> {
    tokens_from(b, 0)
}

/// Whether the result of a call of [`Lexer::next_tok`] is what one step found.
pub open spec fn yields(r: Result<Option<Token>, Error>, found: Lexed) -> bool {
    match found {
        Lexed::End => r matches Ok(None),
        Lexed::Token(t, i) => r matches Ok(Some(tok)) && tok.kind@ == t && tok.index == i,
        Lexed::Fail(m, i) => r matches Err(e) && e.message@ == m && e.position == i,
    }
}

proof fn lemma_skip_spaces(b: Seq<u8>, pos: int)
    requires
        0 <= pos <= b.len(),
    ensures
        pos <= skip_spaces(b, pos) <= b.len(),
    decreases b.len() - pos,
{
    if pos < b.len() && is_space(b[pos]) {
        lemma_skip_spaces(b, pos + 1);
    }
}

proof fn lemma_word_end(b: Seq<u8>, pos: int)
    requires
        0 <= pos <= b.len(),
    ensures
        pos <= word_end(b, pos) <= b.len(),
    decreases b.len() - pos,
{
    if pos < b.len() && !is_delimiter(b[pos]) {
        lemma_word_end(b, pos + 1);
    }
}

proof fn lemma_string_end(b: Seq<u8>, pos: int)
    requires
        0 <= pos <= b.len(),
    ensures
        pos <= string_end(b, pos) <= b.len(),
    decreases b.len() - pos,
{
    if pos < b.len() && b[pos] != '"' as u8 {
        lemma_string_end(b, pos + 1);
    }
}

/// A step never moves backwards nor past the end, and one that finds a token
/// moves forwards.
pub proof fn lemma_step_bounds(b: Seq<u8>, pos: int)
    requires
        0 <= pos <= b.len(),
    ensures
        pos <= step(b, pos).1 <= b.len(),
        step(b, pos).0 is Token ==> pos < step(b, pos).1,
{
    lemma_skip_spaces(b, pos);
    let p = skip_spaces(b, pos);
    if p < b.len() {
        lemma_word_end(b, p + 1);
        lemma_string_end(b, p + 1);
    }
}

/// For every single-character token, the input made of that character alone
/// lexes to exactly that token, with nothing after it.
pub proof fn lemma_single_char_round_trip(c: u8)
    requires
        single(c) is Some,
    ensures
        tokens(seq![c]) == seq![single(c)->0],
        step(seq![c], 0) == (Lexed::Token(single(c)->0, 0), 1int),
        step(seq![c], 1).0 is End,
{
    let b = seq![c];
    assert(skip_spaces(b, 0) == 0);
    assert(skip_spaces(b, 1) == 1);
    assert(tokens_from(b, 1) == Seq::<Tok>::empty());
    assert(tokens_from(b, 0) =~= seq![single(c)->0]);
}

/// Relies on std::str::from_utf8: it accepts exactly the valid UTF-8 byte
/// sequences, and the text it gives is their decoding.
#[verifier::external_body]
fn decode(b: &[u8]) -> (r: Option<String>)
    ensures
        r is Some <==> valid_utf8(b@),
        r matches Some(s) ==> s@ == decode_utf8(b@),
{
    std::str::from_utf8(b).ok().map(|s| s.to_string())
}

fn single_kind(c: u8) -> (r: Option<TokenKind>)
    ensures
        r is Some <==> single(c) is Some,
        r matches Some(k) ==> k@ == single(c)->0,
{
    if c == '{' as u8 {
        Some(TokenKind::LeftBrace)
    } else if c == '}' as u8 {
        Some(TokenKind::RightBrace)
    } else if c == '(' as u8 {
        Some(TokenKind::LeftParen)
    } else if c == ')' as u8 {
        Some(TokenKind::RightParen)
    } else if c == '[' as u8 {
        Some(TokenKind::LeftBracket)
    } else if c == ']' as u8 {
        Some(TokenKind::RightBracket)
    } else if c == '@' as u8 {
        Some(TokenKind::At)
    } else if c == ':' as u8 {
        Some(TokenKind::Colon)
    } else if c == '?' as u8 {
        Some(TokenKind::QuestionMark)
    } else if c == ',' as u8 {
        Some(TokenKind::Comma)
    } else {
        None
    }
}

fn forbidden_byte(c: u8) -> (r: bool)
    ensures
        r == is_forbidden(c),
{
    c == '%' as u8 || c == '!' as u8 || c == '&' as u8 || c == '*' as u8 || c == '+' as u8 || c
        == '/' as u8 || c == '<' as u8 || c == '>' as u8 || c == '=' as u8 || c == '.' as u8 || c
        == ';' as u8 || c == '\'' as u8 || c == '\\' as u8 || c == '`' as u8 || c == '~' as u8
        || c == '|' as u8 || c == '^' as u8
}

fn space_byte(c: u8) -> (r: bool)
    ensures
        r == is_space(c),
{
    c == 32 || c == 9 || c == 10 || c == 12 || c == 13
}

fn delimiter_byte(c: u8) -> (r: bool)
    ensures
        r == is_delimiter(c),
{
    single_kind(c).is_some() || c == '"' as u8 || forbidden_byte(c) || space_byte(c)
}

fn word_kind(text: String) -> (r: TokenKind)
    ensures
        r@ == keyword(text@),
{
    let t = text.as_str();
    if same_text(t, "Int") {
        TokenKind::Int
    } else if same_text(t, "Float") {
        TokenKind::Float
    } else if same_text(t, "String") {
        TokenKind::String
    } else if same_text(t, "Bool") {
        TokenKind::Bool
    } else if same_text(t, "Date") {
        TokenKind::Date
    } else if same_text(t, "UUID") {
        TokenKind::Uuid
    } else if same_text(t, "true") {
        TokenKind::BoolLiteral(true)
    } else if same_text(t, "false") {
        TokenKind::BoolLiteral(false)
    } else if same_text(t, "---") {
        TokenKind::Rule
    } else {
        TokenKind::Identifier(text)
    }
}

/// Scans schema text into tokens, with one token of lookahead.
pub struct Lexer {
    chars: Vec<u8>,
    pos: usize,
    has_errored: bool,
    peek_token: Option<Token>,
}

impl Lexer {
    /// The bytes being scanned.
    pub closed spec fn source(&self) -> Seq<u8> {
        self.chars@
    }

    /// Whether an error has stopped the lexer.
    pub closed spec fn poisoned(&self) -> bool {
        self.has_errored
    }

    /// The token read ahead by [`Lexer::peek_tok`], if any.
    pub closed spec fn peeked(&self) -> Option<Token> {
        self.peek_token
    }

    /// The offset from which the next step scans.
    pub closed spec fn position(&self) -> int {
        self.pos as int
    }

    /// The tokens that the lexer will still yield.
    pub closed spec fn pending(&self) -> Seq<Tok> {
        (match self.peek_token {
            Some(t) => seq![t.kind@],
            None => Seq::empty(),
        }) + (if self.has_errored {
            Seq::empty()
        } else {
            tokens_from(self.chars@, self.pos as int)
        })
    }

    /// No error lies ahead.
    pub closed spec fn clean(&self) -> bool {
        self.has_errored || lexes_cleanly(self.chars@, self.pos as int)
    }

    pub closed spec fn wf(&self) -> bool {
        &&& self.pos <= self.chars@.len()
        &&& self.has_errored ==> self.peek_token is None
    }

    /// A lexer at the start of `file`.
    pub fn new(file: &str) -> (r: Self)
        ensures
            r.wf(),
            r.source() == file.spec_bytes(),
            r.pending() == tokens(file.spec_bytes()),
            r.clean() == lexes_cleanly(file.spec_bytes(), 0),
            !r.poisoned(),
            r.peeked() is None,
            r.position() == 0,
    {
        let lx = Self { chars: file.as_bytes_vec(), pos: 0, has_errored: false, peek_token: None };
        assert(lx.pending() =~= tokens(file.spec_bytes()));
        lx
    }

    /// Back to the start of the input, with the error state cleared.
    pub fn reset(&mut self)
        requires
            old(self).wf(),
        ensures
            final(self).wf(),
            final(self).source() == old(self).source(),
            final(self).pending() == tokens(old(self).source()),
            final(self).clean() == lexes_cleanly(old(self).source(), 0),
            !final(self).poisoned(),
            final(self).peeked() is None,
            final(self).position() == 0,
    {
        self.pos = 0;
        self.has_errored = false;
        self.peek_token = None;
        assert(self.pending() =~= tokens(self.source()));
    }

    /// Consumes and returns the next token; `None` at the end of the input.
    /// Once an error has been returned, every later call returns `None`.
    #[verifier::rlimit(30)]
    pub fn next_tok(&mut self) -> (r: Result<Option<Token>, Error>)
        requires
            old(self).wf(),
        ensures
            final(self).wf(),
            final(self).source() == old(self).source(),
            final(self).peeked() is None,
            old(self).peeked() matches Some(t) ==> r == Ok::<Option<Token>, Error>(Some(t))
                && final(self).position() == old(self).position() && final(self).poisoned()
                == old(self).poisoned(),
            old(self).poisoned() ==> (r matches Ok(None)) && final(self).poisoned(),
            old(self).peeked() is None && !old(self).poisoned() ==> yields(
                r,
                step(old(self).source(), old(self).position()).0,
            ) && final(self).position() == step(old(self).source(), old(self).position()).1,
            r is Err <==> (final(self).poisoned() && !old(self).poisoned()),
            r matches Ok(Some(t)) ==> old(self).pending() == seq![t.kind@] + final(self).pending(),
            r matches Ok(None) ==> old(self).pending().len() == 0 && final(self).pending().len()
                == 0,
            r is Err ==> old(self).pending().len() == 0,
            old(self).clean() ==> r is Ok && final(self).clean(),
            r matches Ok(None) ==> final(self).clean(),
    {
        if let Some(t) = &self.peek_token {
            let t2 = t.duplicate();
            self.peek_token = None;
            assert(old(self).pending() =~= seq![t2.kind@] + self.pending());
            return Ok(Some(t2));
        }
        if self.has_errored {
            return Ok(None);
        }
        let ghost b = self.chars@;
        let ghost start = self.pos as int;
        let n = self.chars.len();
        while self.pos < n && space_byte(self.chars[self.pos])
            invariant
                self.wf(),
                self.chars@ == b,
                n == b.len(),
                start <= self.pos,
                skip_spaces(b, start) == skip_spaces(b, self.pos as int),
                !self.has_errored,
                self.peek_token is None,
            decreases n - self.pos,
        {
            self.pos = self.pos + 1;
        }
        let p = self.pos;
        assert(skip_spaces(b, p as int) == p);
        proof {
            lemma_step_bounds(b, start);
        }
        if p >= n {
            assert(step(b, start).0 is End);
            assert(step(b, p as int).0 is End);
            assert(lexes_cleanly(b, p as int));
            return Ok(None);
        }
        let c = self.chars[p];
        let (result, next) = match single_kind(c) {
            Some(kind) => (Ok(Some(Token::new(kind, p))), p + 1),
            None => {
                if c == '"' as u8 {
                    self.parse_string_literal(p)
                } else if forbidden_byte(c) {
                    let mut message = owned("Forbidden character '");
                    push_char(&mut message, c as char);
                    append(&mut message, "'");
                    assert(message@ =~= forbidden_message(c));
                    (Err(Error { message, position: p }), p + 1)
                } else {
                    self.parse_multichar_token(p)
                }
            },
        };
        self.pos = next;
        if result.is_err() {
            self.has_errored = true;
        }
        proof {
            assert(yields(result, step(b, start).0));
            assert(self.pos == step(b, start).1);
            if result is Ok {
                assert(tokens_from(b, start) =~= seq![result->Ok_0->0.kind@] + tokens_from(
                    b,
                    self.pos as int,
                ));
            }
        }
        result
    }

    /// Reads the string literal whose opening quote is at `p`: its text runs
    /// to the next double quote, with no escapes.
    fn parse_string_literal(&self, p: usize) -> (r: (Result<Option<Token>, Error>, usize))
        requires
            self.wf(),
            p < self.chars@.len(),
            self.chars@[p as int] == '"' as u8,
        ensures
            yields(r.0, lex_at(self.chars@, p as int).0),
            r.1 == lex_at(self.chars@, p as int).1,
    {
        let ghost b = self.chars@;
        let n = self.chars.len();
        let mut q = p + 1;
        while q < n && self.chars[q] != '"' as u8
            invariant
                self.chars@ == b,
                n == b.len(),
                p + 1 <= q <= n,
                string_end(b, p + 1) == string_end(b, q as int),
            decreases n - q,
        {
            q = q + 1;
        }
        assert(string_end(b, q as int) == q);
        let next = if q < n {
            q + 1
        } else {
            q
        };
        match decode(slice_subrange(self.chars.as_slice(), p + 1, q)) {
            Some(s) => (Ok(Some(Token::new(TokenKind::StringLiteral(s), p))), next),
            None => (Err(Error::new("Invalid UTF8 encoding", p)), next),
        }
    }

    /// Reads the word that starts at `p`, up to the next delimiter: a type
    /// keyword, a boolean, the rule `---`, or an identifier.
    fn parse_multichar_token(&self, p: usize) -> (r: (Result<Option<Token>, Error>, usize))
        requires
            self.wf(),
            p < self.chars@.len(),
            single(self.chars@[p as int]) is None,
            self.chars@[p as int] != '"' as u8,
            !is_forbidden(self.chars@[p as int]),
        ensures
            yields(r.0, lex_at(self.chars@, p as int).0),
            r.1 == lex_at(self.chars@, p as int).1,
    {
        let ghost b = self.chars@;
        let n = self.chars.len();
        let mut q = p + 1;
        while q < n && !delimiter_byte(self.chars[q])
            invariant
                self.chars@ == b,
                n == b.len(),
                p + 1 <= q <= n,
                word_end(b, p + 1) == word_end(b, q as int),
            decreases n - q,
        {
            q = q + 1;
        }
        assert(word_end(b, q as int) == q);
        match decode(slice_subrange(self.chars.as_slice(), p, q)) {
            Some(s) => (Ok(Some(Token::new(word_kind(s), p))), q),
            None => (Err(Error::new("Invalid UTF8 encoding", p)), q),
        }
    }

    /// The next token, left in place: the following [`Lexer::next_tok`]
    /// returns it.
    pub fn peek_tok(&mut self) -> (r: Result<Option<Token>, Error>)
        requires
            old(self).wf(),
        ensures
            final(self).wf(),
            final(self).source() == old(self).source(),
            r is Ok ==> final(self).pending() == old(self).pending(),
            r matches Ok(Some(t)) ==> final(self).peeked() == Some(t) && old(self).pending().len()
                > 0 && old(self).pending()[0] == t.kind@,
            r matches Ok(None) ==> old(self).pending().len() == 0 && final(self).peeked() is None,
            r is Err ==> old(self).pending().len() == 0 && final(self).poisoned()
                && final(self).pending().len() == 0,
            old(self).poisoned() ==> (r matches Ok(None)) && final(self).poisoned(),
            old(self).clean() ==> r is Ok && final(self).clean(),
            old(self).peeked() matches Some(t) ==> r == Ok::<Option<Token>, Error>(Some(t))
                && *final(self) == *old(self),
            r matches Ok(None) ==> final(self).clean(),
    {
        if self.peek_token.is_none() {
            let t = self.next_tok()?;
            self.peek_token = t;
            assert(self.pending() =~= old(self).pending());
        }
        match &self.peek_token {
            Some(t) => Ok(Some(t.duplicate())),
            None => Ok(None),
        }
    }
}

} // verus!
