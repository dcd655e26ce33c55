use vstd::prelude::*;
use vstd::string::*;
use crate::text::{
    byte_offset, char_is_digit, char_is_whitespace, char_same_letter, char_width, chars_of,
    is_digit, is_ident_continue, is_ident_start, is_ws, same_letter, utf8_size, utf8_width,
};

verus! {

/// The kind of a token; a number keeps the digits it was written with.
#[derive(Debug, Clone, PartialEq)]
pub enum TokenKind {
    Eof,
    Plus,
    Minus,
    Star,
    Slash,
    LParen,
    RParen,
    Comma,
    Semi,
    And,
    Or,
    Not,
    Ident(String),
    Number(String),
    Gt,
    Ge,
    Lt,
    Le,
    Eq,
    Ne,
    ColonEq,
    Unknown(char),
}

/// A token kind as a mathematical value.
pub enum Lexeme {
    Eof,
    Plus,
    Minus,
    Star,
    Slash,
    LParen,
    RParen,
    Comma,
    Semi,
    And,
    Or,
    Not,
    Ident(Seq<char>),
    Number(Seq<char>),
    Gt,
    Ge,
    Lt,
    Le,
    Eq,
    Ne,
    ColonEq,
    Unknown(char),
}

impl View for TokenKind {
    type V = Lexeme;

    open spec fn view(&self) -> Lexeme {
        match self {
            TokenKind::Eof => Lexeme::Eof,
            TokenKind::Plus => Lexeme::Plus,
            TokenKind::Minus => Lexeme::Minus,
            TokenKind::Star => Lexeme::Star,
            TokenKind::Slash => Lexeme::Slash,
            TokenKind::LParen => Lexeme::LParen,
            TokenKind::RParen => Lexeme::RParen,
            TokenKind::Comma => Lexeme::Comma,
            TokenKind::Semi => Lexeme::Semi,
            TokenKind::And => Lexeme::And,
            TokenKind::Or => Lexeme::Or,
            TokenKind::Not => Lexeme::Not,
            TokenKind::Ident(s) => Lexeme::Ident(s@),
            TokenKind::Number(s) => Lexeme::Number(s@),
            TokenKind::Gt => Lexeme::Gt,
            TokenKind::Ge => Lexeme::Ge,
            TokenKind::Lt => Lexeme::Lt,
            TokenKind::Le => Lexeme::Le,
            TokenKind::Eq => Lexeme::Eq,
            TokenKind::Ne => Lexeme::Ne,
            TokenKind::ColonEq => Lexeme::ColonEq,
            TokenKind::Unknown(c) => Lexeme::Unknown(*c),
        }
    }
}

/// A token with the byte range `[start, end)` of the source that it covers.
#[derive(Debug, Clone, PartialEq)]
pub struct Token {
    pub kind: TokenKind,
    pub start: usize,
    pub end: usize,
}

impl View for Token {
    type V = (Lexeme, nat, nat);

    open spec fn view(&self) -> (Lexeme, nat, nat) {
        (self.kind@, self.start as nat, self.end as nat)
    }
}

/// First index at or after `p` that does not hold whitespace.
pub open spec fn ws_end(s: Seq<char>, p: int) -> int
    decreases s.len() - p,
{
    if 0 <= p < s.len() && is_ws(s[p]) {
        ws_end(s, p + 1)
    } else {
        p
    }
}

/// First index at or after `p` that does not continue an identifier.
pub open spec fn ident_end(s: Seq<char>, p: int) -> int
    decreases s.len() - p,
{
    if 0 <= p < s.len() && is_ident_continue(s[p]) {
        ident_end(s, p + 1)
    } else {
        p
    }
}

/// First index at or after `p` that does not hold an ASCII digit.
pub open spec fn digits_end(s: Seq<char>, p: int) -> int
    decreases s.len() - p,
{
    if 0 <= p < s.len() && is_digit(s[p]) {
        digits_end(s, p + 1)
    } else {
        p
    }
}

/// End of the number that starts at `p`: digits, then `.` and digits if a digit follows the dot.
pub open spec fn num_end(s: Seq<char>, p: int) -> int {
    let d = digits_end(s, p);
    if 0 <= d && d + 1 < s.len() && s[d] == '.' && is_digit(s[d + 1]) {
        digits_end(s, d + 1)
    } else {
        d
    }
}

/// The word, upper-cased, is `AND`, `OR` or `NOT`; otherwise it is an identifier.
pub open spec fn word_kind(w: Seq<char>) -> Lexeme {
    if w.len() == 3 && same_letter(w[0], 'A') && same_letter(w[1], 'N') && same_letter(w[2], 'D') {
        Lexeme::And
    } else if w.len() == 2 && same_letter(w[0], 'O') && same_letter(w[1], 'R') {
        Lexeme::Or
    } else if w.len() == 3 && same_letter(w[0], 'N') && same_letter(w[1], 'O') && same_letter(
        w[2],
        'T',
    ) {
        Lexeme::Not
    } else {
        Lexeme::Ident(w)
    }
}

/// `s[p + 1]` is `=`.
pub open spec fn eq_follows(s: Seq<char>, p: int) -> bool {
    p + 1 < s.len() && s[p + 1] == '='
}

/// The token that begins at index `p` of `s` (no whitespace there), and the index after it.
pub open spec fn scan(s: Seq<char>, p: int) -> (Lexeme, int) {
    if p < 0 || p >= s.len() {
        (Lexeme::Eof, p)
    } else {
        let c = s[p];
        if is_ident_start(c) {
            let e = ident_end(s, p);
            (word_kind(s.subrange(p, e)), e)
        } else if is_digit(c) {
            let e = num_end(s, p);
            (Lexeme::Number(s.subrange(p, e)), e)
        } else if c == '+' {
            (Lexeme::Plus, p + 1)
        } else if c == '-' {
            (Lexeme::Minus, p + 1)
        } else if c == '*' {
            (Lexeme::Star, p + 1)
        } else if c == '/' {
            (Lexeme::Slash, p + 1)
        } else if c == '(' {
            (Lexeme::LParen, p + 1)
        } else if c == ')' {
            (Lexeme::RParen, p + 1)
        } else if c == ',' {
            (Lexeme::Comma, p + 1)
        } else if c == ';' {
            (Lexeme::Semi, p + 1)
        } else if c == ':' {
            if eq_follows(s, p) {
                (Lexeme::ColonEq, p + 2)
            } else {
                (Lexeme::Unknown(':'), p + 1)
            }
        } else if c == '>' {
            if eq_follows(s, p) {
                (Lexeme::Ge, p + 2)
            } else {
                (Lexeme::Gt, p + 1)
            }
        } else if c == '<' {
            if eq_follows(s, p) {
                (Lexeme::Le, p + 2)
            } else {
                (Lexeme::Lt, p + 1)
            }
        } else if c == '=' {
            if eq_follows(s, p) {
                (Lexeme::Eq, p + 2)
            } else {
                (Lexeme::Eq, p + 1)
            }
        } else if c == '!' {
            if eq_follows(s, p) {
                (Lexeme::Ne, p + 2)
            } else {
                (Lexeme::Not, p + 1)
            }
        } else {
            (Lexeme::Unknown(c), p + 1)
        }
    }
}

/// The token read from character index `p` on: its kind, and the character
/// indices where it starts (past the whitespace) and where it ends.
pub open spec fn token_at(s: Seq<char>, p: int) -> (Lexeme, int, int) {
    let a = ws_end(s, p);
    let (k, e) = scan(s, a);
    (k, a, e)
}

/// The token as its kind and byte range.
pub open spec fn token_view(s: Seq<char>, p: int) -> (Lexeme, nat, nat) {
    let (k, a, e) = token_at(s, p);
    (k, byte_offset(s, a), byte_offset(s, e))
}

/// Every token read from character index `p` on, up to and including `Eof`.
pub open spec fn tokens_from(s: Seq<char>, p: int) -> Seq<(Lexeme, nat, nat)>
    decreases s.len() - p,
{
    let (k, a, e) = token_at(s, p);
    if k is Eof || !(p < e <= s.len()) {
        seq![token_view(s, p)]
    } else {
        seq![token_view(s, p)] + tokens_from(s, e)
    }
}

/// The tokens of a source text.
pub open spec fn tokens_of(s: Seq<char>) -> Seq<(Lexeme, nat, nat)> {
    tokens_from(s, 0)
}

proof fn lemma_offset_step(s: Seq<char>, k: int)
    requires
        0 <= k < s.len(),
    ensures
        byte_offset(s, k + 1) == byte_offset(s, k) + utf8_width(s[k]),
{
    assert(s.subrange(0, k + 1).drop_last() =~= s.subrange(0, k));
}

proof fn lemma_offset_bound(s: Seq<char>, k: int)
    requires
        0 <= k <= s.len(),
    ensures
        byte_offset(s, k) <= utf8_size(s),
    decreases s.len() - k,
{
    if k == s.len() {
        assert(s.subrange(0, k) =~= s);
    } else {
        lemma_offset_step(s, k);
        lemma_offset_bound(s, k + 1);
    }
}

proof fn lemma_ws_end(s: Seq<char>, p: int)
    requires
        0 <= p <= s.len(),
    ensures
        p <= ws_end(s, p) <= s.len(),
    decreases s.len() - p,
{
    if p < s.len() && is_ws(s[p]) {
        lemma_ws_end(s, p + 1);
    }
}

proof fn lemma_ident_end(s: Seq<char>, p: int)
    requires
        0 <= p <= s.len(),
    ensures
        p <= ident_end(s, p) <= s.len(),
    decreases s.len() - p,
{
    if p < s.len() && is_ident_continue(s[p]) {
        lemma_ident_end(s, p + 1);
    }
}

proof fn lemma_digits_end(s: Seq<char>, p: int)
    requires
        0 <= p <= s.len(),
    ensures
        p <= digits_end(s, p) <= s.len(),
        p < s.len() && is_digit(s[p]) ==> p < digits_end(s, p),
    decreases s.len() - p,
{
    if p < s.len() && is_digit(s[p]) {
        lemma_digits_end(s, p + 1);
    }
}

/// A token other than `Eof` covers at least one character of the source.
pub proof fn lemma_token_advances(s: Seq<char>, p: int)
    requires
        0 <= p <= s.len(),
    ensures
        p <= token_at(s, p).1 <= token_at(s, p).2 <= s.len(),
        !(token_at(s, p).0 is Eof) ==> p < token_at(s, p).2,
        token_at(s, p).0 is Eof ==> token_at(s, p).1 == s.len() && token_at(s, p).2 == s.len(),
{
    lemma_ws_end(s, p);
    let a = ws_end(s, p);
    if a < s.len() {
        lemma_ident_end(s, a);
        lemma_digits_end(s, a);
        let d = digits_end(s, a);
        if d + 1 < s.len() {
            lemma_digits_end(s, d + 1);
        }
        if is_ident_start(s[a]) {
            assert(is_ident_continue(s[a]));
            assert(ident_end(s, a) == ident_end(s, a + 1));
            lemma_ident_end(s, a + 1);
        }
    }
}

/// Reads tokens from a source text, one at a time.
#[derive(Debug)]
pub struct Lexer<'a> {
    input: &'a str,
    chars: Vec<char>,
    pos: usize,
    byte: usize,
}

impl<'a> Lexer<'a> {
    /// The source text.
    pub closed spec fn src(&self) -> Seq<char> {
        self.input@
    }

    /// Character index of the next character to read.
    pub closed spec fn at(&self) -> int {
        self.pos as int
    }

    pub closed spec fn wf(&self) -> bool {
        &&& self.chars@ == self.input@
        &&& self.pos <= self.chars.len()
        &&& self.byte == byte_offset(self.chars@, self.pos as int)
        &&& utf8_size(self.chars@) <= usize::MAX
    }

    pub fn new(input: &'a str) -> (r: Self)
        requires
            utf8_size(input@) <= usize::MAX,
        ensures
            r.wf(),
            r.src() == input@,
            r.at() == 0,
    {
        let chars = chars_of(input);
        proof {
            assert(chars@.subrange(0, 0) =~= Seq::<char>::empty());
        }
        Lexer { input, chars, pos: 0, byte: 0 }
    }

    fn peek_char(&self) -> (r: Option<char>)
        requires
            self.wf(),
        ensures
            r == (if self.at() < self.src().len() {
                Some(self.src()[self.at()])
            } else {
                None::<char>
            }),
    {
        if self.pos < self.chars.len() {
            Some(self.chars[self.pos])
        } else {
            None
        }
    }

    fn pop_char(&mut self) -> (r: Option<char>)
        requires
            old(self).wf(),
        ensures
            final(self).wf(),
            final(self).src() == old(self).src(),
            old(self).at() < old(self).src().len() ==> r == Some(old(self).src()[old(self).at()])
                && final(self).at() == old(self).at() + 1,
            old(self).at() >= old(self).src().len() ==> r is None && final(self).at() == old(
                self,
            ).at(),
    {
        if self.pos < self.chars.len() {
            let ch = self.chars[self.pos];
            proof {
                lemma_offset_step(self.chars@, self.pos as int);
                lemma_offset_bound(self.chars@, self.pos + 1);
            }
            self.byte = self.byte + char_width(ch);
            self.pos = self.pos + 1;
            Some(ch)
        } else {
            None
        }
    }

    fn is_ident_str(ch: char) -> (r: bool)
        ensures
            r == is_ident_start(ch),
    {
        ch == '_' || ('a' <= ch && ch <= 'z') || ('A' <= ch && ch <= 'Z')
    }

    fn is_ident_continues(ch: char) -> (r: bool)
        ensures
            r == is_ident_continue(ch),
    {
        ch == '_' || ('a' <= ch && ch <= 'z') || ('A' <= ch && ch <= 'Z') || ('0' <= ch && ch
            <= '9')
    }

    fn read_ident(&mut self) -> (r: String)
        requires
            old(self).wf(),
        ensures
            final(self).wf(),
            final(self).src() == old(self).src(),
            final(self).at() == ident_end(old(self).src(), old(self).at()),
            old(self).at() <= final(self).at(),
            r@ == old(self).src().subrange(old(self).at(), final(self).at()),
    {
        let start = self.pos;
        while self.pos < self.chars.len() && Self::is_ident_continues(self.chars[self.pos])
            invariant
                self.wf(),
                self.src() == old(self).src(),
                start <= self.pos,
                ident_end(self.src(), self.at()) == ident_end(self.src(), start as int),
            decreases self.chars.len() - self.pos,
        {
            self.pop_char();
        }
        self.input.substring_char(start, self.pos).to_owned()
    }

    fn read_num(&mut self) -> (r: String)
        requires
            old(self).wf(),
        ensures
            final(self).wf(),
            final(self).src() == old(self).src(),
            final(self).at() == num_end(old(self).src(), old(self).at()),
            r@ == old(self).src().subrange(old(self).at(), final(self).at()),
    {
        let start = self.pos;
        while self.pos < self.chars.len() && char_is_digit(self.chars[self.pos])
            invariant
                self.wf(),
                self.src() == old(self).src(),
                start <= self.pos,
                digits_end(self.src(), self.at()) == digits_end(self.src(), start as int),
            decreases self.chars.len() - self.pos,
        {
            self.pop_char();
        }
        if self.pos < self.chars.len() && self.pos + 1 < self.chars.len() && self.chars[self.pos]
            == '.' && char_is_digit(
            self.chars[self.pos + 1],
        ) {
            self.pop_char();
            let ghost after_dot = self.pos;
            while self.pos < self.chars.len() && char_is_digit(self.chars[self.pos])
                invariant
                    self.wf(),
                    self.src() == old(self).src(),
                    after_dot <= self.pos,
                    start < after_dot,
                    num_end(self.src(), start as int) == digits_end(self.src(), after_dot as int),
                    digits_end(self.src(), self.at()) == digits_end(self.src(), after_dot as int),
                decreases self.chars.len() - self.pos,
            {
                self.pop_char();
            }
        }
        self.input.substring_char(start, self.pos).to_owned()
    }

    fn seek_next_char(&self) -> (r: Option<char>)
        requires
            self.wf(),
        ensures
            r == (if self.at() + 1 < self.src().len() {
                Some(self.src()[self.at() + 1])
            } else {
                None::<char>
            }),
    {
        if self.pos < self.chars.len() && self.pos + 1 < self.chars.len() {
            Some(self.chars[self.pos + 1])
        } else {
            None
        }
    }

    fn skip_ws(&mut self)
        requires
            old(self).wf(),
        ensures
            final(self).wf(),
            final(self).src() == old(self).src(),
            final(self).at() == ws_end(old(self).src(), old(self).at()),
    {
        let ghost start = self.pos;
        while self.pos < self.chars.len() && char_is_whitespace(self.chars[self.pos])
            invariant
                self.wf(),
                self.src() == old(self).src(),
                ws_end(self.src(), self.at()) == ws_end(self.src(), start as int),
            decreases self.chars.len() - self.pos,
        {
            self.pop_char();
        }
    }

    /// The kind of the word `chars[start..end]`, given as `word`.
    fn word_kind(&self, start: usize, end: usize, word: String) -> (r: TokenKind)
        requires
            self.wf(),
            start <= end <= self.src().len(),
            word@ == self.src().subrange(start as int, end as int),
        ensures
            r@ == word_kind(word@),
    {
        let c = &self.chars;
        if end - start == 3 && char_same_letter(c[start], 'A') && char_same_letter(c[start + 1], 'N')
            && char_same_letter(c[start + 2], 'D') {
            TokenKind::And
        } else if end - start == 2 && char_same_letter(c[start], 'O') && char_same_letter(
            c[start + 1],
            'R',
        ) {
            TokenKind::Or
        } else if end - start == 3 && char_same_letter(c[start], 'N') && char_same_letter(
            c[start + 1],
            'O',
        ) && char_same_letter(c[start + 2], 'T') {
            TokenKind::Not
        } else {
            TokenKind::Ident(word)
        }
    }

    /// Pops one character, or two where the second is `=`, and gives `two` or `one`.
    fn one_or_two(&mut self, one: TokenKind, two: TokenKind) -> (r: TokenKind)
        requires
            old(self).wf(),
            old(self).at() < old(self).src().len(),
        ensures
            final(self).wf(),
            final(self).src() == old(self).src(),
            eq_follows(old(self).src(), old(self).at()) ==> r == two && final(self).at() == old(
                self,
            ).at() + 2,
            !eq_follows(old(self).src(), old(self).at()) ==> r == one && final(self).at() == old(
                self,
            ).at() + 1,
    {
        if self.seek_next_char() == Some('=') {
            self.pop_char();
            self.pop_char();
            two
        } else {
            self.pop_char();
            one
        }
    }

    /// Reads the next token: whitespace is skipped, and at the end of the
    /// source every call gives `Eof`.
    pub fn next_token(&mut self) -> (tok: Token)
        requires
            old(self).wf(),
        ensures
            final(self).wf(),
            final(self).src() == old(self).src(),
            tok@ == token_view(old(self).src(), old(self).at()),
            final(self).at() == token_at(old(self).src(), old(self).at()).2,
    {
        self.skip_ws();
        let start = self.pos;
        let start_byte = self.byte;
        let kind = match self.peek_char() {
            None => TokenKind::Eof,
            Some(ch) => {
                if Self::is_ident_str(ch) {
                    let word = self.read_ident();
                    self.word_kind(start, self.pos, word)
                } else if char_is_digit(ch) {
                    TokenKind::Number(self.read_num())
                } else if ch == ':' {
                    self.one_or_two(TokenKind::Unknown(':'), TokenKind::ColonEq)
                } else if ch == '>' {
                    self.one_or_two(TokenKind::Gt, TokenKind::Ge)
                } else if ch == '<' {
                    self.one_or_two(TokenKind::Lt, TokenKind::Le)
                } else if ch == '=' {
                    self.one_or_two(TokenKind::Eq, TokenKind::Eq)
                } else if ch == '!' {
                    self.one_or_two(TokenKind::Not, TokenKind::Ne)
                } else {
                    self.pop_char();
                    if ch == '+' {
                        TokenKind::Plus
                    } else if ch == '-' {
                        TokenKind::Minus
                    } else if ch == '*' {
                        TokenKind::Star
                    } else if ch == '/' {
                        TokenKind::Slash
                    } else if ch == '(' {
                        TokenKind::LParen
                    } else if ch == ')' {
                        TokenKind::RParen
                    } else if ch == ',' {
                        TokenKind::Comma
                    } else if ch == ';' {
                        TokenKind::Semi
                    } else {
                        TokenKind::Unknown(ch)
                    }
                }
            },
        };
        Token { kind, start: start_byte, end: self.byte }
    }
}

} // verus!
