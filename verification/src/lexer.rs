//! The lexer of the fact-program syntax: it turns the source text into tokens.
//!
//! The lexer works on the characters of the source, and reports token positions in bytes
//! (each character counts for the length of its UTF-8 encoding).

use vstd::prelude::*;
use crate::token::{Span, Token, TokenKind, keyword, keyword_at, num_keywords};
use crate::parser::{lemma_spans_ok_from, span_ok};

verus! {

/// The `White_Space` property of the Unicode Character Database.
pub open spec fn is_white_space(c: char) -> bool {
    let u = c as u32;
    ||| 0x09 <= u <= 0x0D
    ||| u == 0x20
    ||| u == 0x85
    ||| u == 0xA0
    ||| u == 0x1680
    ||| 0x2000 <= u <= 0x200A
    ||| u == 0x2028
    ||| u == 0x2029
    ||| u == 0x202F
    ||| u == 0x205F
    ||| u == 0x3000
}

/// An ASCII letter or digit.
pub open spec fn is_ascii_alnum(c: char) -> bool {
    ||| 'a' <= c <= 'z'
    ||| 'A' <= c <= 'Z'
    ||| '0' <= c <= '9'
}

/// Whether `char::is_alphanumeric` holds of `c` (Unicode `Alphabetic` or `Numeric`).
pub uninterp spec fn char_is_alphanumeric(c: char) -> bool;

/// `char::is_whitespace`: the documentation says that it holds of the characters that have
/// the `White_Space` property; the contract lists them.
#[verifier::external_body]
pub(crate) fn is_whitespace(c: char) -> (r: bool)
    ensures
        r == is_white_space(c),
{
    c.is_whitespace()
}

/// `char::is_alphanumeric`: the result is named `char_is_alphanumeric`; of an ASCII
/// character the contract states that it holds exactly of the letters and the digits.
#[verifier::external_body]
fn is_alphanumeric(c: char) -> (r: bool)
    ensures
        r == char_is_alphanumeric(c),
        (c as u32) < 0x80 ==> (r == is_ascii_alnum(c)),
{
    c.is_alphanumeric()
}

/// The number of bytes of the UTF-8 encoding of `c`.
pub open spec fn utf8_len(c: char) -> int {
    let u = c as u32;
    if u < 0x80 { 1 } else if u < 0x800 { 2 } else if u < 0x10000 { 3 } else { 4 }
}

/// The byte offset of the character at index `k` of `cs`.
pub open spec fn byte_offset(cs: Seq<char>, k: int) -> int
    decreases k,
{
    if k <= 0 { 0 } else { byte_offset(cs, k - 1) + utf8_len(cs[k - 1]) }
}

/// The number of bytes of the UTF-8 encoding of `cs`.
pub open spec fn byte_len(cs: Seq<char>) -> int {
    byte_offset(cs, cs.len() as int)
}

/// Length of the run of whitespace characters starting at `i`.
pub open spec fn run_ws(cs: Seq<char>, i: int) -> int
    decreases cs.len() - i,
{
    if 0 <= i < cs.len() && is_white_space(cs[i]) { 1 + run_ws(cs, i + 1) } else { 0 }
}

/// Whether `c` may continue a parameter name: an ASCII letter or digit, another character
/// that `char::is_alphanumeric` accepts, or `_`.
pub open spec fn is_ident_char(c: char) -> bool {
    ||| (if (c as u32) < 0x80 { is_ascii_alnum(c) } else { char_is_alphanumeric(c) })
    ||| c == '_'
}

/// Length of the run of parameter-name characters starting at `i`.
pub open spec fn run_ident(cs: Seq<char>, i: int) -> int
    decreases cs.len() - i,
{
    if 0 <= i < cs.len() && is_ident_char(cs[i]) { 1 + run_ident(cs, i + 1) } else { 0 }
}

/// Length of the run of characters other than a newline starting at `i`.
pub open spec fn run_line(cs: Seq<char>, i: int) -> int
    decreases cs.len() - i,
{
    if 0 <= i < cs.len() && cs[i] != '\n' { 1 + run_line(cs, i + 1) } else { 0 }
}

/// Whether the non-empty word `w` stands in `cs` at index `i`.
pub open spec fn matches_at(cs: Seq<char>, i: int, w: Seq<char>) -> bool {
    &&& 0 < w.len()
    &&& 0 <= i
    &&& i + w.len() <= cs.len()
    &&& cs.subrange(i, i + w.len() as int) =~= w
}

/// The first keyword, from the `k`-th on, that stands at index `i`.
pub open spec fn first_keyword(cs: Seq<char>, i: int, k: int) -> Option<int>
    decreases num_keywords() - k,
{
    if k < 0 || k >= num_keywords() {
        None
    } else if matches_at(cs, i, keyword(k).0) {
        Some(k)
    } else {
        first_keyword(cs, i, k + 1)
    }
}

/// The token kind of a parameter that starts with `c`.
pub open spec fn parameter_kind(c: char) -> Option<TokenKind> {
    if c == '\'' { Some(TokenKind::Origin) }
    else if c == 'B' { Some(TokenKind::Block) }
    else if c == 'L' { Some(TokenKind::Loan) }
    else if c == 'V' { Some(TokenKind::Variable) }
    else if c == 'P' { Some(TokenKind::Path) }
    else { None }
}

/// The token that can be recognised at index `i`: its kind and its number of characters.
pub open spec fn scan(cs: Seq<char>, i: int) -> Option<(TokenKind, int)> {
    if i < 0 || i >= cs.len() {
        None
    } else {
        let c = cs[i];
        if (c as u32) < 0x80 && is_white_space(c) {
            Some((TokenKind::Whitespace, run_ws(cs, i)))
        } else if c == ',' {
            Some((TokenKind::Comma, 1))
        } else if c == ':' {
            Some((TokenKind::Colon, 1))
        } else if c == ';' {
            Some((TokenKind::Semi, 1))
        } else if c == '/' && i + 1 < cs.len() && cs[i + 1] != '/' {
            Some((TokenKind::Slash, 1))
        } else if c == '(' {
            Some((TokenKind::LParen, 1))
        } else if c == ')' {
            Some((TokenKind::RParen, 1))
        } else if c == '{' {
            Some((TokenKind::LCurly, 1))
        } else if c == '}' {
            Some((TokenKind::RCurly, 1))
        } else if parameter_kind(c) is Some {
            Some((parameter_kind(c)->0, 1 + run_ident(cs, i + 1)))
        } else if c == '/' && i + 1 < cs.len() && cs[i + 1] == '/' {
            Some((TokenKind::Comment, run_line(cs, i)))
        } else {
            match first_keyword(cs, i, 0) {
                Some(k) => Some((keyword(k).1, keyword(k).0.len() as int)),
                None => None,
            }
        }
    }
}

/// Number of consecutive characters from `j` on at which no token can be recognised.
pub open spec fn run_invalid(cs: Seq<char>, j: int) -> int
    decreases cs.len() - j,
{
    if 0 <= j < cs.len() && scan(cs, j) is None { 1 + run_invalid(cs, j + 1) } else { 0 }
}

/// The token read at index `i`: a recognised one, or else an error token that runs to the
/// next index where a token can be recognised.
pub open spec fn lex_step(cs: Seq<char>, i: int) -> (TokenKind, int) {
    match scan(cs, i) {
        Some(p) => p,
        None => (TokenKind::Error, 1 + run_invalid(cs, i + 1)),
    }
}

/// The token read at index `i`.
pub open spec fn token_at(cs: Seq<char>, i: int) -> Token {
    let (k, n) = lex_step(cs, i);
    Token {
        kind: k,
        span: Span { start: byte_offset(cs, i) as u32, end: byte_offset(cs, i + n) as u32 },
    }
}

/// The end-of-file token of `cs`.
pub open spec fn eof_token(cs: Seq<char>) -> Token {
    Token { kind: TokenKind::Eof, span: Span { start: byte_len(cs) as u32, end: byte_len(cs) as u32 } }
}

/// The tokens read from index `i` on, the end-of-file token included.
pub open spec fn lex_from(cs: Seq<char>, i: int) -> Seq<Token>
    decreases cs.len() - i,
{
    if i < 0 || i >= cs.len() {
        seq![eof_token(cs)]
    } else {
        let n = lex_step(cs, i).1;
        if 1 <= n && i + n <= cs.len() {
            seq![token_at(cs, i)] + lex_from(cs, i + n)
        } else {
            seq![]
        }
    }
}

/// The tokens of the whole source `cs`.
pub open spec fn lex(cs: Seq<char>) -> Seq<Token> {
    lex_from(cs, 0)
}

/// Whether `cs` is short enough for its byte positions to fit in 32 bits.
pub open spec fn lexable(cs: Seq<char>) -> bool {
    byte_len(cs) <= u32::MAX
}

pub proof fn lemma_utf8_len_bounds(c: char)
    ensures
        1 <= utf8_len(c) <= 4,
{
}

pub proof fn lemma_byte_offset_mono(cs: Seq<char>, a: int, b: int)
    requires
        a <= b,
    ensures
        byte_offset(cs, a) <= byte_offset(cs, b),
        0 <= a ==> byte_offset(cs, b) - byte_offset(cs, a) >= b - a,
    decreases b - a,
{
    if a < b {
        lemma_byte_offset_mono(cs, a, b - 1);
        if b - 1 >= 0 {
            lemma_utf8_len_bounds(cs[b - 1]);
        }
    }
}

pub proof fn lemma_step_len(cs: Seq<char>, i: int)
    requires
        0 <= i < cs.len(),
    ensures
        1 <= lex_step(cs, i).1,
        i + lex_step(cs, i).1 <= cs.len(),
{
    lemma_run_ws_bound(cs, i);
    lemma_run_ws_bound(cs, i + 1);
    lemma_run_ident_bound(cs, i + 1);
    lemma_run_line_bound(cs, i);
    lemma_run_line_bound(cs, i + 1);
    lemma_run_invalid_bound(cs, i + 1);
    lemma_first_keyword(cs, i, 0);
}

pub proof fn lemma_first_keyword(cs: Seq<char>, i: int, k: int)
    ensures
        first_keyword(cs, i, k) matches Some(j) ==> k <= j < num_keywords() && matches_at(
            cs,
            i,
            keyword(j).0,
        ),
    decreases num_keywords() - k,
{
    if 0 <= k < num_keywords() && !matches_at(cs, i, keyword(k).0) {
        lemma_first_keyword(cs, i, k + 1);
    }
}

pub proof fn lemma_run_ws_bound(cs: Seq<char>, i: int)
    requires
        0 <= i <= cs.len(),
    ensures
        0 <= run_ws(cs, i) <= cs.len() - i,
    decreases cs.len() - i,
{
    if i < cs.len() {
        lemma_run_ws_bound(cs, i + 1);
    }
}

pub proof fn lemma_run_ident_bound(cs: Seq<char>, i: int)
    requires
        0 <= i <= cs.len(),
    ensures
        0 <= run_ident(cs, i) <= cs.len() - i,
    decreases cs.len() - i,
{
    if i < cs.len() {
        lemma_run_ident_bound(cs, i + 1);
    }
}

pub proof fn lemma_run_line_bound(cs: Seq<char>, i: int)
    requires
        0 <= i <= cs.len(),
    ensures
        0 <= run_line(cs, i) <= cs.len() - i,
    decreases cs.len() - i,
{
    if i < cs.len() {
        lemma_run_line_bound(cs, i + 1);
    }
}

pub proof fn lemma_run_invalid_bound(cs: Seq<char>, i: int)
    requires
        0 <= i <= cs.len(),
    ensures
        0 <= run_invalid(cs, i) <= cs.len() - i,
    decreases cs.len() - i,
{
    if i < cs.len() {
        lemma_run_invalid_bound(cs, i + 1);
    }
}


/// Whether a token kind carries no meaning for the parser (whitespace and comments).
pub open spec fn is_trivia(k: TokenKind) -> bool {
    k == TokenKind::Whitespace || k == TokenKind::Comment
}

/// The tokens of `toks` that are neither whitespace nor comments, in order.
pub open spec fn significant(toks: Seq<Token>) -> Seq<Token>
    decreases toks.len(),
{
    if toks.len() == 0 {
        seq![]
    } else if is_trivia(toks.last().kind) {
        significant(toks.drop_last())
    } else {
        significant(toks.drop_last()).push(toks.last())
    }
}

/// The number of bytes of the UTF-8 encoding of `c`.
pub(crate) fn utf8_len_of(c: char) -> (r: u32)
    ensures
        r == utf8_len(c),
{
    if (c as u32) < 0x80 {
        1
    } else if (c as u32) < 0x800 {
        2
    } else if (c as u32) < 0x10000 {
        3
    } else {
        4
    }
}

/// Input tokenizer.
///
/// The lexer produces tokens one at a time with [`Lexer::next`]: a single end-of-file token
/// comes at the end of the input, and then none. Input that no token matches gives error
/// tokens.
pub struct Lexer {
    chars: Vec<char>,
    char_pos: usize,
    position: u32,
    eof: bool,
}

impl Lexer {
    /// The characters of the source text.
    pub closed spec fn source(&self) -> Seq<char> {
        self.chars@
    }

    /// The index of the next character to read.
    pub closed spec fn cursor(&self) -> int {
        self.char_pos as int
    }

    /// The byte position of the lexer in the source text.
    pub closed spec fn byte_cursor(&self) -> int {
        self.position as int
    }

    /// Whether the end-of-file token has been produced.
    pub closed spec fn finished(&self) -> bool {
        self.eof
    }

    /// The byte position is that of the next character to read, and all byte positions fit
    /// in 32 bits.
    pub open spec fn wf(&self) -> bool {
        &&& 0 <= self.cursor() <= self.source().len()
        &&& self.byte_cursor() == byte_offset(self.source(), self.cursor())
        &&& byte_len(self.source()) <= u32::MAX
    }

    /// A lexer at the start of `input`.
    pub fn new(input: &str) -> (r: Lexer)
        ensures
            r.source() == input@,
            r.cursor() == 0,
            r.byte_cursor() == 0,
            !r.finished(),
            byte_len(input@) <= u32::MAX ==> r.wf(),
    {
        let mut chars: Vec<char> = Vec::new();
        for c in it: input.chars()
            invariant
                chars@ == it.seq().take(it.index() as int),
                it.seq() == input@,
        {
            chars.push(c);
        }
        proof {
            assert(chars@ =~= input@);
            assert(byte_offset(chars@, 0) == 0);
        }
        Lexer { chars, char_pos: 0, position: 0, eof: false }
    }

    /// The number of bytes of the characters from index `a` to index `b`.
    fn bytes_between(&self, a: usize, b: usize) -> (r: u32)
        requires
            self.wf(),
            a <= b <= self.chars@.len(),
        ensures
            r == byte_offset(self.chars@, b as int) - byte_offset(self.chars@, a as int),
    {
        let mut k = a;
        let mut total: u32 = 0;
        proof {
            lemma_byte_offset_mono(self.chars@, b as int, self.chars@.len() as int);
        }
        while k < b
            invariant
                self.wf(),
                a <= k <= b <= self.chars@.len(),
                total == byte_offset(self.chars@, k as int) - byte_offset(self.chars@, a as int),
                byte_offset(self.chars@, b as int) <= u32::MAX,
            decreases b - k,
        {
            proof {
                lemma_byte_offset_mono(self.chars@, k as int + 1, b as int);
                lemma_byte_offset_mono(self.chars@, a as int, k as int);
            }
            proof {
                lemma_byte_offset_mono(self.chars@, 0, a as int);
                assert(byte_offset(self.chars@, k + 1) == byte_offset(self.chars@, k as int)
                    + utf8_len(self.chars@[k as int]));
            }
            total = total + utf8_len_of(self.chars[k]);
            k = k + 1;
        }
        total
    }

    /// Length of the run of whitespace characters starting at `i`.
    fn whitespace_run(&self, i: usize) -> (r: usize)
        requires
            i <= self.chars@.len(),
        ensures
            r == run_ws(self.chars@, i as int),
    {
        let mut j = i;
        while j < self.chars.len() && is_whitespace(self.chars[j])
            invariant
                i <= j <= self.chars@.len(),
                run_ws(self.chars@, i as int) == (j - i) + run_ws(self.chars@, j as int),
            decreases self.chars@.len() - j,
        {
            j = j + 1;
        }
        j - i
    }

    /// Length of the run of parameter-name characters starting at `i`.
    fn ident_run(&self, i: usize) -> (r: usize)
        requires
            i <= self.chars@.len(),
        ensures
            r == run_ident(self.chars@, i as int),
    {
        let mut j = i;
        while j < self.chars.len() && (is_alphanumeric(self.chars[j]) || self.chars[j] == '_')
            invariant
                i <= j <= self.chars@.len(),
                run_ident(self.chars@, i as int) == (j - i) + run_ident(self.chars@, j as int),
            decreases self.chars@.len() - j,
        {
            j = j + 1;
        }
        j - i
    }

    /// Length of the run of characters other than a newline starting at `i`.
    fn line_run(&self, i: usize) -> (r: usize)
        requires
            i <= self.chars@.len(),
        ensures
            r == run_line(self.chars@, i as int),
    {
        let mut j = i;
        while j < self.chars.len() && self.chars[j] != '\n'
            invariant
                i <= j <= self.chars@.len(),
                run_line(self.chars@, i as int) == (j - i) + run_line(self.chars@, j as int),
            decreases self.chars@.len() - j,
        {
            j = j + 1;
        }
        j - i
    }

    /// Whether the non-empty word `w` stands at index `i`; returns its number of characters.
    fn word_at(&self, i: usize, w: &str) -> (r: Option<usize>)
        requires
            i <= self.chars@.len(),
        ensures
            r is Some == matches_at(self.chars@, i as int, w@),
            r matches Some(m) ==> m == w@.len(),
    {
        let m = w.unicode_len();
        if m == 0 || m > self.chars.len() - i {
            return None;
        }
        let mut k: usize = 0;
        while k < m
            invariant
                i + m <= self.chars.len(),
                m == w@.len(),
                0 < m,
                i + m <= self.chars@.len(),
                k <= m,
                forall|t: int| 0 <= t < k ==> self.chars@[i + t] == w@[t],
            decreases m - k,
        {
            if self.chars[i + k] != w.get_char(k) {
                proof {
                    assert(self.chars@.subrange(i as int, i + m as int)[k as int] != w@[k as int]);
                }
                return None;
            }
            k = k + 1;
        }
        proof {
            assert(self.chars@.subrange(i as int, i + m as int) =~= w@);
        }
        Some(m)
    }

    /// The first keyword that stands at index `i`: its index in the keyword table.
    fn keyword_here(&self, i: usize) -> (r: Option<(TokenKind, usize)>)
        requires
            i <= self.chars@.len(),
        ensures
            r is Some == first_keyword(self.chars@, i as int, 0) is Some,
            r matches Some(p) ==> p.0 == keyword(first_keyword(self.chars@, i as int, 0)->0).1
                && p.1 == keyword(first_keyword(self.chars@, i as int, 0)->0).0.len(),
    {
        let mut k: usize = 0;
        while k < 23
            invariant
                i <= self.chars@.len(),
                k <= num_keywords(),
                first_keyword(self.chars@, i as int, 0) == first_keyword(self.chars@, i as int, k as int),
            decreases num_keywords() - k,
        {
            let (w, kind) = keyword_at(k);
            match self.word_at(i, w) {
                Some(m) => {
                    return Some((kind, m));
                },
                None => {},
            }
            k = k + 1;
        }
        None
    }

    /// The token that can be recognised at index `i`: its kind and number of characters.
    fn valid_token(&self, i: usize) -> (r: Option<(TokenKind, usize)>)
        requires
            i < self.chars@.len(),
        ensures
            r is Some == scan(self.chars@, i as int) is Some,
            r matches Some(p) ==> scan(self.chars@, i as int) == Some((p.0, p.1 as int)),
    {
        let c = self.chars[i];
        let len = self.chars.len();
        proof {
            lemma_run_ident_bound(self.chars@, i + 1);
        }
        if (c as u32) < 0x80 && is_whitespace(c) {
            Some((TokenKind::Whitespace, self.whitespace_run(i)))
        } else if c == ',' {
            Some((TokenKind::Comma, 1))
        } else if c == ':' {
            Some((TokenKind::Colon, 1))
        } else if c == ';' {
            Some((TokenKind::Semi, 1))
        } else if c == '/' && i + 1 < len && self.chars[i + 1] != '/' {
            Some((TokenKind::Slash, 1))
        } else if c == '(' {
            Some((TokenKind::LParen, 1))
        } else if c == ')' {
            Some((TokenKind::RParen, 1))
        } else if c == '{' {
            Some((TokenKind::LCurly, 1))
        } else if c == '}' {
            Some((TokenKind::RCurly, 1))
        } else if c == '\'' || c == 'B' || c == 'L' || c == 'V' || c == 'P' {
            let kind = if c == '\'' {
                TokenKind::Origin
            } else if c == 'B' {
                TokenKind::Block
            } else if c == 'L' {
                TokenKind::Loan
            } else if c == 'V' {
                TokenKind::Variable
            } else {
                TokenKind::Path
            };
            Some((kind, 1 + self.ident_run(i + 1)))
        } else if c == '/' && i + 1 < len && self.chars[i + 1] == '/' {
            Some((TokenKind::Comment, self.line_run(i)))
        } else {
            self.keyword_here(i)
        }
    }

    /// The number of characters of the error token read at index `i`: up to the next index
    /// at which a token can be recognised, or to the end of the input.
    fn invalid_token(&self, i: usize) -> (r: usize)
        requires
            i < self.chars.len(),
        ensures
            r == 1 + run_invalid(self.chars@, i + 1),
    {
        let mut j = i + 1;
        while j < self.chars.len() && self.valid_token(j).is_none()
            invariant
                i + 1 <= j <= self.chars@.len(),
                run_invalid(self.chars@, i + 1) == (j - (i + 1)) + run_invalid(self.chars@, j as int),
            decreases self.chars@.len() - j,
        {
            j = j + 1;
        }
        j - i
    }

    /// Reads the token at the cursor, and moves past it.
    fn next_token(&mut self) -> (r: Token)
        requires
            old(self).wf(),
            old(self).cursor() < old(self).source().len(),
        ensures
            r == token_at(old(self).source(), old(self).cursor()),
            final(self).source() == old(self).source(),
            final(self).cursor() == old(self).cursor() + lex_step(old(self).source(), old(self).cursor()).1,
            final(self).finished() == old(self).finished(),
            final(self).wf(),
    {
        let i = self.char_pos;
        proof {
            lemma_step_len(self.chars@, i as int);
        }
        let (kind, n) = match self.valid_token(i) {
            Some(p) => p,
            None => (TokenKind::Error, self.invalid_token(i)),
        };
        assert(lex_step(self.chars@, i as int) == (kind, n as int));
        assert(i + n <= self.chars.len());
        let start = self.position;
        proof {
            lemma_byte_offset_mono(self.chars@, i + n, self.chars@.len() as int);
        }
        let len = self.bytes_between(i, i + n);
        self.char_pos = i + n;
        self.position = start + len;
        Token { kind, span: Span { start, end: start + len } }
    }

    /// The next token: the token at the cursor, or the end-of-file token once the input is
    /// exhausted, and after it `None`.
    pub fn next(&mut self) -> (r: Option<Token>)
        requires
            old(self).wf(),
        ensures
            final(self).source() == old(self).source(),
            old(self).cursor() < old(self).source().len() ==> {
                &&& r == Some(token_at(old(self).source(), old(self).cursor()))
                &&& final(self).cursor() == old(self).cursor() + lex_step(
                    old(self).source(),
                    old(self).cursor(),
                ).1
                &&& final(self).finished() == old(self).finished()
                &&& final(self).wf()
            },
            old(self).cursor() >= old(self).source().len() && old(self).finished() ==> {
                &&& r is None
                &&& final(self).cursor() == old(self).cursor()
                &&& final(self).finished()
                &&& final(self).wf()
            },
            old(self).cursor() >= old(self).source().len() && !old(self).finished() ==> {
                &&& r == Some(eof_token(old(self).source()))
                &&& final(self).cursor() == old(self).cursor()
                &&& final(self).finished()
                &&& final(self).wf()
            },
    {
        if self.char_pos >= self.chars.len() {
            if self.eof {
                return None;
            }
            self.eof = true;
            Some(Token { kind: TokenKind::Eof, span: Span { start: self.position, end: self.position } })
        } else {
            Some(self.next_token())
        }
    }
}

/// Unfolds `lex_from` at an index inside the source.
pub proof fn lemma_lex_from_unfold(cs: Seq<char>, i: int)
    requires
        0 <= i < cs.len(),
    ensures
        lex_from(cs, i) == seq![token_at(cs, i)] + lex_from(cs, i + lex_step(cs, i).1),
{
    lemma_step_len(cs, i);
}

/// The tokens of a source tile it: the first starts at byte 0, each one starts where
/// the one before it ends, and the last one is the single end-of-file token, at the end of
/// the source. Every other token holds at least one byte, and no error token follows
/// another.
pub proof fn lemma_tokens_tile(cs: Seq<char>)
    requires
        lexable(cs),
    ensures
        lex(cs).len() >= 1,
        lex(cs)[0].span.start == 0,
        lex(cs).last() == eof_token(cs),
        forall|k: int| 0 <= k < lex(cs).len() - 1 ==> lex(cs)[k].kind != TokenKind::Eof,
        forall|k: int|
            0 <= k < lex(cs).len() - 1 ==> #[trigger] lex(cs)[k].span.end == lex(cs)[k + 1].span.start,
        forall|k: int|
            #![trigger lex(cs)[k].span.start, lex(cs)[k].span.end]
            0 <= k < lex(cs).len() - 1 ==> lex(cs)[k].span.start < lex(cs)[k].span.end,
        forall|k: int, j: int|
            #![trigger lex(cs)[k].kind, lex(cs)[j].kind]
            0 <= k < lex(cs).len() - 1 && j == k + 1 && lex(cs)[k].kind == TokenKind::Error ==> lex(cs)[j].kind
                != TokenKind::Error,
{
    lemma_tiles_from(cs, 0);
}

proof fn lemma_tiles_from(cs: Seq<char>, i: int)
    requires
        0 <= i <= cs.len(),
        byte_len(cs) <= u32::MAX,
    ensures
        lex_from(cs, i).len() >= 1,
        lex_from(cs, i)[0].span.start == byte_offset(cs, i) as u32,
        lex_from(cs, i).last() == eof_token(cs),
        forall|k: int| 0 <= k < lex_from(cs, i).len() - 1 ==> lex_from(cs, i)[k].kind != TokenKind::Eof,
        forall|k: int|
            0 <= k < lex_from(cs, i).len() - 1 ==> #[trigger] lex_from(cs, i)[k].span.end
                == lex_from(cs, i)[k + 1].span.start,
        forall|k: int|
            #![trigger lex_from(cs, i)[k].span.start, lex_from(cs, i)[k].span.end]
            0 <= k < lex_from(cs, i).len() - 1 ==> lex_from(cs, i)[k].span.start < lex_from(cs, i)[k].span.end,
        forall|k: int, j: int|
            #![trigger lex_from(cs, i)[k].kind, lex_from(cs, i)[j].kind]
            0 <= k < lex_from(cs, i).len() - 1 && j == k + 1 && lex_from(cs, i)[k].kind == TokenKind::Error ==> lex_from(
                cs,
                i,
            )[j].kind != TokenKind::Error,
    decreases cs.len() - i,
{
    if i < cs.len() {
        lemma_lex_from_unfold(cs, i);
        let n = lex_step(cs, i).1;
        lemma_step_len(cs, i);
        lemma_tiles_from(cs, i + n);
        lemma_lex_step_not_eof(cs, i);
        let rest = lex_from(cs, i + n);
        let all = lex_from(cs, i);
        assert(all == seq![token_at(cs, i)] + rest);
        assert(token_at(cs, i).span.end == byte_offset(cs, i + n) as u32);
        assert forall|k: int| 0 <= k < all.len() - 1 implies #[trigger] all[k].span.end
            == all[k + 1].span.start by {
            if k > 0 {
                assert(all[k] == rest[k - 1]);
                assert(all[k + 1] == rest[k]);
            }
        }
        assert forall|k: int| 0 <= k < all.len() - 1 implies all[k].kind != TokenKind::Eof by {
            if k > 0 {
                assert(all[k] == rest[k - 1]);
            }
        }
        lemma_byte_offset_mono(cs, i + 1, i + n);
        lemma_byte_offset_mono(cs, i + n, cs.len() as int);
        lemma_utf8_len_bounds(cs[i]);
        assert(byte_offset(cs, i + 1) == byte_offset(cs, i) + utf8_len(cs[i]));
        lemma_byte_offset_mono(cs, 0, i);
        assert(all[0] == token_at(cs, i));
        assert(token_at(cs, i).span.start < token_at(cs, i).span.end);
        assert forall|k: int| 0 <= k < all.len() - 1 implies all[k].span.start < all[k].span.end by {
            if k > 0 {
                assert(all[k] == rest[k - 1]);
                assert(rest[k - 1].span.start < rest[k - 1].span.end);
            }
        }
        if lex_step(cs, i).0 == TokenKind::Error {
            assert(scan(cs, i) is None);
            lemma_run_invalid_end(cs, i + 1);
            if i + n < cs.len() {
                lemma_lex_from_unfold(cs, i + n);
                lemma_lex_step_not_eof(cs, i + n);
                assert(rest[0] == token_at(cs, i + n));
            } else {
                assert(rest[0] == eof_token(cs));
            }
        }
        assert forall|k: int, j: int|
            0 <= k < all.len() - 1 && j == k + 1 && all[k].kind == TokenKind::Error implies all[j].kind != TokenKind::Error by {
            if k > 0 {
                assert(all[k] == rest[k - 1]);
                assert(all[j] == rest[k]);
                assert(rest[k - 1].kind == TokenKind::Error);
                assert(rest[k].kind != TokenKind::Error);
            } else {
                assert(all[1] == rest[0]);
            }
        }
    }
}

/// No token read inside the source is an end-of-file token, and one that a token is
/// recognised for is no error token.
pub proof fn lemma_lex_step_not_eof(cs: Seq<char>, i: int)
    requires
        0 <= i < cs.len(),
    ensures
        lex_step(cs, i).0 != TokenKind::Eof,
        scan(cs, i) is Some ==> lex_step(cs, i).0 != TokenKind::Error,
{
    lemma_first_keyword(cs, i, 0);
    if let Some(k) = first_keyword(cs, i, 0) {
        assert(keyword(k).1 != TokenKind::Eof);
        assert(keyword(k).1 != TokenKind::Error);
    }
}

/// A run of characters at which no token is recognised ends at the end of the source, or
/// where one is.
proof fn lemma_run_invalid_end(cs: Seq<char>, j: int)
    requires
        0 <= j <= cs.len(),
    ensures
        j + run_invalid(cs, j) >= cs.len() || scan(cs, j + run_invalid(cs, j)) is Some,
    decreases cs.len() - j,
{
    if j < cs.len() && scan(cs, j) is None {
        lemma_run_invalid_end(cs, j + 1);
    }
}

/// The tokens of `input`, the end-of-file token included. Every text whose byte positions
/// fit in 32 bits lexes, text that no token matches as error tokens; the tokens tile the
/// text from byte 0 to its end, each but the last non-empty, no error token after another,
/// and the last the single end-of-file token, at the end of the text. Each span starts and
/// ends on character boundaries.
pub fn tokenize(input: &str) -> (r: Vec<Token>)
    requires
        lexable(input@),
    ensures
        r@ == lex(input@),
        r@.len() >= 1,
        r@[0].span.start == 0,
        r@.last() == eof_token(input@),
        forall|k: int| 0 <= k < r@.len() - 1 ==> r@[k].kind != TokenKind::Eof,
        forall|k: int| 0 <= k < r@.len() - 1 ==> #[trigger] r@[k].span.end == r@[k + 1].span.start,
        forall|k: int|
            #![trigger r@[k].span.start, r@[k].span.end]
            0 <= k < r@.len() - 1 ==> r@[k].span.start < r@[k].span.end,
        forall|k: int, j: int|
            #![trigger r@[k].kind, r@[j].kind]
            0 <= k < r@.len() - 1 && j == k + 1 && r@[k].kind == TokenKind::Error ==> r@[j].kind != TokenKind::Error,
        forall|k: int| 0 <= k < r@.len() ==> #[trigger] span_ok(input@, r@[k].span),
{
    let mut lexer = Lexer::new(input);
    let mut out: Vec<Token> = Vec::new();
    let ghost cs = input@;
    loop
        invariant
            lexer.wf(),
            lexer.source() == cs,
            !lexer.finished() ==> out@ + lex_from(cs, lexer.cursor()) == lex(cs),
            lexer.finished() ==> out@ == lex(cs) && lexer.cursor() >= cs.len(),
        ensures
            out@ == lex(cs),
        decreases (cs.len() - lexer.cursor()) * 2 + (if lexer.finished() { 0int } else { 1int }),
    {
        let ghost before = lexer.cursor();
        match lexer.next() {
            None => {
                break;
            },
            Some(t) => {
                proof {
                    if before < cs.len() {
                        lemma_lex_from_unfold(cs, before);
                        lemma_step_len(cs, before);
                        assert(out@.push(t) + lex_from(cs, lexer.cursor()) =~= out@ + lex_from(
                            cs,
                            before,
                        ));
                    } else {
                        assert(lex_from(cs, before) == seq![eof_token(cs)]);
                        assert(out@.push(t) =~= out@ + lex_from(cs, before));
                    }
                }
                out.push(t);
            },
        }
    }
    proof {
        lemma_tokens_tile(cs);
        lemma_spans_ok_from(cs, 0);
    }
    out
}

} // verus!
