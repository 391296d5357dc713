//! The errors of the parser, and their messages.

use vstd::prelude::*;
use crate::token::{Span, TokenKind, kind_text};
use crate::text::{decimal, push_chars, push_decimal, push_str, string_of};

verus! {

/// A parse error.
#[derive(Debug)]
pub enum ParseError {
    /// The parser found a token of kind `found` at `position`, where it expected one of the
    /// kinds of `expected`.
    UnexpectedToken { found: TokenKind, expected: Vec<TokenKind>, position: Span },
}

/// The abstract value of a [`ParseError`]: the kind found, the kinds expected, the position.
pub struct ParseErrorV {
    pub found: TokenKind,
    pub expected: Seq<TokenKind>,
    pub position: Span,
}

impl View for ParseError {
    type V = ParseErrorV;

    open spec fn view(&self) -> ParseErrorV {
        match self {
            ParseError::UnexpectedToken { found, expected, position } => ParseErrorV {
                found: *found,
                expected: expected@,
                position: *position,
            },
        }
    }
}

/// A token kind between single quotes.
pub open spec fn quoted(k: TokenKind) -> Seq<char> {
    seq!['\''] + kind_text(k) + seq!['\'']
}

/// The quoted token kinds, separated by `", "`.
pub open spec fn quoted_list(ks: Seq<TokenKind>) -> Seq<char>
    decreases ks.len(),
{
    if ks.len() == 0 {
        seq![]
    } else if ks.len() == 1 {
        quoted(ks[0])
    } else {
        quoted_list(ks.drop_last()) + seq![',', ' '] + quoted(ks.last())
    }
}

/// The last index at which `", "` stands in `s`, looking at indices below `end`.
pub open spec fn last_separator(s: Seq<char>, end: int) -> Option<int>
    decreases end,
{
    if end < 2 || end > s.len() {
        None
    } else if s[end - 2] == ',' && s[end - 1] == ' ' {
        Some(end - 2)
    } else {
        last_separator(s, end - 1)
    }
}

/// The text of a list of expected token kinds. When the list has a separator, the text is
/// prefixed with `"one of "`, and the two characters at the index where the last separator
/// stood before that prefix was added are replaced by `" or "`.
pub open spec fn token_list_text(ks: Seq<TokenKind>) -> Seq<char> {
    let s = quoted_list(ks);
    match last_separator(s, s.len() as int) {
        Some(p) => {
            let t = "one of "@ + s;
            t.subrange(0, p) + " or "@ + t.subrange(p + 2, t.len() as int)
        },
        None => s,
    }
}

/// The message of a parse error.
pub open spec fn error_message(e: ParseErrorV) -> Seq<char> {
    "Unexpected token at "@ + decimal(e.position.start as nat) + "-"@ + decimal(
        e.position.end as nat,
    ) + ": found '"@ + kind_text(e.found) + "', but expected "@ + token_list_text(e.expected)
}

fn push_quoted(v: &mut Vec<char>, k: TokenKind)
    ensures
        final(v)@ == old(v)@ + quoted(k),
{
    v.push('\'');
    push_str(v, k.as_str());
    v.push('\'');
    proof {
        assert(final(v)@ =~= old(v)@ + quoted(k));
    }
}

fn token_list_chars(tokens: &Vec<TokenKind>) -> (r: Vec<char>)
    ensures
        r@ == token_list_text(tokens@),
{
    let mut s: Vec<char> = Vec::new();
    let mut i: usize = 0;
    while i < tokens.len()
        invariant
            i <= tokens@.len(),
            s@ == quoted_list(tokens@.take(i as int)),
        decreases tokens@.len() - i,
    {
        let ghost before = s@;
        if i > 0 {
            s.push(',');
            s.push(' ');
        }
        push_quoted(&mut s, tokens[i]);
        proof {
            let t = tokens@.take(i + 1);
            assert(t.drop_last() =~= tokens@.take(i as int));
            assert(t.last() == tokens@[i as int]);
            if i == 0 {
                assert(s@ =~= quoted(tokens@[0]));
            } else {
                assert(s@ =~= before + seq![',', ' '] + quoted(tokens@[i as int]));
            }
        }
        i = i + 1;
    }
    proof {
        assert(tokens@.take(tokens@.len() as int) =~= tokens@);
    }
    // find the last separator
    let mut end = s.len();
    while end >= 2 && !(s[end - 2] == ',' && s[end - 1] == ' ')
        invariant
            end <= s@.len(),
            last_separator(s@, s@.len() as int) == last_separator(s@, end as int),
        decreases end,
    {
        end = end - 1;
    }
    if end >= 2 {
        let p = end - 2;
        let mut t: Vec<char> = Vec::new();
        push_str(&mut t, "one of ");
        push_chars(&mut t, &s);
        let mut out: Vec<char> = Vec::new();
        let mut k: usize = 0;
        proof {
            reveal_strlit("one of ");
        }
        while k < p
            invariant
                p + 2 <= s@.len(),
                t@ == "one of "@ + s@,
                k <= p,
                out@ == t@.subrange(0, k as int),
            decreases p - k,
        {
            out.push(t[k]);
            proof {
                assert(t@.subrange(0, k + 1) =~= t@.subrange(0, k as int).push(t@[k as int]));
            }
            k = k + 1;
        }
        push_str(&mut out, " or ");
        let mut k2: usize = p + 2;
        let ghost mid = out@;
        while k2 < t.len()
            invariant
                p + 2 <= k2 <= t@.len(),
                mid == t@.subrange(0, p as int) + " or "@,
                out@ == mid + t@.subrange(p + 2, k2 as int),
            decreases t@.len() - k2,
        {
            out.push(t[k2]);
            proof {
                assert(t@.subrange(p + 2, k2 + 1) =~= t@.subrange(p + 2, k2 as int).push(t@[k2 as int]));
            }
            k2 = k2 + 1;
        }
        out
    } else {
        s
    }
}

/// The text of a list of expected token kinds (see [`token_list_text`]).
pub fn token_list_to_string(tokens: &Vec<TokenKind>) -> (r: String)
    ensures
        r@ == token_list_text(tokens@),
{
    string_of(&token_list_chars(tokens))
}

impl ParseError {
    /// The message of this error:
    /// `"Unexpected token at {start}-{end}: found '{found}', but expected {list}"`.
    pub fn to_string(&self) -> (r: String)
        ensures
            r@ == error_message(self@),
    {
        match self {
            ParseError::UnexpectedToken { found, expected, position } => {
                let mut v: Vec<char> = Vec::new();
                push_str(&mut v, "Unexpected token at ");
                push_decimal(&mut v, position.start as u64);
                push_str(&mut v, "-");
                push_decimal(&mut v, position.end as u64);
                push_str(&mut v, ": found '");
                push_str(&mut v, found.as_str());
                push_str(&mut v, "', but expected ");
                let list = token_list_chars(expected);
                push_chars(&mut v, &list);
                proof {
                    assert(v@ =~= error_message(self@));
                }
                string_of(&v)
            },
        }
    }
}

} // verus!
