//! Markdown documentation of a datalog file: its comments become text, its code becomes
//! fenced `prolog` blocks, and each type or relation it declares gets a heading. Sections end
//! at blank lines; preprocessor directives are left out.

use vstd::prelude::*;
use crate::lexer::{is_white_space, is_whitespace};
use crate::tab_delim::{lines_of, text_lines};
use crate::text::{char_seqs, chars_of, push_chars, push_str, slice, string_of, trim, trim_chars};

verus! {

/// The first index at or after `i` where `s` holds no whitespace, or its end.
pub open spec fn skip_ws(s: Seq<char>, i: int) -> int
    decreases s.len() - i,
{
    if 0 <= i < s.len() && is_white_space(s[i]) {
        skip_ws(s, i + 1)
    } else {
        i
    }
}

/// The first index at or after `i` where `s` holds whitespace, or its end: the end of the
/// word that begins at `i`.
pub open spec fn word_end(s: Seq<char>, i: int) -> int
    decreases s.len() - i,
{
    if 0 <= i < s.len() && !is_white_space(s[i]) {
        word_end(s, i + 1)
    } else {
        i
    }
}

/// An ASCII letter or an underscore.
pub open spec fn is_title_char(c: char) -> bool {
    ||| 'a' <= c <= 'z'
    ||| 'A' <= c <= 'Z'
    ||| c == '_'
}

/// The first index at or after `i` where `s` holds no ASCII letter or underscore, or its end.
pub open spec fn title_end(s: Seq<char>, i: int) -> int
    decreases s.len() - i,
{
    if 0 <= i < s.len() && is_title_char(s[i]) {
        title_end(s, i + 1)
    } else {
        i
    }
}

/// A line of a datalog file, by what it holds once trimmed.
pub enum DocLine {
    /// A blank line, which ends a section.
    Blank,
    /// A preprocessor directive (`#...`), left out.
    Directive,
    /// A comment (`//...`): its text after the slashes, without leading whitespace.
    Comment(Seq<char>),
    /// A line of code, and where its first word is `.type` or `.decl`, the title of what it
    /// declares: the letters and underscores that begin its second word.
    Code(Seq<char>, Option<Seq<char>>),
}

/// What the line `line` of a datalog file is.
pub open spec fn doc_line(line: Seq<char>) -> DocLine {
    let t = trim(line);
    if t.len() == 0 {
        DocLine::Blank
    } else if t[0] == '#' {
        DocLine::Directive
    } else if t.len() >= 2 && t[0] == '/' && t[1] == '/' {
        DocLine::Comment(t.subrange(skip_ws(t, 2), t.len() as int))
    } else {
        let first = t.subrange(0, word_end(t, 0));
        if first == ".type"@ || first == ".decl"@ {
            let j = skip_ws(t, word_end(t, 0));
            DocLine::Code(t, Some(t.subrange(j, title_end(t, j))))
        } else {
            DocLine::Code(t, None)
        }
    }
}

/// The lines of `ls`, each followed by a newline.
pub open spec fn lines_text(ls: Seq<Seq<char>>) -> Seq<char>
    decreases ls.len(),
{
    if ls.len() == 0 {
        Seq::empty()
    } else {
        lines_text(ls.drop_last()) + ls.last() + seq!['\n']
    }
}

/// The markdown of a section: its comments, a blank line where the last of them is not
/// blank, and its code in a fenced `prolog` block.
pub open spec fn section(comments: Seq<Seq<char>>, code: Seq<Seq<char>>) -> Seq<char> {
    let text = lines_text(comments) + if comments.len() > 0 && comments.last().len() > 0 {
        seq!['\n']
    } else {
        Seq::empty()
    };
    if code.len() > 0 {
        text + "```prolog\n"@ + lines_text(code) + "```\n\n"@
    } else {
        text
    }
}

/// The heading of a declaration of `title`.
pub open spec fn heading(title: Seq<char>) -> Seq<char> {
    "#### `"@ + title + seq!['`']
}

/// Where the reading of a datalog file stands: the comments and the code of the current
/// section, and the markdown of the sections before it.
pub struct DocState {
    pub comments: Seq<Seq<char>>,
    pub code: Seq<Seq<char>>,
    pub out: Seq<char>,
}

/// The reading of one more line.
pub open spec fn doc_step(s: DocState, l: DocLine) -> DocState {
    match l {
        DocLine::Blank => if s.comments.len() > 0 || s.code.len() > 0 {
            DocState { comments: Seq::empty(), code: Seq::empty(), out: s.out + section(s.comments, s.code) }
        } else {
            s
        },
        DocLine::Directive => s,
        DocLine::Comment(c) => DocState { comments: s.comments.push(c), ..s },
        DocLine::Code(t, None) => DocState { code: s.code.push(t), ..s },
        DocLine::Code(t, Some(title)) => DocState {
            comments: seq![heading(title), Seq::empty()] + s.comments,
            code: s.code.push(t),
            ..s
        },
    }
}

/// The reading of the lines `ls`.
pub open spec fn doc_read(ls: Seq<Seq<char>>) -> DocState
    decreases ls.len(),
{
    if ls.len() == 0 {
        DocState { comments: Seq::empty(), code: Seq::empty(), out: Seq::empty() }
    } else {
        doc_step(doc_read(ls.drop_last()), doc_line(ls.last()))
    }
}

/// The markdown of the datalog `text`: the sections that blank lines end, and the last one.
pub open spec fn markdown(text: Seq<char>) -> Seq<char> {
    let s = doc_read(text_lines(text));
    s.out + section(s.comments, s.code)
}

/// Whether in each section of the lines `ls`, the comments come before the code.
pub open spec fn comments_lead(ls: Seq<Seq<char>>) -> bool {
    forall|i: int| 0 <= i < ls.len() && (#[trigger] doc_line(ls[i])) is Comment ==> doc_read(ls.take(i)).code.len() == 0
}

/// A line of a datalog file, read.
enum Line {
    Blank,
    Directive,
    Comment(Vec<char>),
    Code(Vec<char>, Option<Vec<char>>),
}

/// What a read line stands for.
spec fn line_view(l: Line) -> DocLine {
    match l {
        Line::Blank => DocLine::Blank,
        Line::Directive => DocLine::Directive,
        Line::Comment(c) => DocLine::Comment(c@),
        Line::Code(t, None) => DocLine::Code(t@, None),
        Line::Code(t, Some(title)) => DocLine::Code(t@, Some(title@)),
    }
}

/// The first index at or after `i` where `s` holds no whitespace, or its end.
fn skip_ws_at(s: &Vec<char>, i: usize) -> (r: usize)
    requires
        i <= s.len(),
    ensures
        r == skip_ws(s@, i as int),
        i <= r <= s.len(),
{
    let mut k = i;
    while k < s.len() && is_whitespace(s[k])
        invariant
            i <= k <= s.len(),
            skip_ws(s@, k as int) == skip_ws(s@, i as int),
        decreases s.len() - k,
    {
        k = k + 1;
    }
    k
}

/// The first index at or after `i` where `s` holds whitespace, or its end.
fn word_end_at(s: &Vec<char>, i: usize) -> (r: usize)
    requires
        i <= s.len(),
    ensures
        r == word_end(s@, i as int),
        i <= r <= s.len(),
{
    let mut k = i;
    while k < s.len() && !is_whitespace(s[k])
        invariant
            i <= k <= s.len(),
            word_end(s@, k as int) == word_end(s@, i as int),
        decreases s.len() - k,
    {
        k = k + 1;
    }
    k
}

/// The first index at or after `i` where `s` holds no ASCII letter or underscore, or its end.
fn title_end_at(s: &Vec<char>, i: usize) -> (r: usize)
    requires
        i <= s.len(),
    ensures
        r == title_end(s@, i as int),
        i <= r <= s.len(),
{
    let mut k = i;
    while k < s.len() && (('a' <= s[k] && s[k] <= 'z') || ('A' <= s[k] && s[k] <= 'Z') || s[k] == '_')
        invariant
            i <= k <= s.len(),
            title_end(s@, k as int) == title_end(s@, i as int),
        decreases s.len() - k,
    {
        k = k + 1;
    }
    k
}

/// Whether the first `end` characters of `s` are those of `w`.
fn is_word(s: &Vec<char>, end: usize, w: &str) -> (r: bool)
    requires
        end <= s.len(),
    ensures
        r == (s@.subrange(0, end as int) == w@),
{
    let wc = chars_of(w);
    if wc.len() != end {
        proof {
            if s@.subrange(0, end as int) == w@ {
                assert(s@.subrange(0, end as int).len() == wc@.len());
            }
        }
        return false;
    }
    let mut k: usize = 0;
    while k < end
        invariant
            k <= end,
            end == wc@.len(),
            end <= s@.len(),
            wc@ == w@,
            forall|m: int| 0 <= m < k ==> s@[m] == wc@[m],
        decreases end - k,
    {
        if s[k] != wc[k] {
            proof {
                assert(s@.subrange(0, end as int)[k as int] != w@[k as int]);
            }
            return false;
        }
        k = k + 1;
    }
    proof {
        assert(s@.subrange(0, end as int) =~= w@);
    }
    true
}

/// What the line `line` of a datalog file is (see [`doc_line`]).
fn read_line(line: &Vec<char>) -> (r: Line)
    ensures
        line_view(r) == doc_line(line@),
{
    let t = trim_chars(line);
    let n = t.len();
    if n == 0 {
        return Line::Blank;
    }
    if t[0] == '#' {
        return Line::Directive;
    }
    if n >= 2 && t[0] == '/' && t[1] == '/' {
        let a = skip_ws_at(&t, 2);
        return Line::Comment(slice(&t, a, n));
    }
    let e = word_end_at(&t, 0);
    if is_word(&t, e, ".type") || is_word(&t, e, ".decl") {
        let j = skip_ws_at(&t, e);
        let k = title_end_at(&t, j);
        let title = slice(&t, j, k);
        Line::Code(t, Some(title))
    } else {
        Line::Code(t, None)
    }
}

/// Appends the lines of `ls` to `out`, each followed by a newline.
fn push_lines(out: &mut Vec<char>, ls: &Vec<Vec<char>>)
    ensures
        final(out)@ == old(out)@ + lines_text(char_seqs(ls@)),
{
    let ghost start = out@;
    let mut i: usize = 0;
    while i < ls.len()
        invariant
            i <= ls@.len(),
            out@ == start + lines_text(char_seqs(ls@).take(i as int)),
        decreases ls@.len() - i,
    {
        push_chars(out, &ls[i]);
        out.push('\n');
        proof {
            let t = char_seqs(ls@).take(i + 1);
            assert(t.drop_last() =~= char_seqs(ls@).take(i as int));
            assert(t.last() == ls@[i as int]@);
            assert(out@ =~= start + lines_text(t));
        }
        i = i + 1;
    }
    proof {
        assert(char_seqs(ls@).take(ls@.len() as int) =~= char_seqs(ls@));
    }
}

/// Appends the markdown of a section to `out` (see [`section`]).
fn push_section(out: &mut Vec<char>, comments: &Vec<Vec<char>>, code: &Vec<Vec<char>>)
    ensures
        final(out)@ == old(out)@ + section(char_seqs(comments@), char_seqs(code@)),
{
    push_lines(out, comments);
    let n = comments.len();
    if n > 0 && comments[n - 1].len() > 0 {
        out.push('\n');
    }
    if code.len() > 0 {
        push_str(out, "```prolog\n");
        push_lines(out, code);
        push_str(out, "```\n\n");
    }
    proof {
        let cs = char_seqs(comments@);
        if n > 0 {
            assert(cs.last() == comments@[n - 1]@);
        }
    }
}

/// The markdown of the datalog `text` (see [`markdown`]): the comments of each section, the
/// heading of each declaration, and the code in fenced `prolog` blocks. In each section the
/// comments must come before the code.
pub fn datalog_to_markdown(text: &str) -> (r: String)
    requires
        comments_lead(text_lines(text@)),
    ensures
        r@ == markdown(text@),
{
    let chars = chars_of(text);
    let lines = lines_of(&chars);
    let ghost ls = text_lines(text@);
    let mut comments: Vec<Vec<char>> = Vec::new();
    let mut code: Vec<Vec<char>> = Vec::new();
    let mut out: Vec<char> = Vec::new();
    proof {
        assert(ls.take(0) =~= Seq::<Seq<char>>::empty());
        assert(char_seqs(comments@) =~= Seq::<Seq<char>>::empty());
        assert(char_seqs(code@) =~= Seq::<Seq<char>>::empty());
        assert(out@ =~= Seq::<char>::empty());
    }
    let mut i: usize = 0;
    while i < lines.len()
        invariant
            char_seqs(lines@) == ls,
            ls == text_lines(text@),
            comments_lead(ls),
            i <= lines@.len(),
            doc_read(ls.take(i as int)) == (DocState { comments: char_seqs(comments@), code: char_seqs(code@), out: out@ }),
        decreases lines@.len() - i,
    {
        let l = read_line(&lines[i]);
        let ghost before = DocState { comments: char_seqs(comments@), code: char_seqs(code@), out: out@ };
        proof {
            assert(lines@[i as int]@ == ls[i as int]);
            assert(ls.take(i + 1).drop_last() =~= ls.take(i as int));
            assert(ls.take(i + 1).last() == ls[i as int]);
        }
        match l {
            Line::Blank => {
                if comments.len() > 0 || code.len() > 0 {
                    push_section(&mut out, &comments, &code);
                    comments = Vec::new();
                    code = Vec::new();
                    proof {
                        assert(char_seqs(comments@) =~= Seq::<Seq<char>>::empty());
                        assert(char_seqs(code@) =~= Seq::<Seq<char>>::empty());
                    }
                }
            },
            Line::Directive => {},
            Line::Comment(c) => {
                let ghost cv = c@;
                comments.push(c);
                proof {
                    assert(char_seqs(comments@) =~= before.comments.push(cv));
                }
            },
            Line::Code(t, None) => {
                let ghost tv = t@;
                code.push(t);
                proof {
                    assert(char_seqs(code@) =~= before.code.push(tv));
                }
            },
            Line::Code(t, Some(title)) => {
                let ghost tv = t@;
                let ghost titlev = title@;
                let mut h: Vec<char> = Vec::new();
                push_str(&mut h, "#### `");
                push_chars(&mut h, &title);
                h.push('`');
                let mut fresh: Vec<Vec<char>> = Vec::new();
                fresh.push(h);
                fresh.push(Vec::new());
                proof {
                    assert(h@ =~= heading(titlev));
                    assert(fresh@[1]@ =~= Seq::<char>::empty());
                    assert(char_seqs(comments@).take(0) =~= Seq::<Seq<char>>::empty());
                    assert(char_seqs(fresh@) =~= seq![heading(titlev), Seq::<char>::empty()] + char_seqs(comments@).take(0));
                }
                let mut m: usize = 0;
                while m < comments.len()
                    invariant
                        m <= comments@.len(),
                        char_seqs(fresh@) == seq![heading(titlev), Seq::<char>::empty()] + char_seqs(comments@).take(m as int),
                    decreases comments@.len() - m,
                {
                    let ghost fb = char_seqs(fresh@);
                    fresh.push(slice(&comments[m], 0, comments[m].len()));
                    proof {
                        assert(comments@[m as int]@.subrange(0, comments@[m as int]@.len() as int) =~= comments@[m as int]@);
                        assert(char_seqs(fresh@) =~= fb.push(comments@[m as int]@));
                        assert(char_seqs(comments@).take(m + 1) =~= char_seqs(comments@).take(m as int).push(comments@[m as int]@));
                    }
                    m = m + 1;
                }
                proof {
                    assert(char_seqs(comments@).take(comments@.len() as int) =~= char_seqs(comments@));
                }
                comments = fresh;
                code.push(t);
                proof {
                    assert(char_seqs(code@) =~= before.code.push(tv));
                }
            },
        }
        i = i + 1;
    }
    proof {
        assert(ls.take(lines@.len() as int) =~= ls);
    }
    push_section(&mut out, &comments, &code);
    string_of(&out)
}

/// Whether in each section of the datalog `text`, the comments come before the code: what
/// [`datalog_to_markdown`] requires.
pub fn comments_lead_code(text: &str) -> (r: bool)
    ensures
        r == comments_lead(text_lines(text@)),
{
    let chars = chars_of(text);
    let lines = lines_of(&chars);
    let ghost ls = text_lines(text@);
    let mut no_code = true;
    let mut i: usize = 0;
    while i < lines.len()
        invariant
            char_seqs(lines@) == ls,
            ls == text_lines(text@),
            i <= lines@.len(),
            no_code == (doc_read(ls.take(i as int)).code.len() == 0),
            forall|k: int| 0 <= k < i && (#[trigger] doc_line(ls[k])) is Comment ==> doc_read(ls.take(k)).code.len() == 0,
        decreases lines@.len() - i,
    {
        let l = read_line(&lines[i]);
        proof {
            assert(lines@[i as int]@ == ls[i as int]);
            assert(ls.take(i + 1).drop_last() =~= ls.take(i as int));
            assert(ls.take(i + 1).last() == ls[i as int]);
        }
        match l {
            Line::Blank => {
                no_code = true;
            },
            Line::Directive => {},
            Line::Comment(_) => {
                if !no_code {
                    proof {
                        assert(doc_line(ls[i as int]) is Comment);
                        assert(doc_read(ls.take(i as int)).code.len() != 0);
                        assert(!comments_lead(ls));
                    }
                    return false;
                }
            },
            Line::Code(_, _) => {
                no_code = false;
            },
        }
        i = i + 1;
    }
    proof {
        assert(ls.len() == lines@.len());
    }
    true
}

} // verus!
