//! Datalog rules: a small data model of atoms, literals and rules, their text form, and a
//! primitive parser of that text form.
//!
//! The parser reads _valid_ rules only, with no error checking: each rule is the text form
//! of a [`Rule`], rules end with a `.`, and whitespace between tokens is ignored. Its
//! contract states the inputs it accepts ([`parseable`]) and the rules it reads from them
//! ([`rules_of`]).

use vstd::prelude::*;
use crate::ir::strs_view;
use crate::text::{
    char_seqs, chars_of, find_char, index_from, index_of, join, push_chars, push_joined, push_str,
    slice, split, split_chars, starts_with, string_of, trim, trim_chars,
};

verus! {

/// Whether a predicate is used only as input, or produces new tuples.
#[derive(Debug, PartialEq, Eq, Structural, Clone, Hash)]
pub enum PredicateKind {
    Extensional,
    Intensional,
}

/// An atom, or relational atom, is a building block used in rules, also known as subgoal,
/// describing a relation name and the name of its components.
#[derive(Debug, Clone, PartialEq, Eq, Hash)]
pub struct Atom {
    pub predicate: String,
    pub args: Vec<String>,
}

/// A richer type of relation/atom, which can be negated, and used as premises/hypotheses in
/// rules.
#[derive(Debug, Clone, PartialEq, Eq, Hash)]
pub struct Literal {
    pub atom: Atom,
    pub is_negated: bool,
    pub kind: PredicateKind,
}

/// A specific type of Horn clause relating the premises/hypotheses/antecedents/conditions in
/// its body to the conclusion/consequent in its head.
#[derive(Debug, PartialEq, Eq, Hash)]
pub struct Rule {
    pub head: Atom,
    pub body: Vec<Literal>,
}

/// The abstract value of an [`Atom`].
pub struct AtomV {
    pub predicate: Seq<char>,
    pub args: Seq<Seq<char>>,
}

/// The abstract value of a [`Literal`].
pub struct LiteralV {
    pub atom: AtomV,
    pub is_negated: bool,
    pub kind: PredicateKind,
}

/// The abstract value of a [`Rule`].
pub struct RuleV {
    pub head: AtomV,
    pub body: Seq<LiteralV>,
}

impl View for Atom {
    type V = AtomV;

    open spec fn view(&self) -> AtomV {
        AtomV { predicate: self.predicate@, args: strs_view(self.args@) }
    }
}

impl View for Literal {
    type V = LiteralV;

    open spec fn view(&self) -> LiteralV {
        LiteralV { atom: self.atom@, is_negated: self.is_negated, kind: self.kind }
    }
}

/// The abstract values of literals.
pub open spec fn literals_view(v: Seq<Literal>) -> Seq<LiteralV> {
    v.map_values(|l: Literal| l@)
}

impl View for Rule {
    type V = RuleV;

    open spec fn view(&self) -> RuleV {
        RuleV { head: self.head@, body: literals_view(self.body@) }
    }
}

/// The abstract values of rules.
pub open spec fn rules_view(v: Seq<Rule>) -> Seq<RuleV> {
    v.map_values(|r: Rule| r@)
}

/// `", "`, which separates arguments and literals.
pub open spec fn comma_space() -> Seq<char> {
    seq![',', ' ']
}

/// The text form of an atom: `predicate(arg, arg, ...)`.
pub open spec fn atom_text(a: AtomV) -> Seq<char> {
    a.predicate + seq!['('] + join(a.args, comma_space()) + seq![')']
}

/// The text form of a literal: its atom, after a `!` when it is negated.
pub open spec fn literal_text(l: LiteralV) -> Seq<char> {
    (if l.is_negated { seq!['!'] } else { Seq::empty() }) + atom_text(l.atom)
}

/// The text form of a rule: `head :- literal, literal, ... .`.
pub open spec fn rule_text(r: RuleV) -> Seq<char> {
    atom_text(r.head) + seq![' ', ':', '-', ' '] + join(r.body.map_values(|l: LiteralV| literal_text(l)), comma_space())
        + seq!['.']
}

/// The atom read from the head text `h`: the predicate is what comes before the first `(`,
/// the arguments are what stands between it and the first `)` after it, split at each `", "`.
pub open spec fn head_atom(h: Seq<char>) -> AtomV {
    let idx = index_of(h, '(')->0;
    let args = h.skip(idx);
    let end = index_of(args, ')')->0;
    AtomV { predicate: h.take(idx), args: split(args.subrange(1, end), comma_space()) }
}

/// Whether a head text has a `(` and a `)` after it.
pub open spec fn head_ok(h: Seq<char>) -> bool {
    &&& index_of(h, '(') is Some
    &&& index_of(h.skip(index_of(h, '(')->0), ')') is Some
}

/// The literal read from a piece of a rule body, once trimmed: what comes before the first
/// `(` is the predicate, negated when it begins with `!`; the arguments run from there to
/// the first `)`, or to the end of the piece when there is none.
pub open spec fn body_literal(text: Seq<char>) -> LiteralV {
    let lit = trim(text);
    let idx = index_of(lit, '(')->0;
    let pred = lit.take(idx);
    let negated = starts_with(pred, seq!['!']);
    let args = lit.skip(idx);
    let inner = match index_of(args, ')') {
        Some(end) => args.subrange(1, end),
        None => args.skip(1),
    };
    LiteralV {
        atom: AtomV {
            predicate: if negated { pred.skip(1) } else { pred },
            args: split(inner, comma_space()),
        },
        is_negated: negated,
        kind: PredicateKind::Extensional,
    }
}

/// Whether a piece of a rule body has a `(`.
pub open spec fn literal_ok(text: Seq<char>) -> bool {
    index_of(trim(text), '(') is Some
}

/// The pieces of a rule's body: its text after `:-`, trimmed, split at each `"),"`.
pub open spec fn body_pieces(r: Seq<char>) -> Seq<Seq<char>> {
    split(trim(split(r, seq![':', '-'])[1]), seq![')', ','])
}

/// The rule read from the text `r` of one rule: the head before the first `:-`, and the body
/// after it.
pub open spec fn rule_of(r: Seq<char>) -> RuleV {
    RuleV {
        head: head_atom(trim(split(r, seq![':', '-'])[0])),
        body: body_pieces(r).map_values(|t: Seq<char>| body_literal(t)),
    }
}

/// Whether the text of one rule has a `:-`, a head with both parentheses, and a `(` in each
/// piece of its body.
pub open spec fn rule_ok(r: Seq<char>) -> bool {
    &&& split(r, seq![':', '-']).len() >= 2
    &&& head_ok(trim(split(r, seq![':', '-'])[0]))
    &&& forall|k: int| 0 <= k < body_pieces(r).len() ==> literal_ok(#[trigger] body_pieces(r)[k])
}

/// The trimmed pieces that are not empty.
pub open spec fn nonempty_trimmed(pieces: Seq<Seq<char>>) -> Seq<Seq<char>>
    decreases pieces.len(),
{
    if pieces.len() == 0 {
        seq![]
    } else if trim(pieces.last()).len() > 0 {
        nonempty_trimmed(pieces.drop_last()).push(trim(pieces.last()))
    } else {
        nonempty_trimmed(pieces.drop_last())
    }
}

/// The texts of the rules of a program: its pieces between the `.`s, trimmed, the empty ones
/// left out.
pub open spec fn rule_texts(text: Seq<char>) -> Seq<Seq<char>> {
    nonempty_trimmed(split(text, seq!['.']))
}

/// Whether each rule of the program can be read.
pub open spec fn parseable(text: Seq<char>) -> bool {
    forall|k: int| 0 <= k < rule_texts(text).len() ==> rule_ok(#[trigger] rule_texts(text)[k])
}

/// The rules of a program, in order.
pub open spec fn rules_of(text: Seq<char>) -> Seq<RuleV> {
    rule_texts(text).map_values(|r: Seq<char>| rule_of(r))
}

/// The lines of a program, trimmed, those that begin with `//` left out, put end to end.
pub open spec fn clean_lines(lines: Seq<Seq<char>>) -> Seq<char>
    decreases lines.len(),
{
    if lines.len() == 0 {
        seq![]
    } else {
        let t = trim(lines.last());
        clean_lines(lines.drop_last()) + (if starts_with(t, seq!['/', '/']) { Seq::empty() } else { t })
    }
}

/// A program without its comment lines and its line breaks. Lines are split at `'\n'`; the
/// `'\r'` of a `"\r\n"` ending goes with the trimming.
pub open spec fn clean(text: Seq<char>) -> Seq<char> {
    clean_lines(split(text, seq!['\n']))
}

/// Where `index_from` finds a character, it stands there, and not before.
pub proof fn lemma_index_from(s: Seq<char>, c: char, i: int)
    requires
        0 <= i,
    ensures
        index_from(s, c, i) matches Some(j) ==> i <= j < s.len() && s[j] == c,
        index_from(s, c, i) matches Some(j) ==> forall|k: int| i <= k < j ==> s[k] != c,
        index_from(s, c, i) is None ==> forall|k: int| i <= k < s.len() ==> s[k] != c,
    decreases s.len() - i,
{
    if i < s.len() && s[i] != c {
        lemma_index_from(s, c, i + 1);
    }
}

/// The strings made of each character sequence.
fn strings_of(pieces: &Vec<Vec<char>>) -> (r: Vec<String>)
    ensures
        strs_view(r@) == char_seqs(pieces@),
{
    let mut out: Vec<String> = Vec::new();
    let mut i: usize = 0;
    while i < pieces.len()
        invariant
            i <= pieces.len(),
            strs_view(out@) == char_seqs(pieces@).take(i as int),
        decreases pieces.len() - i,
    {
        let s = string_of(&pieces[i]);
        let ghost before = out@;
        out.push(s);
        proof {
            assert(strs_view(out@) =~= strs_view(before).push(s@));
            assert(char_seqs(pieces@).take(i + 1) =~= char_seqs(pieces@).take(i as int).push(pieces@[i as int]@));
        }
        i = i + 1;
    }
    proof {
        assert(char_seqs(pieces@).take(pieces.len() as int) =~= char_seqs(pieces@));
    }
    out
}

/// The characters `", "`.
fn comma_space_chars() -> (r: Vec<char>)
    ensures
        r@ == comma_space(),
{
    let mut v: Vec<char> = Vec::new();
    v.push(',');
    v.push(' ');
    proof {
        assert(v@ =~= comma_space());
    }
    v
}

/// The string of `s`.
fn owned(s: &str) -> (r: String)
    ensures
        r@ == s@,
{
    s.to_owned()
}

impl Atom {
    /// The atom `predicate(args...)`.
    pub fn new(predicate: &str, args: Vec<&str>) -> (r: Atom)
        ensures
            r@.predicate == predicate@,
            r@.args == args@.map_values(|s: &str| s@),
    {
        let mut owned_args: Vec<String> = Vec::new();
        let mut i: usize = 0;
        while i < args.len()
            invariant
                i <= args.len(),
                strs_view(owned_args@) == args@.map_values(|s: &str| s@).take(i as int),
            decreases args.len() - i,
        {
            let s = owned(args[i]);
            let ghost before = owned_args@;
            owned_args.push(s);
            proof {
                assert(strs_view(owned_args@) =~= strs_view(before).push(s@));
                assert(args@.map_values(|s: &str| s@).take(i + 1) =~= args@.map_values(|s: &str| s@).take(
                    i as int,
                ).push(args@[i as int]@));
            }
            i = i + 1;
        }
        proof {
            assert(args@.map_values(|s: &str| s@).take(args.len() as int) =~= args@.map_values(|s: &str| s@));
        }
        Atom { predicate: owned(predicate), args: owned_args }
    }

    /// The text form of the atom (see [`atom_text`]).
    pub fn to_string(&self) -> (r: String)
        ensures
            r@ == atom_text(self@),
    {
        let mut v: Vec<char> = Vec::new();
        self.push_text(&mut v);
        string_of(&v)
    }

    /// Appends the text form of the atom to `v`.
    fn push_text(&self, v: &mut Vec<char>)
        ensures
            final(v)@ == old(v)@ + atom_text(self@),
    {
        push_str(v, self.predicate.as_str());
        v.push('(');
        let mut pieces: Vec<Vec<char>> = Vec::new();
        let mut i: usize = 0;
        while i < self.args.len()
            invariant
                i <= self.args.len(),
                char_seqs(pieces@) == strs_view(self.args@).take(i as int),
            decreases self.args.len() - i,
        {
            let c = chars_of(self.args[i].as_str());
            let ghost before = pieces@;
            pieces.push(c);
            proof {
                assert(char_seqs(pieces@) =~= char_seqs(before).push(c@));
                assert(strs_view(self.args@).take(i + 1) =~= strs_view(self.args@).take(i as int).push(
                    self.args@[i as int]@,
                ));
            }
            i = i + 1;
        }
        proof {
            assert(strs_view(self.args@).take(self.args.len() as int) =~= strs_view(self.args@));
        }
        push_joined(v, &pieces, &comma_space_chars());
        v.push(')');
        proof {
            let a = self@;
            assert(final(v)@ =~= old(v)@ + atom_text(a));
        }
    }
}

impl Literal {
    /// The literal `predicate(args...)`, not negated.
    pub fn new(predicate: &str, args: Vec<&str>) -> (r: Literal)
        ensures
            r@.atom.predicate == predicate@,
            r@.atom.args == args@.map_values(|s: &str| s@),
            !r@.is_negated,
            r@.kind == PredicateKind::Extensional,
    {
        Literal { atom: Atom::new(predicate, args), is_negated: false, kind: PredicateKind::Extensional }
    }

    /// The negated literal `!predicate(args...)`.
    pub fn new_anti(predicate: &str, args: Vec<&str>) -> (r: Literal)
        ensures
            r@.atom.predicate == predicate@,
            r@.atom.args == args@.map_values(|s: &str| s@),
            r@.is_negated,
            r@.kind == PredicateKind::Extensional,
    {
        Literal { atom: Atom::new(predicate, args), is_negated: true, kind: PredicateKind::Extensional }
    }

    /// The text form of the literal (see [`literal_text`]).
    pub fn to_string(&self) -> (r: String)
        ensures
            r@ == literal_text(self@),
    {
        let mut v: Vec<char> = Vec::new();
        self.push_text(&mut v);
        string_of(&v)
    }

    fn push_text(&self, v: &mut Vec<char>)
        ensures
            final(v)@ == old(v)@ + literal_text(self@),
    {
        let ghost start = v@;
        if self.is_negated {
            v.push('!');
        }
        let ghost mid = v@;
        self.atom.push_text(v);
        proof {
            if self.is_negated {
                assert(mid =~= start + seq!['!']);
            } else {
                assert(mid =~= start + Seq::<char>::empty());
            }
            assert(final(v)@ =~= start + literal_text(self@));
        }
    }
}

impl Rule {
    /// The text form of the rule (see [`rule_text`]).
    pub fn to_string(&self) -> (r: String)
        ensures
            r@ == rule_text(self@),
    {
        let mut v: Vec<char> = Vec::new();
        self.head.push_text(&mut v);
        push_str(&mut v, " :- ");
        let mut pieces: Vec<Vec<char>> = Vec::new();
        let ghost texts = self@.body.map_values(|l: LiteralV| literal_text(l));
        let mut i: usize = 0;
        while i < self.body.len()
            invariant
                i <= self.body.len(),
                texts == self@.body.map_values(|l: LiteralV| literal_text(l)),
                char_seqs(pieces@) == texts.take(i as int),
            decreases self.body.len() - i,
        {
            let mut t: Vec<char> = Vec::new();
            self.body[i].push_text(&mut t);
            let ghost before = pieces@;
            pieces.push(t);
            proof {
                assert(char_seqs(pieces@) =~= char_seqs(before).push(t@));
                assert(texts.take(i + 1) =~= texts.take(i as int).push(texts[i as int]));
            }
            i = i + 1;
        }
        proof {
            assert(texts.take(self.body.len() as int) =~= texts);
            reveal_strlit(" :- ");
        }
        push_joined(&mut v, &pieces, &comma_space_chars());
        v.push('.');
        proof {
            assert(v@ =~= rule_text(self@));
        }
        string_of(&v)
    }
}

/// The characters `c`.
fn one_char(c: char) -> (r: Vec<char>)
    ensures
        r@ == seq![c],
{
    let mut v: Vec<char> = Vec::new();
    v.push(c);
    proof {
        assert(v@ =~= seq![c]);
    }
    v
}

/// The characters `c` and `d`.
fn two_chars(c: char, d: char) -> (r: Vec<char>)
    ensures
        r@ == seq![c, d],
{
    let mut v: Vec<char> = Vec::new();
    v.push(c);
    v.push(d);
    proof {
        assert(v@ =~= seq![c, d]);
    }
    v
}

/// Removes the lines that begin with `//` (after trimming), trims the others, and puts them
/// end to end (see [`clean`]).
pub fn clean_program(text: String) -> (r: String)
    ensures
        r@ == clean(text@),
{
    let cs = chars_of(text.as_str());
    let lines = split_chars(&cs, &one_char('\n'));
    let ghost all = char_seqs(lines@);
    let mut out: Vec<char> = Vec::new();
    let mut i: usize = 0;
    while i < lines.len()
        invariant
            i <= lines.len(),
            all == char_seqs(lines@),
            out@ == clean_lines(all.take(i as int)),
        decreases lines.len() - i,
    {
        let t = trim_chars(&lines[i]);
        let comment = t.len() >= 2 && t[0] == '/' && t[1] == '/';
        proof {
            let u = all.take(i + 1);
            assert(u.drop_last() =~= all.take(i as int));
            assert(u.last() == lines@[i as int]@);
            if t@.len() >= 2 {
                assert(comment == (t@.take(2) =~= seq!['/', '/']));
            }
        }
        if !comment {
            push_chars(&mut out, &t);
        }
        proof {
            if comment {
                assert(out@ =~= clean_lines(all.take(i as int)) + Seq::<char>::empty());
            }
        }
        i = i + 1;
    }
    proof {
        assert(all.take(lines.len() as int) =~= all);
    }
    string_of(&out)
}

/// Reads an atom from the text of a rule head (see [`head_atom`]).
fn parse_head(h: &Vec<char>) -> (r: Atom)
    requires
        head_ok(h@),
    ensures
        r@ == head_atom(h@),
{
    let idx = find_char(h, '(').unwrap();
    proof {
        lemma_index_from(h@, '(', 0);
    }
    let predicate = slice(h, 0, idx);
    let args = slice(h, idx, h.len());
    proof {
        assert(args@ =~= h@.skip(idx as int));
    }
    let end = find_char(&args, ')').unwrap();
    proof {
        lemma_index_from(args@, ')', 0);
        assert(args@[0] == '(');
    }
    let inner = slice(&args, 1, end);
    let pieces = split_chars(&inner, &comma_space_chars());
    let r = Atom { predicate: string_of(&predicate), args: strings_of(&pieces) };
    proof {
        assert(predicate@ =~= h@.take(idx as int));
    }
    r
}

/// Reads a literal from a piece of a rule body (see [`body_literal`]).
fn parse_literal(text: &Vec<char>) -> (r: Literal)
    requires
        literal_ok(text@),
    ensures
        r@ == body_literal(text@),
{
    let lit = trim_chars(text);
    let idx = find_char(&lit, '(').unwrap();
    proof {
        lemma_index_from(lit@, '(', 0);
    }
    let pred = slice(&lit, 0, idx);
    let negated = pred.len() >= 1 && pred[0] == '!';
    proof {
        assert(pred@ =~= lit@.take(idx as int));
        if pred@.len() >= 1 {
            assert(pred@.take(1)[0] == pred@[0]);
            assert(negated == (pred@.take(1) =~= seq!['!']));
        }
    }
    let name = if negated { slice(&pred, 1, pred.len()) } else { pred };
    proof {
        if negated {
            assert(name@ =~= pred@.skip(1));
        }
    }
    let args = slice(&lit, idx, lit.len());
    proof {
        assert(args@ =~= lit@.skip(idx as int));
        lemma_index_from(args@, ')', 0);
        assert(args@[0] == '(');
    }
    let inner = match find_char(&args, ')') {
        Some(end) => slice(&args, 1, end),
        None => {
            let v = slice(&args, 1, args.len());
            proof {
                assert(v@ =~= args@.skip(1));
            }
            v
        },
    };
    let pieces = split_chars(&inner, &comma_space_chars());
    Literal {
        atom: Atom { predicate: string_of(&name), args: strings_of(&pieces) },
        is_negated: negated,
        kind: PredicateKind::Extensional,
    }
}

/// Reads a rule from its text (see [`rule_of`]).
fn parse_rule(r: &Vec<char>) -> (out: Rule)
    requires
        rule_ok(r@),
    ensures
        out@ == rule_of(r@),
{
    let parts = split_chars(r, &two_chars(':', '-'));
    proof {
        assert(char_seqs(parts@)[0] == parts@[0]@);
        assert(char_seqs(parts@)[1] == parts@[1]@);
    }
    let head_text = trim_chars(&parts[0]);
    let body_text = trim_chars(&parts[1]);
    let pieces = split_chars(&body_text, &two_chars(')', ','));
    let head = parse_head(&head_text);
    let ghost bp = body_pieces(r@);
    let mut body: Vec<Literal> = Vec::new();
    let mut k: usize = 0;
    while k < pieces.len()
        invariant
            k <= pieces.len(),
            bp == body_pieces(r@),
            bp == char_seqs(pieces@),
            rule_ok(r@),
            literals_view(body@) == bp.take(k as int).map_values(|t: Seq<char>| body_literal(t)),
        decreases pieces.len() - k,
    {
        proof {
            assert(bp[k as int] == pieces@[k as int]@);
            assert(literal_ok(bp[k as int]));
        }
        let lit = parse_literal(&pieces[k]);
        let ghost before = body@;
        body.push(lit);
        proof {
            assert(literals_view(body@) =~= literals_view(before).push(lit@));
            assert(bp.take(k + 1).map_values(|t: Seq<char>| body_literal(t)) =~= bp.take(k as int).map_values(
                |t: Seq<char>| body_literal(t),
            ).push(body_literal(bp[k as int])));
        }
        k = k + 1;
    }
    proof {
        assert(bp.take(pieces.len() as int) =~= bp);
    }
    Rule { head, body }
}

/// The texts kept from the first pieces come first among those kept from all of them.
pub(crate) proof fn lemma_nonempty_trimmed_prefix(s: Seq<Seq<char>>, j: int, k: int)
    requires
        0 <= j <= k <= s.len(),
    ensures
        nonempty_trimmed(s.take(j)).len() <= nonempty_trimmed(s.take(k)).len(),
        nonempty_trimmed(s.take(k)).take(nonempty_trimmed(s.take(j)).len() as int) == nonempty_trimmed(s.take(j)),
    decreases k - j,
{
    if j < k {
        lemma_nonempty_trimmed_prefix(s, j, k - 1);
        assert(s.take(k).drop_last() =~= s.take(k - 1));
        let a = nonempty_trimmed(s.take(j));
        let b = nonempty_trimmed(s.take(k - 1));
        let c = nonempty_trimmed(s.take(k));
        if trim(s.take(k).last()).len() > 0 {
            assert(c == b.push(trim(s.take(k).last())));
            assert(c.take(a.len() as int) =~= b.take(a.len() as int));
        } else {
            assert(c == b);
        }
    }
}

/// Primitive and inefficient parser for _valid_ datalog, with no error checking: it reads
/// a list of the text forms of [`Rule`]s, ignoring empty lines and whitespace between
/// tokens (see [`rules_of`]).
pub fn parse(text: &str) -> (r: Vec<Rule>)
    requires
        parseable(text@),
    ensures
        rules_view(r@) == rules_of(text@),
{
    let cs = chars_of(text);
    let pieces = split_chars(&cs, &one_char('.'));
    let ghost all = char_seqs(pieces@);
    let ghost texts = rule_texts(text@);
    let mut rules: Vec<Rule> = Vec::new();
    let mut i: usize = 0;
    while i < pieces.len()
        invariant
            i <= pieces.len(),
            all == char_seqs(pieces@),
            texts == rule_texts(text@),
            texts == nonempty_trimmed(all),
            parseable(text@),
            rules_view(rules@) == nonempty_trimmed(all.take(i as int)).map_values(|r: Seq<char>| rule_of(r)),
        decreases pieces.len() - i,
    {
        let t = trim_chars(&pieces[i]);
        proof {
            let u = all.take(i + 1);
            assert(u.drop_last() =~= all.take(i as int));
            assert(u.last() == pieces@[i as int]@);
            assert(all.take(all.len() as int) =~= all);
            lemma_nonempty_trimmed_prefix(all, i + 1, all.len() as int);
        }
        if t.len() > 0 {
            proof {
                let before = nonempty_trimmed(all.take(i as int));
                let after = nonempty_trimmed(all.take(i + 1));
                assert(after == before.push(t@));
                assert(texts.take(after.len() as int) == after);
                assert(after[before.len() as int] == t@);
                assert(texts.take(after.len() as int)[before.len() as int] == texts[before.len() as int]);
                assert(texts[before.len() as int] == t@);
                assert(rule_ok(texts[before.len() as int]));
            }
            let rule = parse_rule(&t);
            let ghost before = rules@;
            rules.push(rule);
            proof {
                assert(rules_view(rules@) =~= rules_view(before).push(rule@));
                let nb = nonempty_trimmed(all.take(i as int));
                assert(nb.push(t@).map_values(|r: Seq<char>| rule_of(r)) =~= nb.map_values(
                    |r: Seq<char>| rule_of(r),
                ).push(rule_of(t@)));
            }
        }
        i = i + 1;
    }
    proof {
        assert(all.take(pieces.len() as int) =~= all);
    }
    rules
}

} // verus!
