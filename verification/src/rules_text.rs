//! The text form of datalog rules reads back: rules written in their text form, one per
//! line, parse to the same rules.
use vstd::prelude::*;
use crate::text::{index_from, index_of, join, split, split_scan, starts_with, trim, trim_end, trim_start};
use crate::lexer::is_white_space;
use crate::datalog::{
    atom_text, body_literal, body_pieces, comma_space, head_atom, head_ok, literal_ok, literal_text, nonempty_trimmed,
    parseable, rule_ok, rule_of, rule_text, rule_texts, rules_of, AtomV, LiteralV, RuleV,
};

verus! {

/// Scanning for a pattern in `x + y` from past `x` is scanning `y`.
proof fn lemma_scan_shift(x: Seq<char>, y: Seq<char>, p: Seq<char>, start: int, j: int)
    requires
        p.len() > 0,
        0 <= start <= j <= y.len(),
    ensures
        split_scan(x + y, p, x.len() + start, x.len() + j) == split_scan(y, p, start, j),
    decreases y.len() - j,
{
    let s = x + y;
    assert(s.subrange(x.len() + start, s.len() as int) =~= y.subrange(start, y.len() as int));
    if j + p.len() <= y.len() {
        assert(s.subrange(x.len() + j, x.len() + j + p.len()) =~= y.subrange(j, j + p.len()));
        if y.subrange(j, j + p.len()) == p {
            assert(s.subrange(x.len() + start, x.len() + j) =~= y.subrange(start, j));
            lemma_scan_shift(x, y, p, j + p.len(), j + p.len());
        } else {
            lemma_scan_shift(x, y, p, start, j + 1);
        }
    }
}

/// Where the first character of the pattern does not stand, the scan moves on.
proof fn lemma_scan_skip(s: Seq<char>, p: Seq<char>, start: int, j: int, m: int)
    requires
        p.len() > 0,
        0 <= j <= m,
        m + p.len() <= s.len(),
        forall|k: int| j <= k < m ==> s[k] != p[0],
    ensures
        split_scan(s, p, start, j) == split_scan(s, p, start, m),
    decreases m - j,
{
    if j < m {
        assert(s.subrange(j, j + p.len())[0] == s[j]);
        lemma_scan_skip(s, p, start, j + 1, m);
    }
}

/// Where the first character of the pattern stands at no place that leaves room for the
/// pattern, the scan gives the rest as one piece.
proof fn lemma_scan_rest(s: Seq<char>, p: Seq<char>, start: int, j: int)
    requires
        p.len() > 0,
        0 <= j,
        forall|k: int| j <= k && k + p.len() <= s.len() ==> s[k] != p[0],
    ensures
        split_scan(s, p, start, j) == seq![s.subrange(start, s.len() as int)],
    decreases s.len() - j,
{
    if j + p.len() <= s.len() {
        assert(s.subrange(j, j + p.len())[0] == s[j]);
        lemma_scan_rest(s, p, start, j + 1);
    }
}

/// Text in which the pattern's first character stands at no place that leaves room for the
/// pattern is one piece.
proof fn lemma_split_none(a: Seq<char>, p: Seq<char>)
    requires
        p.len() > 0,
        forall|k: int| 0 <= k && k + p.len() <= a.len() ==> a[k] != p[0],
    ensures
        split(a, p) == seq![a],
{
    lemma_scan_rest(a, p, 0, 0);
    assert(a.subrange(0, a.len() as int) =~= a);
}

/// Text without the pattern's first character, then the pattern, splits there first.
proof fn lemma_split_first(a: Seq<char>, p: Seq<char>, rest: Seq<char>)
    requires
        p.len() > 0,
        forall|k: int| 0 <= k < a.len() ==> a[k] != p[0],
    ensures
        split(a + p + rest, p) == seq![a] + split(rest, p),
{
    let s = a + p + rest;
    assert forall|k: int| 0 <= k < a.len() implies s[k] != p[0] by {
        assert(s[k] == a[k]);
    }
    lemma_scan_skip(s, p, 0, 0, a.len() as int);
    assert(s.subrange(a.len() as int, (a.len() + p.len()) as int) =~= p);
    assert(s.subrange(0, a.len() as int) =~= a);
    assert(s =~= (a + p) + rest);
    lemma_scan_shift(a + p, rest, p, 0, 0);
}

/// A join of two or more pieces is the first, the separator, and the join of the others.
proof fn lemma_join_front(xs: Seq<Seq<char>>, sep: Seq<char>)
    requires
        xs.len() >= 2,
    ensures
        join(xs, sep) == xs[0] + sep + join(xs.drop_first(), sep),
    decreases xs.len(),
{
    if xs.len() == 2 {
        assert(xs.drop_last() =~= seq![xs[0]]);
        assert(join(xs.drop_last(), sep) == xs[0]);
        assert(xs.drop_first() =~= seq![xs[1]]);
        assert(join(xs.drop_first(), sep) == xs[1]);
    } else {
        let d = xs.drop_last();
        lemma_join_front(d, sep);
        assert(d.drop_first() =~= xs.drop_first().drop_last());
        assert(xs.drop_first().last() == xs.last());
        assert(d[0] == xs[0]);
        assert(join(xs.drop_first(), sep) == join(d.drop_first(), sep) + sep + xs.last());
        assert(join(xs, sep) == join(d, sep) + sep + xs.last());
        assert(join(xs, sep) =~= xs[0] + sep + (join(d.drop_first(), sep) + sep + xs.last()));
    }
}

/// Each character of a join is one of a piece or of the separator.
proof fn lemma_join_chars(xs: Seq<Seq<char>>, sep: Seq<char>, ok: spec_fn(char) -> bool)
    requires
        forall|i: int, k: int| 0 <= i < xs.len() && 0 <= k < xs[i].len() ==> ok(#[trigger] xs[i][k]),
        forall|k: int| 0 <= k < sep.len() ==> ok(#[trigger] sep[k]),
    ensures
        forall|k: int| 0 <= k < join(xs, sep).len() ==> ok(#[trigger] join(xs, sep)[k]),
    decreases xs.len(),
{
    if xs.len() == 1 {
        assert(join(xs, sep) == xs[0]);
    } else if xs.len() >= 2 {
        let d = xs.drop_last();
        assert forall|i: int, k: int| 0 <= i < d.len() && 0 <= k < d[i].len() implies ok(#[trigger] d[i][k]) by {
            assert(d[i] == xs[i]);
        }
        lemma_join_chars(d, sep, ok);
        let j = join(d, sep);
        let l = xs.last();
        assert forall|k: int| 0 <= k < join(xs, sep).len() implies ok(#[trigger] join(xs, sep)[k]) by {
            if k < j.len() {
                assert(join(xs, sep)[k] == j[k]);
            } else if k < j.len() + sep.len() {
                assert(join(xs, sep)[k] == sep[k - j.len()]);
            } else {
                assert(join(xs, sep)[k] == l[k - j.len() - sep.len()]);
                assert(l == xs[xs.len() - 1]);
            }
        }
    }
}

/// The pieces of a join, where no piece holds the separator's first character, are the
/// pieces.
proof fn lemma_split_join(xs: Seq<Seq<char>>, sep: Seq<char>)
    requires
        xs.len() >= 1,
        sep.len() > 0,
        forall|i: int, k: int| 0 <= i < xs.len() && 0 <= k < xs[i].len() ==> #[trigger] xs[i][k] != sep[0],
    ensures
        split(join(xs, sep), sep) == xs,
    decreases xs.len(),
{
    if xs.len() == 1 {
        assert(join(xs, sep) == xs[0]);
        lemma_split_none(xs[0], sep);
        assert(xs =~= seq![xs[0]]);
    } else {
        lemma_join_front(xs, sep);
        let d = xs.drop_first();
        assert forall|i: int, k: int| 0 <= i < d.len() && 0 <= k < d[i].len() implies #[trigger] d[i][k] != sep[0] by {
            assert(d[i] == xs[i + 1]);
        }
        lemma_split_join(d, sep);
        assert forall|k: int| 0 <= k < xs[0].len() implies xs[0][k] != sep[0] by {}
        lemma_split_first(xs[0], sep, join(d, sep));
        assert(xs =~= seq![xs[0]] + d);
    }
}

/// The first index of `c` at or after `i` is `m` where `c` stands at `m` and nowhere
/// between.
proof fn lemma_index_at(s: Seq<char>, c: char, i: int, m: int)
    requires
        0 <= i <= m < s.len(),
        s[m] == c,
        forall|k: int| i <= k < m ==> s[k] != c,
    ensures
        index_from(s, c, i) == Some(m),
    decreases m - i,
{
    if i < m {
        lemma_index_at(s, c, i + 1, m);
    }
}

/// Where `c` stands nowhere at or after `i`, it is not found.
proof fn lemma_index_none(s: Seq<char>, c: char, i: int)
    requires
        0 <= i,
        forall|k: int| i <= k < s.len() ==> s[k] != c,
    ensures
        index_from(s, c, i) is None,
    decreases s.len() - i,
{
    if i < s.len() {
        lemma_index_none(s, c, i + 1);
    }
}

/// Trimming text that begins and ends with characters other than whitespace, after some
/// whitespace, gives the text.
proof fn lemma_trim_lead(w: Seq<char>, t: Seq<char>)
    requires
        t.len() > 0,
        !is_white_space(t[0]),
        !is_white_space(t.last()),
        forall|k: int| 0 <= k < w.len() ==> is_white_space(#[trigger] w[k]),
    ensures
        trim(w + t) == t,
    decreases w.len(),
{
    if w.len() > 0 {
        assert((w + t).drop_first() =~= w.drop_first() + t);
        assert forall|k: int| 0 <= k < w.drop_first().len() implies is_white_space(#[trigger] w.drop_first()[k]) by {
            assert(w.drop_first()[k] == w[k + 1]);
        }
        lemma_trim_lead(w.drop_first(), t);
        assert(trim_start(w + t) == trim_start(w.drop_first() + t));
    } else {
        assert(w + t =~= t);
        assert(trim_start(t) == t);
        assert(trim_end(t) == t);
    }
}

/// Trimming text that begins and ends with characters other than whitespace, before some
/// whitespace, gives the text.
proof fn lemma_trim_trail(t: Seq<char>, w: Seq<char>)
    requires
        t.len() > 0,
        !is_white_space(t[0]),
        !is_white_space(t.last()),
        forall|k: int| 0 <= k < w.len() ==> is_white_space(#[trigger] w[k]),
    ensures
        trim(t + w) == t,
    decreases w.len(),
{
    assert(trim_start(t + w) == t + w);
    if w.len() > 0 {
        assert((t + w).drop_last() =~= t + w.drop_last());
        assert forall|k: int| 0 <= k < w.drop_last().len() implies is_white_space(#[trigger] w.drop_last()[k]) by {
            assert(w.drop_last()[k] == w[k]);
        }
        lemma_trim_trail(t, w.drop_last());
        assert(trim_start(t + w.drop_last()) == t + w.drop_last());
    } else {
        assert(t + w =~= t);
        assert(trim_end(t) == t);
    }
}


/// Whether `c` may stand in a name of the text form of rules: it is none of `.`, `(`, `)`,
/// `,`, `:`, `!`, and no whitespace.
pub open spec fn plain_char(c: char) -> bool {
    !(c == '.' || c == '(' || c == ')' || c == ',' || c == ':' || c == '!' || is_white_space(c))
}

/// Whether `n` is a name of the text form of rules: not empty, and of plain characters.
pub open spec fn plain_name(n: Seq<char>) -> bool {
    n.len() > 0 && forall|k: int| 0 <= k < n.len() ==> plain_char(#[trigger] n[k])
}

/// Whether an atom reads back from its text form: its predicate and its arguments, of which
/// it has at least one, are names.
pub open spec fn plain_atom(a: AtomV) -> bool {
    plain_name(a.predicate) && a.args.len() > 0 && forall|i: int| 0 <= i < a.args.len() ==> plain_name(#[trigger] a.args[i])
}

/// Whether a rule reads back from its text form: its atoms read back, and its body is not
/// empty.
pub open spec fn plain_rule(r: RuleV) -> bool {
    plain_atom(r.head) && r.body.len() > 0 && forall|i: int| 0 <= i < r.body.len() ==> plain_atom(#[trigger] r.body[i].atom)
}

/// The text form of rules, one per line.
pub open spec fn program_text(rs: Seq<RuleV>) -> Seq<char> {
    join(rs.map_values(|r: RuleV| rule_text(r)), seq!['\n'])
}

/// Whether `c` may stand between the parentheses of an atom's text form.
spec fn arg_char(c: char) -> bool {
    plain_char(c) || c == ',' || c == ' '
}

/// The text form of a literal, without its closing parenthesis.
spec fn lit_core(l: LiteralV) -> Seq<char> {
    (if l.is_negated { seq!['!'] } else { Seq::empty() }) + l.atom.predicate + seq!['('] + join(l.atom.args, comma_space())
}

/// The arguments of an atom, joined, are of argument characters, begin and end with plain
/// ones, and split back.
proof fn lemma_args(a: AtomV)
    requires
        plain_atom(a),
    ensures
        join(a.args, comma_space()).len() > 0,
        forall|k: int| 0 <= k < join(a.args, comma_space()).len() ==> arg_char(#[trigger] join(a.args, comma_space())[k]),
        plain_char(join(a.args, comma_space())[0]),
        plain_char(join(a.args, comma_space()).last()),
        split(join(a.args, comma_space()), comma_space()) == a.args,
    decreases a.args.len(),
{
    let xs = a.args;
    let sep = comma_space();
    assert forall|i: int, k: int| 0 <= i < xs.len() && 0 <= k < xs[i].len() implies arg_char(#[trigger] xs[i][k]) by {
        assert(plain_name(xs[i]));
    }
    assert forall|k: int| 0 <= k < sep.len() implies arg_char(#[trigger] sep[k]) by {}
    lemma_join_chars(xs, sep, |c: char| arg_char(c));
    assert forall|i: int, k: int| 0 <= i < xs.len() && 0 <= k < xs[i].len() implies #[trigger] xs[i][k] != sep[0] by {
        assert(plain_name(xs[i]));
        assert(plain_char(xs[i][k]));
    }
    lemma_split_join(xs, sep);
    lemma_join_ends(xs, sep);
    assert(plain_name(xs[0]));
    assert(plain_name(xs.last()));
}

/// A join of non-empty pieces begins with the first piece's first character and ends with
/// the last piece's last character.
proof fn lemma_join_ends(xs: Seq<Seq<char>>, sep: Seq<char>)
    requires
        xs.len() >= 1,
        forall|i: int| 0 <= i < xs.len() ==> (#[trigger] xs[i]).len() > 0,
    ensures
        join(xs, sep).len() > 0,
        join(xs, sep)[0] == xs[0][0],
        join(xs, sep).last() == xs.last().last(),
    decreases xs.len(),
{
    if xs.len() == 1 {
        assert(join(xs, sep) == xs[0]);
    } else {
        let d = xs.drop_last();
        assert forall|i: int| 0 <= i < d.len() implies (#[trigger] d[i]).len() > 0 by {
            assert(d[i] == xs[i]);
        }
        lemma_join_ends(d, sep);
        assert(d[0] == xs[0]);
        assert(xs.last() == xs[xs.len() - 1]);
        assert(xs[xs.len() - 1].len() > 0);
    }
}

/// The atom read from the text form of an atom is the atom.
proof fn lemma_atom_reads(a: AtomV)
    requires
        plain_atom(a),
    ensures
        head_ok(atom_text(a)),
        head_atom(atom_text(a)) == a,
        !is_white_space(atom_text(a)[0]),
        atom_text(a).last() == ')',
        forall|k: int| 0 <= k < atom_text(a).len() ==> #[trigger] atom_text(a)[k] != ':' && atom_text(a)[k] != '.',
{
    lemma_args(a);
    let p = a.predicate;
    let j = join(a.args, comma_space());
    let h = atom_text(a);
    assert(h =~= p + seq!['('] + j + seq![')']);
    assert(h[p.len() as int] == '(');
    assert forall|k: int| 0 <= k < p.len() implies h[k] != '(' by {
        assert(h[k] == p[k]);
        assert(plain_char(p[k]));
    }
    lemma_index_at(h, '(', 0, p.len() as int);
    let args = h.skip(p.len() as int);
    assert(args =~= seq!['('] + j + seq![')']);
    assert(args[j.len() as int + 1] == ')');
    assert forall|k: int| 0 <= k < j.len() + 1 implies args[k] != ')' by {
        if k > 0 {
            assert(args[k] == j[k - 1]);
            assert(arg_char(j[k - 1]));
        }
    }
    lemma_index_at(args, ')', 0, j.len() as int + 1);
    assert(args.subrange(1, j.len() as int + 1) =~= j);
    assert(h.take(p.len() as int) =~= p);
    assert(h[0] == p[0]);
    assert(plain_char(p[0]));
    assert forall|k: int| 0 <= k < h.len() implies #[trigger] h[k] != ':' && h[k] != '.' by {
        if k < p.len() {
            assert(h[k] == p[k]);
            assert(plain_char(p[k]));
        } else if p.len() < k < p.len() + 1 + j.len() {
            assert(h[k] == j[k - p.len() - 1]);
            assert(arg_char(j[k - p.len() - 1]));
        }
    }
}

/// A literal's text form is its core and a closing parenthesis; the literal read from the
/// core, or the whole text form, after some whitespace, is the literal.
proof fn lemma_literal_reads(lead: Seq<char>, l: LiteralV, last: bool)
    requires
        plain_atom(l.atom),
        forall|k: int| 0 <= k < lead.len() ==> is_white_space(#[trigger] lead[k]),
    ensures
        literal_text(l) == lit_core(l) + seq![')'],
        literal_ok(lead + lit_core(l) + (if last { seq![')'] } else { Seq::empty() })),
        body_literal(lead + lit_core(l) + (if last { seq![')'] } else { Seq::empty() })).atom == l.atom,
        body_literal(lead + lit_core(l) + (if last { seq![')'] } else { Seq::empty() })).is_negated == l.is_negated,
        lit_core(l).len() > 0,
        !is_white_space(lit_core(l)[0]),
        forall|k: int| 0 <= k < lit_core(l).len() ==> #[trigger] lit_core(l)[k] != ')' && lit_core(l)[k] != ':' && lit_core(l)[k] != '.',
{
    lemma_args(l.atom);
    let neg: Seq<char> = if l.is_negated { seq!['!'] } else { Seq::empty() };
    let p = l.atom.predicate;
    let j = join(l.atom.args, comma_space());
    let core = lit_core(l);
    let close: Seq<char> = if last { seq![')'] } else { Seq::empty() };
    assert(core =~= neg + p + seq!['('] + j);
    assert(literal_text(l) =~= core + seq![')']);
    let t = core + close;
    assert(p.len() > 0 && plain_char(p[0]));
    assert(t[0] == core[0]);
    assert(core[0] == if l.is_negated { '!' } else { p[0] });
    let lastc = t.last();
    if last {
        assert(lastc == ')');
    } else {
        assert(t =~= core);
        assert(lastc == j.last());
    }
    lemma_trim_lead(lead, t);
    assert(lead + lit_core(l) + close == lead + t);
    let idx: int = (neg.len() + p.len()) as int;
    assert(t[idx] == '(');
    assert forall|k: int| 0 <= k < idx implies t[k] != '(' by {
        if k >= neg.len() {
            assert(t[k] == p[k - neg.len()]);
            assert(plain_char(p[k - neg.len()]));
        }
    }
    lemma_index_at(t, '(', 0, idx);
    let pred = t.take(idx);
    assert(pred =~= neg + p);
    if l.is_negated {
        assert(pred.take(1) =~= seq!['!']);
        assert(pred.skip(1) =~= p);
    } else {
        assert(pred =~= p);
        assert(pred[0] != '!');
        assert(pred.take(1) != seq!['!']) by {
            assert(pred.take(1)[0] == pred[0]);
        }
    }
    let args = t.skip(idx);
    assert(args =~= seq!['('] + j + close);
    assert forall|k: int| 0 <= k < j.len() + 1 implies args[k] != ')' by {
        if k > 0 {
            assert(args[k] == j[k - 1]);
            assert(arg_char(j[k - 1]));
        }
    }
    if last {
        assert(args[j.len() as int + 1] == ')');
        lemma_index_at(args, ')', 0, j.len() as int + 1);
        assert(args.subrange(1, j.len() as int + 1) =~= j);
    } else {
        lemma_index_none(args, ')', 0);
        assert(args.skip(1) =~= j);
    }
    assert forall|k: int| 0 <= k < core.len() implies #[trigger] core[k] != ')' && core[k] != ':' && core[k] != '.' by {
        if k < neg.len() {
        } else if k < neg.len() + p.len() {
            assert(core[k] == p[k - neg.len()]);
            assert(plain_char(p[k - neg.len()]));
        } else if k > neg.len() + p.len() {
            assert(core[k] == j[k - neg.len() - p.len() - 1]);
            assert(arg_char(j[k - neg.len() - p.len() - 1]));
        }
    }
}


/// `"),"`, which ends each literal of a body but the last.
spec fn close_comma() -> Seq<char> {
    seq![')', ',']
}

/// The text forms of some literals.
spec fn literal_texts(ls: Seq<LiteralV>) -> Seq<Seq<char>> {
    ls.map_values(|l: LiteralV| literal_text(l))
}

/// Literals whose atoms read back, joined after some whitespace, split at each `"),"` into
/// pieces that read back as the literals, one each.
proof fn lemma_body_split(lead: Seq<char>, ls: Seq<LiteralV>)
    requires
        ls.len() >= 1,
        forall|i: int| 0 <= i < ls.len() ==> plain_atom(#[trigger] ls[i].atom),
        forall|k: int| 0 <= k < lead.len() ==> is_white_space(#[trigger] lead[k]),
    ensures
        split(lead + join(literal_texts(ls), comma_space()), close_comma()).len() == ls.len(),
        forall|i: int| 0 <= i < ls.len() ==> {
            let t = #[trigger] split(lead + join(literal_texts(ls), comma_space()), close_comma())[i];
            &&& literal_ok(t)
            &&& body_literal(t).atom == ls[i].atom
            &&& body_literal(t).is_negated == ls[i].is_negated
        },
    decreases ls.len(),
{
    let lts = literal_texts(ls);
    let p = close_comma();
    let l0 = ls[0];
    lemma_literal_reads(lead, l0, ls.len() == 1);
    let c0 = lit_core(l0);
    assert(lts[0] == c0 + seq![')']);
    assert forall|k: int| 0 <= k < lead.len() implies lead[k] != ')' by {
        assert(is_white_space(lead[k]));
    }
    if ls.len() == 1 {
        assert(join(lts, comma_space()) == lts[0]);
        let t = lead + join(lts, comma_space());
        assert(t =~= lead + c0 + seq![')']);
        assert forall|k: int| 0 <= k && k + p.len() <= t.len() implies t[k] != p[0] by {
            if k < lead.len() {
                assert(t[k] == lead[k]);
            } else {
                assert(t[k] == c0[k - lead.len()]);
            }
        }
        lemma_split_none(t, p);
    } else {
        lemma_join_front(lts, comma_space());
        let rest = ls.drop_first();
        assert(lts.drop_first() =~= literal_texts(rest));
        let j2 = join(literal_texts(rest), comma_space());
        let a = lead + c0;
        let t = lead + join(lts, comma_space());
        assert(t =~= a + p + (seq![' '] + j2));
        assert forall|k: int| 0 <= k < a.len() implies a[k] != p[0] by {
            if k < lead.len() {
                assert(a[k] == lead[k]);
            } else {
                assert(a[k] == c0[k - lead.len()]);
            }
        }
        lemma_split_first(a, p, seq![' '] + j2);
        assert forall|i: int| 0 <= i < rest.len() implies plain_atom(#[trigger] rest[i].atom) by {
            assert(rest[i] == ls[i + 1]);
        }
        let sp: Seq<char> = seq![' '];
        assert forall|k: int| 0 <= k < sp.len() implies is_white_space(#[trigger] sp[k]) by {}
        lemma_body_split(sp, rest);
        assert(a == a + Seq::<char>::empty());
        assert forall|i: int| 0 <= i < ls.len() implies {
            let t2 = #[trigger] split(lead + join(literal_texts(ls), comma_space()), p)[i];
            &&& literal_ok(t2)
            &&& body_literal(t2).atom == ls[i].atom
            &&& body_literal(t2).is_negated == ls[i].is_negated
        } by {
            if i > 0 {
                assert(rest[i - 1] == ls[i]);
            }
        }
    }
}


/// The text of a rule without its closing `.`.
spec fn rule_core(r: RuleV) -> Seq<char> {
    atom_text(r.head) + seq![' ', ':', '-', ' '] + join(literal_texts(r.body), comma_space())
}

/// The rule read from the text form of a rule, without its `.`, has the rule's text form.
proof fn lemma_rule_reads(r: RuleV)
    requires
        plain_rule(r),
    ensures
        rule_text(r) == rule_core(r) + seq!['.'],
        rule_ok(rule_core(r)),
        rule_text(rule_of(rule_core(r))) == rule_text(r),
        rule_core(r).len() > 0,
        !is_white_space(rule_core(r)[0]),
        !is_white_space(rule_core(r).last()),
        forall|k: int| 0 <= k < rule_core(r).len() ==> #[trigger] rule_core(r)[k] != '.',
{
    let h = atom_text(r.head);
    let ls = r.body;
    let lts = literal_texts(ls);
    let b = join(lts, comma_space());
    let core = rule_core(r);
    lemma_atom_reads(r.head);
    assert(rule_text(r) =~= core + seq!['.']);
    assert forall|i: int| 0 <= i < ls.len() implies plain_atom(#[trigger] ls[i].atom) by {}
    assert forall|i: int, k: int| 0 <= i < lts.len() && 0 <= k < lts[i].len()
        implies (#[trigger] lts[i][k] != ':' && lts[i][k] != '.') by {
        lemma_literal_reads(Seq::empty(), ls[i], true);
        assert(lts[i] == lit_core(ls[i]) + seq![')']);
        if k < lit_core(ls[i]).len() {
            assert(lts[i][k] == lit_core(ls[i])[k]);
        }
    }
    let ok = |c: char| c != ':' && c != '.';
    assert forall|k: int| 0 <= k < comma_space().len() implies ok(#[trigger] comma_space()[k]) by {}
    lemma_join_chars(lts, comma_space(), ok);
    assert forall|i: int| 0 <= i < lts.len() implies (#[trigger] lts[i]).len() > 0 by {
        lemma_literal_reads(Seq::empty(), ls[i], true);
    }
    lemma_join_ends(lts, comma_space());
    lemma_literal_reads(Seq::empty(), ls[0], true);
    lemma_literal_reads(Seq::empty(), ls.last(), true);
    assert(lts[0] == lit_core(ls[0]) + seq![')']);
    assert(lts.last() == lit_core(ls.last()) + seq![')']);
    assert(b[0] == lit_core(ls[0])[0]);
    assert(b.last() == ')');
    // the split at `:-`
    let colon: Seq<char> = seq![':', '-'];
    let a = h + seq![' '];
    let back = seq![' '] + b;
    assert(core =~= a + colon + back);
    assert forall|k: int| 0 <= k < a.len() implies a[k] != colon[0] by {
        if k < h.len() {
            assert(a[k] == h[k]);
        }
    }
    lemma_split_first(a, colon, back);
    assert forall|k: int| 0 <= k && k + colon.len() <= back.len() implies back[k] != colon[0] by {
        if k > 0 {
            assert(back[k] == b[k - 1]);
            assert(ok(b[k - 1]));
        }
    }
    lemma_split_none(back, colon);
    assert(split(core, colon) == seq![a, back]);
    let sp: Seq<char> = seq![' '];
    assert forall|k: int| 0 <= k < sp.len() implies is_white_space(#[trigger] sp[k]) by {}
    lemma_trim_trail(h, sp);
    lemma_trim_lead(sp, b);
    assert(trim(split(core, colon)[0]) == h);
    assert(trim(split(core, colon)[1]) == b);
    // the body
    lemma_body_split(Seq::empty(), ls);
    assert(Seq::<char>::empty() + b =~= b);
    assert(body_pieces(core) == split(b, close_comma()));
    let pcs = body_pieces(core);
    let got = rule_of(core);
    assert(got.head == r.head);
    assert(got.body.len() == ls.len());
    assert forall|i: int| 0 <= i < ls.len() implies #[trigger] literal_text(got.body[i]) == literal_text(ls[i]) by {
        assert(got.body[i] == body_literal(pcs[i]));
    }
    assert(literal_texts(got.body) =~= lts);
    assert(rule_text(got) =~= rule_text(r));
    assert forall|k: int| 0 <= k < core.len() implies #[trigger] core[k] != '.' by {
        if k < h.len() {
            assert(core[k] == h[k]);
        } else if k >= h.len() + 4 {
            assert(core[k] == b[k - h.len() - 4]);
            assert(ok(b[k - h.len() - 4]));
        }
    }
    assert(core[0] == h[0]);
    assert(core.last() == b.last());
}


/// The text forms of some rules.
spec fn rule_text_seq(rs: Seq<RuleV>) -> Seq<Seq<char>> {
    rs.map_values(|r: RuleV| rule_text(r))
}

/// Rules that read back, joined by line breaks after some whitespace, split at each `.` into
/// a piece per rule, which trims to the rule's text without its `.`, and an empty last piece.
proof fn lemma_program_split(lead: Seq<char>, rs: Seq<RuleV>)
    requires
        rs.len() >= 1,
        forall|i: int| 0 <= i < rs.len() ==> plain_rule(#[trigger] rs[i]),
        forall|k: int| 0 <= k < lead.len() ==> is_white_space(#[trigger] lead[k]),
    ensures
        split(lead + join(rule_text_seq(rs), seq!['\n']), seq!['.']).len() == rs.len() + 1,
        split(lead + join(rule_text_seq(rs), seq!['\n']), seq!['.']).last() == Seq::<char>::empty(),
        forall|i: int| 0 <= i < rs.len() ==>
            trim(#[trigger] split(lead + join(rule_text_seq(rs), seq!['\n']), seq!['.'])[i]) == rule_core(rs[i]),
    decreases rs.len(),
{
    let ts = rule_text_seq(rs);
    let dot: Seq<char> = seq!['.'];
    let r0 = rs[0];
    lemma_rule_reads(r0);
    let c0 = rule_core(r0);
    let a = lead + c0;
    assert forall|k: int| 0 <= k < a.len() implies a[k] != dot[0] by {
        if k < lead.len() {
            assert(a[k] == lead[k]);
            assert(is_white_space(lead[k]));
        } else {
            assert(a[k] == c0[k - lead.len()]);
        }
    }
    lemma_trim_lead(lead, c0);
    let t = lead + join(ts, seq!['\n']);
    if rs.len() == 1 {
        assert(join(ts, seq!['\n']) == ts[0]);
        assert(t =~= a + dot + Seq::<char>::empty());
        lemma_split_first(a, dot, Seq::empty());
        lemma_split_none(Seq::empty(), dot);
        assert(split(t, dot) =~= seq![a, Seq::<char>::empty()]);
    } else {
        lemma_join_front(ts, seq!['\n']);
        let rest = rs.drop_first();
        assert(ts.drop_first() =~= rule_text_seq(rest));
        let nl: Seq<char> = seq!['\n'];
        let back = nl + join(rule_text_seq(rest), nl);
        assert(t =~= a + dot + back);
        lemma_split_first(a, dot, back);
        assert forall|i: int| 0 <= i < rest.len() implies plain_rule(#[trigger] rest[i]) by {
            assert(rest[i] == rs[i + 1]);
        }
        assert forall|k: int| 0 <= k < nl.len() implies is_white_space(#[trigger] nl[k]) by {}
        lemma_program_split(nl, rest);
        assert forall|i: int| 0 <= i < rs.len() implies
            trim(#[trigger] split(lead + join(rule_text_seq(rs), seq!['\n']), seq!['.'])[i]) == rule_core(rs[i]) by {
            if i > 0 {
                assert(rest[i - 1] == rs[i]);
            }
        }
    }
}

/// Pieces that all trim to some text keep all their trimmed forms.
proof fn lemma_all_nonempty(ps: Seq<Seq<char>>)
    requires
        forall|i: int| 0 <= i < ps.len() ==> trim(#[trigger] ps[i]).len() > 0,
    ensures
        nonempty_trimmed(ps) == ps.map_values(|t: Seq<char>| trim(t)),
    decreases ps.len(),
{
    if ps.len() > 0 {
        let d = ps.drop_last();
        assert forall|i: int| 0 <= i < d.len() implies trim(#[trigger] d[i]).len() > 0 by {
            assert(d[i] == ps[i]);
        }
        lemma_all_nonempty(d);
        assert(trim(ps[ps.len() - 1]).len() > 0);
        assert(nonempty_trimmed(ps) =~= ps.map_values(|t: Seq<char>| trim(t)));
    }
}

/// Rules in their text form, one per line, can be read, and the rules read have the same
/// text forms, in the same order: the text form reads back, for rules whose names hold none
/// of `.`, `(`, `)`, `,`, `:`, `!` and no whitespace, whose atoms have arguments and whose
/// bodies are not empty.
pub proof fn lemma_text_form_reads_back(rs: Seq<RuleV>)
    requires
        forall|i: int| 0 <= i < rs.len() ==> plain_rule(#[trigger] rs[i]),
    ensures
        parseable(program_text(rs)),
        rules_of(program_text(rs)).map_values(|r: RuleV| rule_text(r)) == rs.map_values(|r: RuleV| rule_text(r)),
{
    let text = program_text(rs);
    let dot: Seq<char> = seq!['.'];
    assert(rule_text_seq(rs) =~= rs.map_values(|r: RuleV| rule_text(r)));
    if rs.len() == 0 {
        assert(text =~= Seq::<char>::empty());
        lemma_split_none(text, dot);
        assert(split(text, dot) == seq![text]);
        assert(trim_start(text) == text);
        assert(trim_end(text) == text);
        assert(trim(split(text, dot).last()).len() == 0);
        assert(split(text, dot).drop_last() =~= Seq::<Seq<char>>::empty());
        assert(nonempty_trimmed(Seq::<Seq<char>>::empty()) == Seq::<Seq<char>>::empty());
        assert(rule_texts(text).len() == 0);
        assert(rules_of(text).map_values(|r: RuleV| rule_text(r)) =~= rs.map_values(|r: RuleV| rule_text(r)));
    } else {
        lemma_program_split(Seq::empty(), rs);
        assert(Seq::<char>::empty() + join(rule_text_seq(rs), seq!['\n']) =~= text);
        let pcs = split(text, dot);
        let last = pcs.last();
        assert(trim_start(last) == last);
        assert(trim_end(last) == last);
        assert(nonempty_trimmed(pcs) == nonempty_trimmed(pcs.drop_last()));
        let d = pcs.drop_last();
        assert forall|i: int| 0 <= i < d.len() implies trim(#[trigger] d[i]).len() > 0 by {
            assert(d[i] == pcs[i]);
            lemma_rule_reads(rs[i]);
        }
        lemma_all_nonempty(d);
        let texts = rule_texts(text);
        assert(texts.len() == rs.len());
        assert forall|i: int| 0 <= i < texts.len() implies #[trigger] texts[i] == rule_core(rs[i]) by {
            assert(d[i] == pcs[i]);
        }
        assert forall|k: int| 0 <= k < texts.len() implies rule_ok(#[trigger] texts[k]) by {
            lemma_rule_reads(rs[k]);
        }
        assert forall|i: int| 0 <= i < rs.len() implies
            #[trigger] rule_text(rules_of(text)[i]) == rule_text(rs[i]) by {
            lemma_rule_reads(rs[i]);
            assert(rules_of(text)[i] == rule_of(texts[i]));
        }
        assert(rules_of(text).map_values(|r: RuleV| rule_text(r)) =~= rs.map_values(|r: RuleV| rule_text(r)));
    }
}

} // verus!
