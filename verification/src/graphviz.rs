//! The graphviz text of a computation: the control-flow graph, each point a record that lists
//! the input facts and the output tuples at that point.
use vstd::prelude::*;
use crate::dump::{names_in_tables, pairs_named, triples_named};
use crate::datalog::lemma_index_from;
use crate::facts::AllFacts;
use crate::intern::{Interner, InternerTables};
use crate::pipeline::Output;
use crate::program::{names_of, Names};
use crate::skeleton::same_chars;
use crate::text::{
    char_seqs, chars_of, decimal, find_char, index_of, join, push_chars, push_decimal, push_joined, push_str, slice, string_of,
};

verus! {

/// `c` as it stands in a graphviz label: a backslash, a quote and the parentheses get a
/// backslash before them, and a line break becomes `\n`.
pub open spec fn esc_char(c: char) -> Seq<char> {
    if c == '\\' {
        seq!['\\', '\\']
    } else if c == '"' {
        seq!['\\', '"']
    } else if c == '(' {
        seq!['\\', '(']
    } else if c == ')' {
        seq!['\\', ')']
    } else if c == '\n' {
        seq!['\\', 'n']
    } else {
        seq![c]
    }
}

/// `s` as it stands in a graphviz label (see [`esc_char`]).
pub open spec fn escaped(s: Seq<char>) -> Seq<char>
    decreases s.len(),
{
    if s.len() == 0 {
        seq![]
    } else {
        escaped(s.drop_last()) + esc_char(s.last())
    }
}

/// The rows of a relation: for each tuple, its point and the names of its other components.
pub type Rows = Seq<(u32, Seq<Seq<char>>)>;

/// The line of a row of the relation `name`: the names of its components, `_` in place of
/// the point at `pos`, as `name(a, _, b)`, escaped, then `\l`.
pub open spec fn row_text(name: Seq<char>, vals: Seq<Seq<char>>, pos: int) -> Seq<char> {
    escaped(name + seq!['('] + join(vals.insert(pos, seq!['_']), seq![',', ' ']) + seq![')']) + seq!['\\', 'l']
}

/// The lines of the rows of the relation `name` at the point `p`, in their order.
pub open spec fn text_at(name: Seq<char>, rows: Rows, pos: int, p: u32) -> Seq<char>
    decreases rows.len(),
{
    if rows.len() == 0 {
        seq![]
    } else {
        text_at(name, rows.drop_last(), pos, p) + (if rows.last().0 == p {
            row_text(name, rows.last().1, pos)
        } else {
            seq![]
        })
    }
}

/// Relations with their names, rows and the places of their points.
pub type Relations = Seq<(Seq<char>, Rows, int)>;

/// The texts at `p` of the relations that have rows there, in their order.
pub open spec fn texts_at(rels: Relations, p: u32) -> Seq<Seq<char>>
    decreases rels.len(),
{
    if rels.len() == 0 {
        seq![]
    } else {
        let r = rels.last();
        let t = text_at(r.0, r.1, r.2, p);
        if t.len() > 0 {
            texts_at(rels.drop_last(), p).push(t)
        } else {
            texts_at(rels.drop_last(), p)
        }
    }
}

/// The rows of pairs `(x, point)`, `x` named in `t`.
pub open spec fn rows_xp(v: Seq<(u32, u32)>, t: Seq<Seq<char>>) -> Rows {
    v.map_values(|x: (u32, u32)| (x.1, seq![t[x.0 as int]]))
}

/// The rows of pairs `(point, x)`, `x` named in `t`.
pub open spec fn rows_px(v: Seq<(u32, u32)>, t: Seq<Seq<char>>) -> Rows {
    v.map_values(|x: (u32, u32)| (x.0, seq![t[x.1 as int]]))
}

/// The rows of triples `(x, y, point)`, `x` named in `tx` and `y` in `ty`.
pub open spec fn rows_xyp(v: Seq<(u32, u32, u32)>, tx: Seq<Seq<char>>, ty: Seq<Seq<char>>) -> Rows {
    v.map_values(|x: (u32, u32, u32)| (x.2, seq![tx[x.0 as int], ty[x.1 as int]]))
}

/// The input facts shown at each point, in this order.
pub open spec fn graph_inputs(f: AllFacts, t: Names) -> Relations {
    seq![
        ("loan_issued_at"@, rows_xyp(f.loan_issued_at@, t.origins, t.loans), 2),
        ("loan_killed_at"@, rows_xp(f.loan_killed_at@, t.loans), 1),
        ("subset_base"@, rows_xyp(f.subset_base@, t.origins, t.origins), 2),
        ("loan_invalidated_at"@, rows_px(f.loan_invalidated_at@, t.loans), 0),
        ("var_used_at"@, rows_xp(f.var_used_at@, t.variables), 1),
        ("var_defined_at"@, rows_xp(f.var_defined_at@, t.variables), 1),
        ("var_dropped_at"@, rows_xp(f.var_dropped_at@, t.variables), 1),
        ("path_assigned_at_base"@, rows_xp(f.path_assigned_at_base@, t.paths), 1),
        ("path_moved_at_base"@, rows_xp(f.path_moved_at_base@, t.paths), 1),
        ("path_accessed_at_base"@, rows_xp(f.path_accessed_at_base@, t.paths), 1),
    ]
}

/// The output tuples shown at each point, in this order.
pub open spec fn graph_outputs(o: Output, t: Names) -> Relations {
    seq![
        ("loan_live_at"@, rows_xp(o.loan_live_at@, t.loans), 0),
        ("origin_contains_loan_at"@, rows_xyp(o.origin_contains_loan_at@, t.origins, t.loans), 0),
        ("loan_invalidated_at"@, rows_xp(o.loan_invalidated_at@, t.loans), 0),
        ("subset"@, rows_xyp(o.subset@, t.origins, t.origins), 0),
        ("var_live_on_entry"@, rows_xp(o.var_live_on_entry@, t.variables), 1),
        ("var_drop_live_on_entry"@, rows_xp(o.var_drop_live_on_entry@, t.variables), 1),
        ("origin_live_on_entry"@, rows_xp(o.origin_live_on_entry@, t.origins), 1),
        ("var_maybe_partly_initialized_on_exit"@, rows_xp(o.var_maybe_partly_initialized_on_exit@, t.variables), 1),
        ("path_maybe_initialized_on_exit"@, rows_xp(o.path_maybe_initialized_on_exit@, t.paths), 1),
        ("move_errors"@, rows_xp(o.move_errors@, t.paths), 1),
    ]
}

/// The record of the point `p`, named `name`, with its statement `instr` and the texts of its inputs and outputs.
pub open spec fn node_text(p: u32, name: Seq<char>, instr: Seq<char>, ins: Seq<Seq<char>>, outs: Seq<Seq<char>>) -> Seq<char> {
    "\"node"@ + decimal(p as nat) + "\" [\n  label = \"{ <f0> "@ + escaped(name) + " "@ + instr + " | INPUTS | "@ + join(ins, " | "@)
        + " | OUTPUTS | "@ + join(outs, " | "@) + " }\"\n  shape = \"record\"\n];\n"@
}

/// The `i`-th edge, from `p1` to `p2`.
pub open spec fn edge_text(p1: u32, p2: u32, i: int) -> Seq<char> {
    "\"node"@ + decimal(p1 as nat) + "\" -> \"node"@ + decimal(p2 as nat) + "\":f0 [\n  id = "@ + decimal(i as nat)
        + "\n];\n"@
}

/// Whether one of the first `i` edges starts or ends at `p`.
pub open spec fn seen_before(edges: Seq<(u32, u32)>, i: int, p: u32) -> bool {
    exists|j: int| 0 <= j < i && (#[trigger] edges[j].0 == p || edges[j].1 == p)
}

/// The record of the point `p`.
pub open spec fn point_node(o: Output, f: AllFacts, t: Names, m: Option<MirLines>, p: u32) -> Seq<char> {
    node_text(p, t.points[p as int], mir_instr(m, escaped(t.points[p as int])), texts_at(graph_inputs(f, t), p), texts_at(graph_outputs(o, t), p))
}

/// The text of the `i`-th edge: the records of its points not shown before, then the edge.
pub open spec fn edge_chunk(o: Output, f: AllFacts, t: Names, m: Option<MirLines>, i: int) -> Seq<char> {
    let e = f.cfg_edge@;
    let (p1, p2) = e[i];
    (if seen_before(e, i, p1) { seq![] } else { point_node(o, f, t, m, p1) }) + (if seen_before(e, i, p2) || p2 == p1 {
        seq![]
    } else {
        point_node(o, f, t, m, p2)
    }) + edge_text(p1, p2, i)
}

/// The texts of the first `k` edges.
pub open spec fn edge_chunks(o: Output, f: AllFacts, t: Names, m: Option<MirLines>, k: int) -> Seq<char>
    decreases k,
{
    if k <= 0 {
        seq![]
    } else {
        edge_chunks(o, f, t, m, k - 1) + edge_chunk(o, f, t, m, k - 1)
    }
}

/// The graphviz text of the computation: a directed graph with a record for each point of
/// the control-flow edges, in the order in which they first appear, and each edge.
pub open spec fn graphviz_of(o: Output, f: AllFacts, t: Names, m: Option<MirLines>) -> Seq<char> {
    "digraph g {\n  graph [\n  rankdir = \"TD\"\n];\n"@ + edge_chunks(o, f, t, m, f.cfg_edge@.len() as int) + "}"@
}

/// The statements of each basic block, by the block's name.
pub type MirLines = Seq<(Seq<char>, Seq<Seq<char>>)>;

/// The statements of a basic block, by the block's name, as character sequences.
pub open spec fn mir_view(m: Option<Vec<(String, Vec<String>)>>) -> Option<MirLines> {
    match m {
        Some(v) => Some(v@.map_values(|e: (String, Vec<String>)| (e.0@, e.1@.map_values(|l: String| l@)))),
        None => None,
    }
}

/// The block named in a point's name `x`: what stands between its first `(` and its first
/// `[`.
pub open spec fn point_block(x: Seq<char>) -> Seq<char> {
    x.subrange(index_of(x, '(')->0 + 1, index_of(x, '[')->0)
}

/// The offset named in a point's name `x`: what stands between its first `[` and its first
/// `]`.
pub open spec fn point_offset(x: Seq<char>) -> Seq<char> {
    x.subrange(index_of(x, '[')->0 + 1, index_of(x, ']')->0)
}

/// The digits of an offset: the offset without the `+` that may begin it.
pub open spec fn offset_digits(s: Seq<char>) -> Seq<char> {
    if s.len() > 0 && s[0] == '+' { s.drop_first() } else { s }
}

/// Whether `c` is an ASCII digit.
pub open spec fn is_digit(c: char) -> bool {
    '0' <= c && c <= '9'
}

/// The number that the decimal digits `s` write.
pub open spec fn digits_value(s: Seq<char>) -> int
    decreases s.len(),
{
    if s.len() == 0 {
        0
    } else {
        digits_value(s.drop_last()) * 10 + ((s.last() as u32) as int - ('0' as u32) as int)
    }
}

/// The first entry at or after `i` of the block named `b`.
pub open spec fn block_from(m: MirLines, b: Seq<char>, i: int) -> Option<int>
    decreases m.len() - i,
{
    if i < 0 || i >= m.len() {
        None
    } else if m[i].0 == b {
        Some(i)
    } else {
        block_from(m, b, i + 1)
    }
}

/// Whether the point name `x` names a block of `m` and one of its statements: it has a `(`,
/// then a `[`, then a `]`, the block between the first two is in `m`, and the offset
/// between the last two is a decimal number, after an optional `+`, below the number of the
/// block's statements.
pub open spec fn mir_ok(m: MirLines, x: Seq<char>) -> bool {
    &&& index_of(x, '(') is Some
    &&& index_of(x, '[') is Some
    &&& index_of(x, ']') is Some
    &&& index_of(x, '(')->0 + 1 <= index_of(x, '[')->0
    &&& index_of(x, '[')->0 + 1 <= index_of(x, ']')->0
    &&& offset_digits(point_offset(x)).len() > 0
    &&& forall|k: int| 0 <= k < offset_digits(point_offset(x)).len() ==> is_digit(#[trigger] offset_digits(point_offset(x))[k])
    &&& block_from(m, point_block(x), 0) is Some
    &&& digits_value(offset_digits(point_offset(x))) < m[block_from(m, point_block(x), 0)->0].1.len()
}

/// The statement that the point name `x` names in `m`.
pub open spec fn mir_line(m: MirLines, x: Seq<char>) -> Seq<char> {
    m[block_from(m, point_block(x), 0)->0].1[digits_value(offset_digits(point_offset(x)))]
}

/// The statement shown in the record of the point whose escaped name is `x`: nothing without
/// statements, else `| ` and the statement, escaped.
pub open spec fn mir_instr(m: Option<MirLines>, x: Seq<char>) -> Seq<char> {
    match m {
        Some(m) => "| "@ + escaped(mir_line(m, x)),
        None => seq![],
    }
}

/// Whether, with statements, each point of the control-flow edges names one of them.
pub open spec fn mir_fits(m: Option<MirLines>, f: AllFacts, t: Names) -> bool {
    m matches Some(m) ==> forall|k: int| 0 <= k < f.cfg_edge@.len() ==> {
        &&& mir_ok(m, escaped(t.points[(#[trigger] f.cfg_edge@[k]).0 as int]))
        &&& mir_ok(m, escaped(t.points[f.cfg_edge@[k].1 as int]))
    }
}

/// Whether each index of the facts that the graph shows has a name in its table.
pub open spec fn facts_named(f: AllFacts, t: Names) -> bool {
    let points = t.points.len() as int;
    let loans = t.loans.len() as int;
    let origins = t.origins.len() as int;
    let variables = t.variables.len() as int;
    let paths = t.paths.len() as int;
    &&& forall|k: int| 0 <= k < f.cfg_edge@.len() ==> (#[trigger] f.cfg_edge@[k]).0 < points && f.cfg_edge@[k].1 < points
    &&& triples_named(f.loan_issued_at@, origins, loans, points)
    &&& pairs_named(f.loan_killed_at@, loans, points)
    &&& triples_named(f.subset_base@, origins, origins, points)
    &&& pairs_named(f.loan_invalidated_at@, points, loans)
    &&& pairs_named(f.var_used_at@, variables, points)
    &&& pairs_named(f.var_defined_at@, variables, points)
    &&& pairs_named(f.var_dropped_at@, variables, points)
    &&& pairs_named(f.path_assigned_at_base@, paths, points)
    &&& pairs_named(f.path_moved_at_base@, paths, points)
    &&& pairs_named(f.path_accessed_at_base@, paths, points)
}

/// The rows as character sequences.
pub open spec fn rows_view(r: Seq<(u32, Vec<Vec<char>>)>) -> Rows {
    r.map_values(|x: (u32, Vec<Vec<char>>)| (x.0, char_seqs(x.1@)))
}

/// Appends `s` escaped (see [`escaped`]).
fn push_escaped(v: &mut Vec<char>, s: &Vec<char>)
    ensures
        final(v)@ == old(v)@ + escaped(s@),
{
    let ghost start = v@;
    let mut i: usize = 0;
    while i < s.len()
        invariant
            i <= s@.len(),
            v@ == start + escaped(s@.take(i as int)),
        decreases s@.len() - i,
    {
        let c = s[i];
        let ghost before = v@;
        if c == '\\' {
            v.push('\\');
            v.push('\\');
        } else if c == '"' {
            v.push('\\');
            v.push('"');
        } else if c == '(' {
            v.push('\\');
            v.push('(');
        } else if c == ')' {
            v.push('\\');
            v.push(')');
        } else if c == '\n' {
            v.push('\\');
            v.push('n');
        } else {
            v.push(c);
        }
        proof {
            assert(s@.take(i + 1).drop_last() =~= s@.take(i as int));
            assert(v@ =~= before + esc_char(c));
            assert(escaped(s@.take(i + 1)) == escaped(s@.take(i as int)) + esc_char(c));
        }
        i = i + 1;
    }
    proof {
        assert(s@.take(s@.len() as int) =~= s@);
    }
}

/// The name of index `i` of a table, as characters.
fn name_chars(t: &Interner, i: u32) -> (r: Vec<char>)
    requires
        i < t@.len(),
    ensures
        r@ == t@[i as int],
{
    chars_of(t.untern(i))
}

/// The rows of pairs `(x, point)` (see [`rows_xp`]).
fn rows_xp_of(v: &Vec<(u32, u32)>, t: &Interner) -> (r: Vec<(u32, Vec<Vec<char>>)>)
    requires
        forall|k: int| 0 <= k < v@.len() ==> (#[trigger] v@[k]).0 < t@.len(),
    ensures
        rows_view(r@) == rows_xp(v@, t@),
        forall|k: int| 0 <= k < r@.len() ==> (#[trigger] r@[k]).1@.len() == 1,
{
    let mut r: Vec<(u32, Vec<Vec<char>>)> = Vec::new();
    let mut i: usize = 0;
    while i < v.len()
        invariant
            i <= v@.len(),
            forall|k: int| 0 <= k < v@.len() ==> (#[trigger] v@[k]).0 < t@.len(),
            rows_view(r@) == rows_xp(v@.take(i as int), t@),
            forall|k: int| 0 <= k < r@.len() ==> (#[trigger] r@[k]).1@.len() == 1,
        decreases v@.len() - i,
    {
        let (x, p) = v[i];
        let vals = vec![name_chars(t, x)];
        let ghost old_r = r@;
        r.push((p, vals));
        proof {
            assert(char_seqs(vals@) =~= seq![t@[x as int]]);
            assert(v@.take(i + 1) =~= v@.take(i as int).push(v@[i as int]));
            assert(rows_view(r@) =~= rows_view(old_r).push((p, char_seqs(vals@))));
            assert(rows_xp(v@.take(i + 1), t@) =~= rows_xp(v@.take(i as int), t@).push((p, seq![t@[x as int]])));
        }
        i = i + 1;
    }
    proof {
        assert(v@.take(v@.len() as int) =~= v@);
    }
    r
}

/// The rows of pairs `(point, x)` (see [`rows_px`]).
fn rows_px_of(v: &Vec<(u32, u32)>, t: &Interner) -> (r: Vec<(u32, Vec<Vec<char>>)>)
    requires
        forall|k: int| 0 <= k < v@.len() ==> (#[trigger] v@[k]).1 < t@.len(),
    ensures
        rows_view(r@) == rows_px(v@, t@),
        forall|k: int| 0 <= k < r@.len() ==> (#[trigger] r@[k]).1@.len() == 1,
{
    let mut r: Vec<(u32, Vec<Vec<char>>)> = Vec::new();
    let mut i: usize = 0;
    while i < v.len()
        invariant
            i <= v@.len(),
            forall|k: int| 0 <= k < v@.len() ==> (#[trigger] v@[k]).1 < t@.len(),
            rows_view(r@) == rows_px(v@.take(i as int), t@),
            forall|k: int| 0 <= k < r@.len() ==> (#[trigger] r@[k]).1@.len() == 1,
        decreases v@.len() - i,
    {
        let (p, x) = v[i];
        let vals = vec![name_chars(t, x)];
        let ghost old_r = r@;
        r.push((p, vals));
        proof {
            assert(char_seqs(vals@) =~= seq![t@[x as int]]);
            assert(v@.take(i + 1) =~= v@.take(i as int).push(v@[i as int]));
            assert(rows_view(r@) =~= rows_view(old_r).push((p, char_seqs(vals@))));
            assert(rows_px(v@.take(i + 1), t@) =~= rows_px(v@.take(i as int), t@).push((p, seq![t@[x as int]])));
        }
        i = i + 1;
    }
    proof {
        assert(v@.take(v@.len() as int) =~= v@);
    }
    r
}

/// The rows of triples `(x, y, point)` (see [`rows_xyp`]).
fn rows_xyp_of(v: &Vec<(u32, u32, u32)>, tx: &Interner, ty: &Interner) -> (r: Vec<(u32, Vec<Vec<char>>)>)
    requires
        forall|k: int| 0 <= k < v@.len() ==> (#[trigger] v@[k]).0 < tx@.len() && v@[k].1 < ty@.len(),
    ensures
        rows_view(r@) == rows_xyp(v@, tx@, ty@),
        forall|k: int| 0 <= k < r@.len() ==> (#[trigger] r@[k]).1@.len() == 2,
{
    let mut r: Vec<(u32, Vec<Vec<char>>)> = Vec::new();
    let mut i: usize = 0;
    while i < v.len()
        invariant
            i <= v@.len(),
            forall|k: int| 0 <= k < v@.len() ==> (#[trigger] v@[k]).0 < tx@.len() && v@[k].1 < ty@.len(),
            rows_view(r@) == rows_xyp(v@.take(i as int), tx@, ty@),
            forall|k: int| 0 <= k < r@.len() ==> (#[trigger] r@[k]).1@.len() == 2,
        decreases v@.len() - i,
    {
        let (x, y, p) = v[i];
        let vals = vec![name_chars(tx, x), name_chars(ty, y)];
        let ghost old_r = r@;
        r.push((p, vals));
        proof {
            assert(char_seqs(vals@) =~= seq![tx@[x as int], ty@[y as int]]);
            assert(v@.take(i + 1) =~= v@.take(i as int).push(v@[i as int]));
            assert(rows_view(r@) =~= rows_view(old_r).push((p, char_seqs(vals@))));
            assert(rows_xyp(v@.take(i + 1), tx@, ty@) =~= rows_xyp(v@.take(i as int), tx@, ty@).push(
                (p, seq![tx@[x as int], ty@[y as int]]),
            ));
        }
        i = i + 1;
    }
    proof {
        assert(v@.take(v@.len() as int) =~= v@);
    }
    r
}

/// Appends the line of a row (see [`row_text`]).
fn push_row_text(v: &mut Vec<char>, name: &str, vals: &Vec<Vec<char>>, pos: usize)
    requires
        pos <= vals@.len(),
    ensures
        final(v)@ == old(v)@ + row_text(name@, char_seqs(vals@), pos as int),
{
    let ghost vs = char_seqs(vals@);
    let ghost us = seq!['_'];
    let mut items: Vec<Vec<char>> = Vec::new();
    let mut j: usize = 0;
    while j < pos
        invariant
            j <= pos <= vals@.len(),
            vs == char_seqs(vals@),
            char_seqs(items@) == vs.take(j as int),
        decreases pos - j,
    {
        let item = vals[j].clone();
        let ghost before = char_seqs(items@);
        items.push(item);
        proof {
            assert(char_seqs(items@) =~= before.push(vals@[j as int]@));
            assert(vs.take(j + 1) =~= vs.take(j as int).push(vs[j as int]));
        }
        j = j + 1;
    }
    let ghost mid = char_seqs(items@);
    let underscore = vec!['_'];
    proof {
        assert(underscore@ =~= us);
    }
    items.push(underscore);
    proof {
        assert(char_seqs(items@) =~= mid.push(us));
    }
    let ghost head = char_seqs(items@);
    while j < vals.len()
        invariant
            pos <= j <= vals@.len(),
            vs == char_seqs(vals@),
            head == vs.take(pos as int).push(us),
            char_seqs(items@) == head + vs.subrange(pos as int, j as int),
        decreases vals@.len() - j,
    {
        let item = vals[j].clone();
        let ghost before = char_seqs(items@);
        items.push(item);
        proof {
            assert(char_seqs(items@) =~= before.push(vals@[j as int]@));
            assert(vs.subrange(pos as int, j + 1) =~= vs.subrange(pos as int, j as int).push(vs[j as int]));
        }
        j = j + 1;
    }
    proof {
        assert(char_seqs(items@) =~= vs.insert(pos as int, us));
    }
    let mut raw: Vec<char> = Vec::new();
    push_str(&mut raw, name);
    raw.push('(');
    let sep = vec![',', ' '];
    push_joined(&mut raw, &items, &sep);
    raw.push(')');
    proof {
        assert(raw@ =~= name@ + seq!['('] + join(vs.insert(pos as int, us), seq![',', ' ']) + seq![')']);
    }
    push_escaped(v, &raw);
    v.push('\\');
    v.push('l');
    proof {
        assert(final(v)@ =~= old(v)@ + row_text(name@, vs, pos as int));
    }
}

/// The lines of the rows at `p` (see [`text_at`]).
fn text_at_of(name: &str, rows: &Vec<(u32, Vec<Vec<char>>)>, pos: usize, p: u32) -> (r: Vec<char>)
    requires
        forall|k: int| 0 <= k < rows@.len() ==> pos <= (#[trigger] rows@[k]).1@.len(),
    ensures
        r@ == text_at(name@, rows_view(rows@), pos as int, p),
{
    let mut r: Vec<char> = Vec::new();
    let mut i: usize = 0;
    while i < rows.len()
        invariant
            i <= rows@.len(),
            forall|k: int| 0 <= k < rows@.len() ==> pos <= (#[trigger] rows@[k]).1@.len(),
            r@ == text_at(name@, rows_view(rows@.take(i as int)), pos as int, p),
        decreases rows@.len() - i,
    {
        proof {
            assert(rows_view(rows@.take(i + 1)).drop_last() =~= rows_view(rows@.take(i as int)));
            assert(rows_view(rows@.take(i + 1)).last() == (rows@[i as int].0, char_seqs(rows@[i as int].1@)));
        }
        if rows[i].0 == p {
            push_row_text(&mut r, name, &rows[i].1, pos);
        }
        i = i + 1;
    }
    proof {
        assert(rows@.take(rows@.len() as int) =~= rows@);
    }
    r
}

/// The relations as character sequences.
pub open spec fn rels_view(rels: Seq<(&str, Vec<(u32, Vec<Vec<char>>)>, usize)>) -> Relations {
    rels.map_values(|r: (&str, Vec<(u32, Vec<Vec<char>>)>, usize)| (r.0@, rows_view(r.1@), r.2 as int))
}

/// Whether each row of each relation has a place for its point.
pub open spec fn rels_ok(rels: Seq<(&str, Vec<(u32, Vec<Vec<char>>)>, usize)>) -> bool {
    forall|i: int, k: int|
        0 <= i < rels.len() && 0 <= k < rels[i].1@.len() ==> rels[i].2 <= (#[trigger] rels[i].1@[k]).1@.len()
}

/// The texts at `p` of the relations with rows there (see [`texts_at`]).
fn texts_at_of(rels: &Vec<(&str, Vec<(u32, Vec<Vec<char>>)>, usize)>, p: u32) -> (r: Vec<Vec<char>>)
    requires
        rels_ok(rels@),
    ensures
        char_seqs(r@) == texts_at(rels_view(rels@), p),
{
    let mut r: Vec<Vec<char>> = Vec::new();
    let mut i: usize = 0;
    while i < rels.len()
        invariant
            i <= rels@.len(),
            rels_ok(rels@),
            char_seqs(r@) == texts_at(rels_view(rels@.take(i as int)), p),
        decreases rels@.len() - i,
    {
        proof {
            assert(rels_view(rels@.take(i + 1)).drop_last() =~= rels_view(rels@.take(i as int)));
            assert(forall|k: int| 0 <= k < rels@[i as int].1@.len() ==> rels@[i as int].2 <= (#[trigger] rels@[i as int].1@[k]).1@.len());
        }
        let t = text_at_of(rels[i].0, &rels[i].1, rels[i].2, p);
        if t.len() > 0 {
            let ghost before = char_seqs(r@);
            r.push(t);
            proof {
                assert(char_seqs(r@) =~= before.push(t@));
            }
        }
        i = i + 1;
    }
    proof {
        assert(rels@.take(rels@.len() as int) =~= rels@);
    }
    r
}

/// The digits of a prefix write no larger number than all of them.
proof fn lemma_digits_prefix(s: Seq<char>, i: int)
    requires
        0 <= i <= s.len(),
        forall|k: int| 0 <= k < s.len() ==> is_digit(#[trigger] s[k]),
    ensures
        0 <= digits_value(s.take(i)) <= digits_value(s),
    decreases s.len(),
{
    if i == s.len() {
        assert(s.take(i) =~= s);
        if s.len() > 0 {
            lemma_digits_prefix(s.drop_last(), 0);
            assert(is_digit(s[s.len() - 1]));
        }
    } else {
        let d = s.drop_last();
        assert forall|k: int| 0 <= k < d.len() implies is_digit(#[trigger] d[k]) by {
            assert(d[k] == s[k]);
        }
        lemma_digits_prefix(d, i);
        lemma_digits_prefix(d, d.len() as int);
        assert(d.take(i) =~= s.take(i));
        assert(d.take(d.len() as int) =~= d);
        assert(is_digit(s[s.len() - 1]));
    }
}

/// The number that the decimal digits `s` write, below `bound`.
fn digits_number(s: &Vec<char>, bound: usize) -> (r: usize)
    requires
        forall|k: int| 0 <= k < s@.len() ==> is_digit(#[trigger] s@[k]),
        digits_value(s@) < bound,
    ensures
        r as int == digits_value(s@),
{
    let mut n: usize = 0;
    let mut i: usize = 0;
    while i < s.len()
        invariant
            i <= s@.len(),
            forall|k: int| 0 <= k < s@.len() ==> is_digit(#[trigger] s@[k]),
            digits_value(s@) < bound,
            n as int == digits_value(s@.take(i as int)),
        decreases s@.len() - i,
    {
        let c = s[i];
        proof {
            lemma_digits_prefix(s@, i + 1);
            assert(s@.take(i + 1).drop_last() =~= s@.take(i as int));
            assert(s@.take(i + 1).last() == c);
            assert(is_digit(c));
        }
        let d = (c as u32 - '0' as u32) as usize;
        n = n * 10 + d;
        i = i + 1;
    }
    proof {
        assert(s@.take(s@.len() as int) =~= s@);
    }
    n
}

/// Where the block named `b` is in `m` (see [`block_from`]).
fn find_block(m: &Vec<(String, Vec<String>)>, b: &Vec<char>) -> (r: Option<usize>)
    ensures
        r matches Some(j) ==> j < m@.len() && block_from(mir_view(Some(*m))->0, b@, 0) == Some(j as int),
        r is None ==> block_from(mir_view(Some(*m))->0, b@, 0) is None,
{
    let ghost mv = mir_view(Some(*m))->0;
    let mut i: usize = 0;
    while i < m.len()
        invariant
            i <= m@.len(),
            mv == mir_view(Some(*m))->0,
            mv.len() == m@.len(),
            block_from(mv, b@, 0) == block_from(mv, b@, i as int),
        decreases m@.len() - i,
    {
        let name = chars_of(&m[i].0);
        proof {
            assert(mv[i as int].0 == m@[i as int].0@);
        }
        if same_chars(&name, b) {
            return Some(i);
        }
        i = i + 1;
    }
    None
}

/// Appends the statement shown in the record of the point whose escaped name is `x` (see
/// [`mir_instr`]).
fn push_instr(v: &mut Vec<char>, mir: &Option<Vec<(String, Vec<String>)>>, x: &Vec<char>)
    requires
        mir_view(*mir) matches Some(m) ==> mir_ok(m, x@),
    ensures
        final(v)@ == old(v)@ + mir_instr(mir_view(*mir), x@),
{
    match mir {
        None => {
            proof {
                assert(v@ =~= v@ + mir_instr(mir_view(*mir), x@));
            }
        },
        Some(m) => {
            let ghost mv = mir_view(Some(*m))->0;
            let ghost start = v@;
            let a = find_char(x, '(');
            let b = find_char(x, '[');
            let c = find_char(x, ']');
            if let (Some(a), Some(b), Some(c)) = (a, b, c) {
                proof {
                    assert(mir_ok(mv, x@));
                    assert(index_of(x@, '(') == Some(a as int));
                    assert(index_of(x@, '[') == Some(b as int));
                    assert(index_of(x@, ']') == Some(c as int));
                    lemma_index_from(x@, ']', 0);
                }
                let bb = slice(x, a + 1, b);
                let off = slice(x, b + 1, c);
                let digits = if off.len() > 0 && off[0] == '+' {
                    slice(&off, 1, off.len())
                } else {
                    off
                };
                proof {
                    assert(bb@ == point_block(x@));
                    assert(digits@ =~= offset_digits(point_offset(x@)));
                }
                if let Some(j) = find_block(m, &bb) {
                    let lines = &m[j].1;
                    proof {
                        assert(mv[j as int].1 == lines@.map_values(|l: String| l@));
                    }
                    let n = digits_number(&digits, lines.len());
                    let line = chars_of(&lines[n]);
                    push_str(v, "| ");
                    push_escaped(v, &line);
                    proof {
                        assert(line@ == mir_line(mv, x@));
                        assert(v@ =~= start + mir_instr(mir_view(*mir), x@));
                    }
                }
            }
        },
    }
}

/// Appends the record of the point `p` (see [`node_text`]).
fn push_node(
    v: &mut Vec<char>,
    p: u32,
    tables: &InternerTables,
    mir: &Option<Vec<(String, Vec<String>)>>,
    ins: &Vec<(&str, Vec<(u32, Vec<Vec<char>>)>, usize)>,
    outs: &Vec<(&str, Vec<(u32, Vec<Vec<char>>)>, usize)>,
)
    requires
        p < tables.points@.len(),
        rels_ok(ins@),
        rels_ok(outs@),
        mir_view(*mir) matches Some(m) ==> mir_ok(m, escaped(tables.points@[p as int])),
    ensures
        final(v)@ == old(v)@ + node_text(
            p,
            tables.points@[p as int],
            mir_instr(mir_view(*mir), escaped(tables.points@[p as int])),
            texts_at(rels_view(ins@), p),
            texts_at(rels_view(outs@), p),
        ),
{
    let in_texts = texts_at_of(ins, p);
    let out_texts = texts_at_of(outs, p);
    let name = name_chars(&tables.points, p);
    let bar = chars_of(" | ");
    push_str(v, "\"node");
    push_decimal(v, p as u64);
    push_str(v, "\" [\n  label = \"{ <f0> ");
    let mut esc: Vec<char> = Vec::new();
    push_escaped(&mut esc, &name);
    push_chars(v, &esc);
    push_str(v, " ");
    push_instr(v, mir, &esc);
    push_str(v, " | INPUTS | ");
    push_joined(v, &in_texts, &bar);
    push_str(v, " | OUTPUTS | ");
    push_joined(v, &out_texts, &bar);
    push_str(v, " }\"\n  shape = \"record\"\n];\n");
    proof {
        assert(final(v)@ =~= old(v)@ + node_text(
            p,
            tables.points@[p as int],
            mir_instr(mir_view(*mir), escaped(tables.points@[p as int])),
            texts_at(rels_view(ins@), p),
            texts_at(rels_view(outs@), p),
        ));
    }
}

/// Whether `p` is one of `v`.
fn has_point(v: &Vec<u32>, p: u32) -> (b: bool)
    ensures
        b == v@.contains(p),
{
    let mut i: usize = 0;
    while i < v.len()
        invariant
            i <= v@.len(),
            forall|k: int| 0 <= k < i ==> v@[k] != p,
        decreases v@.len() - i,
    {
        if v[i] == p {
            return true;
        }
        i = i + 1;
    }
    false
}

/// The input relations shown at each point, with their rows.
fn input_rels(facts: &AllFacts, tables: &InternerTables) -> (r: Vec<(&'static str, Vec<(u32, Vec<Vec<char>>)>, usize)>)
    requires
        facts_named(*facts, names_of(tables)),
    ensures
        rels_view(r@) == graph_inputs(*facts, names_of(tables)),
        rels_ok(r@),
{
    let r = vec![
        ("loan_issued_at", rows_xyp_of(&facts.loan_issued_at, &tables.origins, &tables.loans), 2),
        ("loan_killed_at", rows_xp_of(&facts.loan_killed_at, &tables.loans), 1),
        ("subset_base", rows_xyp_of(&facts.subset_base, &tables.origins, &tables.origins), 2),
        ("loan_invalidated_at", rows_px_of(&facts.loan_invalidated_at, &tables.loans), 0),
        ("var_used_at", rows_xp_of(&facts.var_used_at, &tables.variables), 1),
        ("var_defined_at", rows_xp_of(&facts.var_defined_at, &tables.variables), 1),
        ("var_dropped_at", rows_xp_of(&facts.var_dropped_at, &tables.variables), 1),
        ("path_assigned_at_base", rows_xp_of(&facts.path_assigned_at_base, &tables.paths), 1),
        ("path_moved_at_base", rows_xp_of(&facts.path_moved_at_base, &tables.paths), 1),
        ("path_accessed_at_base", rows_xp_of(&facts.path_accessed_at_base, &tables.paths), 1),
    ];
    proof {
        assert(rels_view(r@) =~= graph_inputs(*facts, names_of(tables)));
    }
    r
}

/// The output relations shown at each point, with their rows.
fn output_rels(output: &Output, tables: &InternerTables) -> (r: Vec<(&'static str, Vec<(u32, Vec<Vec<char>>)>, usize)>)
    requires
        names_in_tables(*output, *tables),
    ensures
        rels_view(r@) == graph_outputs(*output, names_of(tables)),
        rels_ok(r@),
{
    let r = vec![
        ("loan_live_at", rows_xp_of(&output.loan_live_at, &tables.loans), 0),
        ("origin_contains_loan_at", rows_xyp_of(&output.origin_contains_loan_at, &tables.origins, &tables.loans), 0),
        ("loan_invalidated_at", rows_xp_of(&output.loan_invalidated_at, &tables.loans), 0),
        ("subset", rows_xyp_of(&output.subset, &tables.origins, &tables.origins), 0),
        ("var_live_on_entry", rows_xp_of(&output.var_live_on_entry, &tables.variables), 1),
        ("var_drop_live_on_entry", rows_xp_of(&output.var_drop_live_on_entry, &tables.variables), 1),
        ("origin_live_on_entry", rows_xp_of(&output.origin_live_on_entry, &tables.origins), 1),
        (
            "var_maybe_partly_initialized_on_exit",
            rows_xp_of(&output.var_maybe_partly_initialized_on_exit, &tables.variables),
            1,
        ),
        ("path_maybe_initialized_on_exit", rows_xp_of(&output.path_maybe_initialized_on_exit, &tables.paths), 1),
        ("move_errors", rows_xp_of(&output.move_errors, &tables.paths), 1),
    ];
    proof {
        assert(rels_view(r@) =~= graph_outputs(*output, names_of(tables)));
    }
    r
}

/// Appends the text of the `i`-th edge (see [`edge_chunk`]), where `seen` holds the points of
/// the edges before it.
fn push_chunk(
    v: &mut Vec<char>,
    seen: &Vec<u32>,
    i: usize,
    output: &Output,
    facts: &AllFacts,
    tables: &InternerTables,
    mir: &Option<Vec<(String, Vec<String>)>>,
    ins: &Vec<(&str, Vec<(u32, Vec<Vec<char>>)>, usize)>,
    outs: &Vec<(&str, Vec<(u32, Vec<Vec<char>>)>, usize)>,
)
    requires
        i < facts.cfg_edge@.len(),
        facts_named(*facts, names_of(tables)),
        mir_fits(mir_view(*mir), *facts, names_of(tables)),
        rels_view(ins@) == graph_inputs(*facts, names_of(tables)),
        rels_view(outs@) == graph_outputs(*output, names_of(tables)),
        rels_ok(ins@),
        rels_ok(outs@),
        forall|p: u32| #[trigger] seen@.contains(p) <==> seen_before(facts.cfg_edge@, i as int, p),
    ensures
        final(v)@ == old(v)@ + edge_chunk(*output, *facts, names_of(tables), mir_view(*mir), i as int),
{
    let ghost o = *output;
    let ghost f = *facts;
    let ghost t = names_of(tables);
    let ghost e = facts.cfg_edge@;
    let ghost m = mir_view(*mir);
    let (p1, p2) = facts.cfg_edge[i];
    let ghost before = v@;
    proof {
        assert(e[i as int] == (p1, p2));
        assert(p1 < tables.points@.len() && p2 < tables.points@.len());
    }
    let s1 = has_point(seen, p1);
    if !s1 {
        push_node(v, p1, tables, mir, ins, outs);
    }
    let ghost after1 = v@;
    let s2 = has_point(seen, p2);
    if !s2 && p2 != p1 {
        push_node(v, p2, tables, mir, ins, outs);
    }
    let ghost after2 = v@;
    push_str(v, "\"node");
    push_decimal(v, p1 as u64);
    push_str(v, "\" -> \"node");
    push_decimal(v, p2 as u64);
    push_str(v, "\":f0 [\n  id = ");
    push_decimal(v, i as u64);
    push_str(v, "\n];\n");
    proof {
        assert(v@ =~= after2 + edge_text(p1, p2, i as int));
        assert(after1 =~= before + (if seen_before(e, i as int, p1) { seq![] } else { point_node(o, f, t, m, p1) }));
        assert(after2 =~= after1 + (if seen_before(e, i as int, p2) || p2 == p1 {
            seq![]
        } else {
            point_node(o, f, t, m, p2)
        }));
        assert(v@ =~= before + edge_chunk(o, f, t, m, i as int));
    }
}

/// The graphviz text of the computation (see [`graphviz_of`]): a record for each point of the
/// control-flow edges, with the input facts and the output tuples at it, and the edges.
#[verifier::rlimit(30)]
pub fn graphviz_text(
    output: &Output,
    facts: &AllFacts,
    tables: &InternerTables,
    mir: &Option<Vec<(String, Vec<String>)>>,
) -> (r: String)
    requires
        facts_named(*facts, names_of(tables)),
        names_in_tables(*output, *tables),
        mir_fits(mir_view(*mir), *facts, names_of(tables)),
        facts.cfg_edge@.len() <= u64::MAX,
    ensures
        r@ == graphviz_of(*output, *facts, names_of(tables), mir_view(*mir)),
{
    let ins = input_rels(facts, tables);
    let outs = output_rels(output, tables);
    let ghost o = *output;
    let ghost f = *facts;
    let ghost t = names_of(tables);
    let ghost e = facts.cfg_edge@;
    let ghost m = mir_view(*mir);
    let mut v: Vec<char> = Vec::new();
    push_str(&mut v, "digraph g {\n  graph [\n  rankdir = \"TD\"\n];\n");
    let ghost head = v@;
    let mut seen: Vec<u32> = Vec::new();
    let mut i: usize = 0;
    while i < facts.cfg_edge.len()
        invariant
            i <= e.len(),
            e == facts.cfg_edge@,
            f == *facts,
            o == *output,
            t == names_of(tables),
            e.len() <= u64::MAX,
            facts_named(f, t),
            m == mir_view(*mir),
            mir_fits(m, f, t),
            rels_view(ins@) == graph_inputs(f, t),
            rels_view(outs@) == graph_outputs(o, t),
            rels_ok(ins@),
            rels_ok(outs@),
            head == "digraph g {\n  graph [\n  rankdir = \"TD\"\n];\n"@,
            v@ == head + edge_chunks(o, f, t, m, i as int),
            forall|p: u32| #[trigger] seen@.contains(p) <==> seen_before(e, i as int, p),
        decreases e.len() - i,
    {
        let (p1, p2) = facts.cfg_edge[i];
        proof {
            assert(e[i as int] == (p1, p2));
        }
        push_chunk(&mut v, &seen, i, output, facts, tables, mir, &ins, &outs);
        proof {
            assert(v@ =~= head + edge_chunks(o, f, t, m, i + 1));
        }
        let ghost old_seen = seen@;
        seen.push(p1);
        seen.push(p2);
        proof {
            assert(seen@ == old_seen.push(p1).push(p2));
            assert forall|p: u32| #[trigger] seen@.contains(p) <==> seen_before(e, i + 1, p) by {
                if seen_before(e, i + 1, p) {
                    let j = choose|j: int| 0 <= j < i + 1 && (#[trigger] e[j].0 == p || e[j].1 == p);
                    if j < i {
                        assert(seen_before(e, i as int, p));
                        assert(old_seen.contains(p));
                        let k = choose|k: int| 0 <= k < old_seen.len() && old_seen[k] == p;
                        assert(seen@[k] == p);
                    } else {
                        assert(seen@[old_seen.len() as int] == p1);
                        assert(seen@[old_seen.len() as int + 1] == p2);
                    }
                }
                if seen@.contains(p) {
                    let k = choose|k: int| 0 <= k < seen@.len() && seen@[k] == p;
                    if k < old_seen.len() {
                        assert(old_seen[k] == p);
                        assert(old_seen.contains(p));
                        assert(seen_before(e, i as int, p));
                        let j = choose|j: int| 0 <= j < i && (#[trigger] e[j].0 == p || e[j].1 == p);
                        assert(0 <= j < i + 1);
                    } else {
                        assert(0 <= i < i + 1 && (e[i as int].0 == p || e[i as int].1 == p));
                    }
                }
            }
        }
        i = i + 1;
    }
    push_str(&mut v, "}");
    string_of(&v)
}


/// The input facts at the point `p`, as the graphviz record lists them (see [`texts_at`] and
/// [`graph_inputs`]): for each input relation with rows at `p`, their lines, escaped.
pub fn inputs_by_point(facts: &AllFacts, tables: &InternerTables, p: u32) -> (r: Vec<String>)
    requires
        facts_named(*facts, names_of(tables)),
    ensures
        r@.len() == texts_at(graph_inputs(*facts, names_of(tables)), p).len(),
        forall|k: int| 0 <= k < r@.len() ==> (#[trigger] r@[k])@ == texts_at(graph_inputs(*facts, names_of(tables)), p)[k],
{
    let ins = input_rels(facts, tables);
    let t = texts_at_of(&ins, p);
    strings_of(&t)
}

/// The output tuples at the point `p`, as the graphviz record lists them (see [`texts_at`]
/// and [`graph_outputs`]): for each output relation with rows at `p`, their lines, escaped.
pub fn outputs_by_point(output: &Output, tables: &InternerTables, p: u32) -> (r: Vec<String>)
    requires
        names_in_tables(*output, *tables),
    ensures
        r@.len() == texts_at(graph_outputs(*output, names_of(tables)), p).len(),
        forall|k: int| 0 <= k < r@.len() ==> (#[trigger] r@[k])@ == texts_at(graph_outputs(*output, names_of(tables)), p)[k],
{
    let outs = output_rels(output, tables);
    let t = texts_at_of(&outs, p);
    strings_of(&t)
}

/// The strings of some character sequences.
fn strings_of(v: &Vec<Vec<char>>) -> (r: Vec<String>)
    ensures
        r@.len() == v@.len(),
        forall|k: int| 0 <= k < r@.len() ==> (#[trigger] r@[k])@ == char_seqs(v@)[k],
{
    let mut r: Vec<String> = Vec::new();
    let mut i: usize = 0;
    while i < v.len()
        invariant
            i <= v@.len(),
            r@.len() == i,
            forall|k: int| 0 <= k < i ==> (#[trigger] r@[k])@ == char_seqs(v@)[k],
        decreases v@.len() - i,
    {
        let s = string_of(&v[i]);
        r.push(s);
        i = i + 1;
    }
    r
}


/// Whether the rows are, one for each pair `(x, point)` of `v` and in its order, the pair's
/// point with the name of `x` in `names`.
pub open spec fn shows_xp(rows: Rows, v: Seq<(u32, u32)>, names: Seq<Seq<char>>) -> bool {
    &&& rows.len() == v.len()
    &&& forall|j: int| 0 <= j < v.len() ==> #[trigger] rows[j] == (v[j].1, seq![names[v[j].0 as int]])
}

/// Whether the rows are, one for each pair `(point, x)` of `v` and in its order, the pair's
/// point with the name of `x` in `names`.
pub open spec fn shows_px(rows: Rows, v: Seq<(u32, u32)>, names: Seq<Seq<char>>) -> bool {
    &&& rows.len() == v.len()
    &&& forall|j: int| 0 <= j < v.len() ==> #[trigger] rows[j] == (v[j].0, seq![names[v[j].1 as int]])
}

/// Whether the rows are, one for each triple `(x, y, point)` of `v` and in its order, the
/// triple's point with the name of `x` in `xs` and that of `y` in `ys`.
pub open spec fn shows_xyp(rows: Rows, v: Seq<(u32, u32, u32)>, xs: Seq<Seq<char>>, ys: Seq<Seq<char>>) -> bool {
    &&& rows.len() == v.len()
    &&& forall|j: int| 0 <= j < v.len() ==> #[trigger] rows[j] == (v[j].2, seq![xs[v[j].0 as int], ys[v[j].1 as int]])
}

/// Each relation that the graph shows at its points is the relation of the facts or of the
/// output that it is named after, tuple for tuple, with its components named in the tables of
/// their kinds and `_` standing for the point: the inputs `loan_issued_at(origin, loan, _)`,
/// `loan_killed_at(loan, _)`, `subset_base(origin, origin, _)`, `loan_invalidated_at(_,
/// loan)`, `var_used_at(variable, _)`, `var_defined_at(variable, _)`,
/// `var_dropped_at(variable, _)`, `path_assigned_at_base(path, _)`,
/// `path_moved_at_base(path, _)`, `path_accessed_at_base(path, _)`, and the outputs
/// `loan_live_at(_, loan)`, `origin_contains_loan_at(_, origin, loan)`,
/// `loan_invalidated_at(_, loan)`, `subset(_, origin, origin)`, `var_live_on_entry(variable,
/// _)`, `var_drop_live_on_entry(variable, _)`, `origin_live_on_entry(origin, _)`,
/// `var_maybe_partly_initialized_on_exit(variable, _)`, `path_maybe_initialized_on_exit(path,
/// _)` and `move_errors(path, _)`.
pub proof fn lemma_graph_shows_the_named_relations(o: Output, f: AllFacts, t: Names)
    ensures
        graph_inputs(f, t).len() == 10,
        graph_inputs(f, t)[0].0 == "loan_issued_at"@ && graph_inputs(f, t)[0].2 == 2
            && shows_xyp(graph_inputs(f, t)[0].1, f.loan_issued_at@, t.origins, t.loans),
        graph_inputs(f, t)[1].0 == "loan_killed_at"@ && graph_inputs(f, t)[1].2 == 1
            && shows_xp(graph_inputs(f, t)[1].1, f.loan_killed_at@, t.loans),
        graph_inputs(f, t)[2].0 == "subset_base"@ && graph_inputs(f, t)[2].2 == 2
            && shows_xyp(graph_inputs(f, t)[2].1, f.subset_base@, t.origins, t.origins),
        graph_inputs(f, t)[3].0 == "loan_invalidated_at"@ && graph_inputs(f, t)[3].2 == 0
            && shows_px(graph_inputs(f, t)[3].1, f.loan_invalidated_at@, t.loans),
        graph_inputs(f, t)[4].0 == "var_used_at"@ && graph_inputs(f, t)[4].2 == 1
            && shows_xp(graph_inputs(f, t)[4].1, f.var_used_at@, t.variables),
        graph_inputs(f, t)[5].0 == "var_defined_at"@ && graph_inputs(f, t)[5].2 == 1
            && shows_xp(graph_inputs(f, t)[5].1, f.var_defined_at@, t.variables),
        graph_inputs(f, t)[6].0 == "var_dropped_at"@ && graph_inputs(f, t)[6].2 == 1
            && shows_xp(graph_inputs(f, t)[6].1, f.var_dropped_at@, t.variables),
        graph_inputs(f, t)[7].0 == "path_assigned_at_base"@ && graph_inputs(f, t)[7].2 == 1
            && shows_xp(graph_inputs(f, t)[7].1, f.path_assigned_at_base@, t.paths),
        graph_inputs(f, t)[8].0 == "path_moved_at_base"@ && graph_inputs(f, t)[8].2 == 1
            && shows_xp(graph_inputs(f, t)[8].1, f.path_moved_at_base@, t.paths),
        graph_inputs(f, t)[9].0 == "path_accessed_at_base"@ && graph_inputs(f, t)[9].2 == 1
            && shows_xp(graph_inputs(f, t)[9].1, f.path_accessed_at_base@, t.paths),
        graph_outputs(o, t).len() == 10,
        graph_outputs(o, t)[0].0 == "loan_live_at"@ && graph_outputs(o, t)[0].2 == 0
            && shows_xp(graph_outputs(o, t)[0].1, o.loan_live_at@, t.loans),
        graph_outputs(o, t)[1].0 == "origin_contains_loan_at"@ && graph_outputs(o, t)[1].2 == 0
            && shows_xyp(graph_outputs(o, t)[1].1, o.origin_contains_loan_at@, t.origins, t.loans),
        graph_outputs(o, t)[2].0 == "loan_invalidated_at"@ && graph_outputs(o, t)[2].2 == 0
            && shows_xp(graph_outputs(o, t)[2].1, o.loan_invalidated_at@, t.loans),
        graph_outputs(o, t)[3].0 == "subset"@ && graph_outputs(o, t)[3].2 == 0
            && shows_xyp(graph_outputs(o, t)[3].1, o.subset@, t.origins, t.origins),
        graph_outputs(o, t)[4].0 == "var_live_on_entry"@ && graph_outputs(o, t)[4].2 == 1
            && shows_xp(graph_outputs(o, t)[4].1, o.var_live_on_entry@, t.variables),
        graph_outputs(o, t)[5].0 == "var_drop_live_on_entry"@ && graph_outputs(o, t)[5].2 == 1
            && shows_xp(graph_outputs(o, t)[5].1, o.var_drop_live_on_entry@, t.variables),
        graph_outputs(o, t)[6].0 == "origin_live_on_entry"@ && graph_outputs(o, t)[6].2 == 1
            && shows_xp(graph_outputs(o, t)[6].1, o.origin_live_on_entry@, t.origins),
        graph_outputs(o, t)[7].0 == "var_maybe_partly_initialized_on_exit"@ && graph_outputs(o, t)[7].2 == 1
            && shows_xp(graph_outputs(o, t)[7].1, o.var_maybe_partly_initialized_on_exit@, t.variables),
        graph_outputs(o, t)[8].0 == "path_maybe_initialized_on_exit"@ && graph_outputs(o, t)[8].2 == 1
            && shows_xp(graph_outputs(o, t)[8].1, o.path_maybe_initialized_on_exit@, t.paths),
        graph_outputs(o, t)[9].0 == "move_errors"@ && graph_outputs(o, t)[9].2 == 1
            && shows_xp(graph_outputs(o, t)[9].1, o.move_errors@, t.paths),
{
}

} // verus!
