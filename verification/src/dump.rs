//! The relations of an analysis' output as rows of names, and the text in which they are
//! dumped: one line per row, the columns padded to a common width.

use vstd::prelude::*;
use crate::intern::{Interner, InternerTables};
use crate::ir::strs_view;
use crate::pipeline::{firsts_at, firsts_of_pairs_at, Output};

verus! {

// ---------------------------------------------------------------------------------------------
// The text of rows.

/// The number of bytes of the UTF-8 form of a name, as `str::len` gives it.
pub open spec fn name_bytes(s: Seq<char>) -> int {
    (vstd::utf8::encode_utf8(s).len() as usize) as int
}

/// The width of the widest column of a row.
pub open spec fn row_width(row: Seq<Seq<char>>) -> int
    decreases row.len(),
{
    if row.len() == 0 {
        0
    } else {
        let w = row_width(row.drop_last());
        let b = name_bytes(row.last());
        if b > w { b } else { w }
    }
}

/// The width of the widest column of the rows.
pub open spec fn rows_width(rows: Seq<Seq<Seq<char>>>) -> int
    decreases rows.len(),
{
    if rows.len() == 0 {
        0
    } else {
        let w = rows_width(rows.drop_last());
        let b = row_width(rows.last());
        if b > w { b } else { w }
    }
}

/// `n` spaces.
pub open spec fn spaces(n: int) -> Seq<char> {
    Seq::new(n as nat, |i: int| ' ')
}

/// The columns before the last one, each followed by spaces up to the width and one more.
pub open spec fn padded_cols(cols: Seq<Seq<char>>, width: int) -> Seq<char>
    decreases cols.len(),
{
    if cols.len() == 0 {
        seq![]
    } else {
        padded_cols(cols.drop_last(), width) + cols.last() + spaces(width - name_bytes(cols.last()) + 1)
    }
}

/// The line of a row: after the relation's name and a space where there is one, its padded
/// columns, its last column, and a line break.
pub open spec fn row_line(name: Option<Seq<char>>, row: Seq<Seq<char>>, width: int) -> Seq<char> {
    (match name {
        Some(n) => n + seq![' '],
        None => seq![],
    }) + padded_cols(row.drop_last(), width) + row.last() + seq!['\n']
}

/// The lines of the first `n` rows.
pub open spec fn rows_lines(name: Option<Seq<char>>, rows: Seq<Seq<Seq<char>>>, width: int, n: int) -> Seq<char>
    decreases n,
{
    if n <= 0 { seq![] } else { rows_lines(name, rows, width, n - 1) + row_line(name, rows[n - 1], width) }
}

/// The text of the rows, padded to the width of their widest column.
pub open spec fn rows_text(name: Option<Seq<char>>, rows: Seq<Seq<Seq<char>>>) -> Seq<char> {
    rows_lines(name, rows, rows_width(rows), rows.len() as int)
}

/// The rows held by `v`, as character sequences.
pub open spec fn rows_view(v: Seq<Vec<String>>) -> Seq<Seq<Seq<char>>> {
    v.map_values(|r: Vec<String>| strs_view(r@))
}

/// The characters of an optional name.
pub open spec fn name_view(name: Option<&str>) -> Option<Seq<char>> {
    match name {
        Some(s) => Some(s@),
        None => None,
    }
}

/// The width of the widest column of `row`.
fn row_width_of(row: &Vec<String>) -> (r: usize)
    ensures
        r == row_width(strs_view(row@)),
{
    let ghost v = strs_view(row@);
    let mut w: usize = 0;
    let mut i: usize = 0;
    proof {
        assert(v.take(0) =~= seq![]);
    }
    while i < row.len()
        invariant
            i <= row.len(),
            v == strs_view(row@),
            w == row_width(v.take(i as int)),
        decreases row.len() - i,
    {
        let b = row[i].as_str().len();
        proof {
            assert(v.take(i + 1).drop_last() =~= v.take(i as int));
            assert(v.take(i + 1).last() == row@[i as int]@);
        }
        if b > w {
            w = b;
        }
        i = i + 1;
    }
    proof {
        assert(v.take(row.len() as int) =~= v);
    }
    w
}

/// The width of the widest column of the rows.
fn rows_width_of(rows: &Vec<Vec<String>>) -> (r: usize)
    ensures
        r == rows_width(rows_view(rows@)),
{
    let ghost v = rows_view(rows@);
    let mut w: usize = 0;
    let mut i: usize = 0;
    proof {
        assert(v.take(0) =~= seq![]);
    }
    while i < rows.len()
        invariant
            i <= rows.len(),
            v == rows_view(rows@),
            w == rows_width(v.take(i as int)),
        decreases rows.len() - i,
    {
        let b = row_width_of(&rows[i]);
        proof {
            assert(v.take(i + 1).drop_last() =~= v.take(i as int));
            assert(v.take(i + 1).last() == strs_view(rows@[i as int]@));
        }
        if b > w {
            w = b;
        }
        i = i + 1;
    }
    proof {
        assert(v.take(rows.len() as int) =~= v);
    }
    w
}

/// No column of a row is wider than the row's width, nor a row wider than the rows' width.
proof fn lemma_widths(rows: Seq<Seq<Seq<char>>>, i: int, j: int)
    requires
        0 <= i < rows.len(),
        0 <= j < rows[i].len(),
    ensures
        name_bytes(rows[i][j]) <= row_width(rows[i]) <= rows_width(rows),
    decreases rows.len(),
{
    lemma_row_width(rows[i], j);
    if i < rows.len() - 1 {
        lemma_widths(rows.drop_last(), i, j);
    }
}

/// No column of a row is wider than the row's width.
proof fn lemma_row_width(row: Seq<Seq<char>>, j: int)
    requires
        0 <= j < row.len(),
    ensures
        name_bytes(row[j]) <= row_width(row),
    decreases row.len(),
{
    if j < row.len() - 1 {
        lemma_row_width(row.drop_last(), j);
    }
}

/// Appends `n` spaces.
fn push_spaces(s: &mut String, n: usize)
    ensures
        final(s)@ == old(s)@ + spaces(n as int),
{
    let mut k: usize = 0;
    while k < n
        invariant
            k <= n,
            s@ == old(s)@ + spaces(k as int),
        decreases n - k,
    {
        crate::text::string_push(s, ' ');
        proof {
            assert(spaces(k + 1) =~= spaces(k as int).push(' '));
        }
        k = k + 1;
    }
}

/// Appends the characters of `t`.
fn push_text(s: &mut String, t: &str)
    ensures
        final(s)@ == old(s)@ + t@,
{
    let ghost start = s@;
    for c in it: t.chars()
        invariant
            s@ == start + it.seq().take(it.index() as int),
            it.seq() == t@,
    {
        crate::text::string_push(s, c);
        proof {
            assert(it.seq().take(it.index() + 1) =~= it.seq().take(it.index() as int).push(c));
        }
    }
    proof {
        assert(t@.take(t@.len() as int) =~= t@);
    }
}

/// Appends the line of a row (see [`row_line`]).
fn push_row_line(out: &mut String, name: Option<&str>, row: &Vec<String>, width: usize)
    requires
        row.len() > 0,
        forall|j: int| 0 <= j < row.len() ==> name_bytes(#[trigger] strs_view(row@)[j]) <= width,
    ensures
        final(out)@ == old(out)@ + row_line(name_view(name), strs_view(row@), width as int),
{
    let ghost v = strs_view(row@);
    let ghost start = out@;
    match name {
        Some(n) => {
            push_text(out, n);
            crate::text::string_push(out, ' ');
        },
        None => {},
    }
    let ghost head = out@;
    let last = row.len() - 1;
    let mut i: usize = 0;
    proof {
        assert(v.drop_last().take(0) =~= seq![]);
    }
    while i < last
        invariant
            i <= last,
            last == row.len() - 1,
            v == strs_view(row@),
            forall|j: int| 0 <= j < row.len() ==> name_bytes(#[trigger] v[j]) <= width,
            out@ == head + padded_cols(v.drop_last().take(i as int), width as int),
        decreases last - i,
    {
        let col = row[i].as_str();
        proof {
            assert(v[i as int] == col@);
            assert(name_bytes(v[i as int]) <= width);
            assert(v.drop_last().take(i + 1).drop_last() =~= v.drop_last().take(i as int));
            assert(v.drop_last().take(i + 1).last() == v[i as int]);
        }
        push_text(out, col);
        let padding = width - col.len();
        crate::text::string_push(out, ' ');
        push_spaces(out, padding);
        proof {
            assert(spaces(padding + 1) =~= seq![' '] + spaces(padding as int));
        }
        i = i + 1;
    }
    proof {
        assert(v.drop_last().take(last as int) =~= v.drop_last());
        assert(v.last() == row@[last as int]@);
    }
    push_text(out, row[last].as_str());
    crate::text::string_push(out, '\n');
    proof {
        let prefix = match name_view(name) {
            Some(n) => n + seq![' '],
            None => seq![],
        };
        assert(head =~= start + prefix);
        assert(out@ =~= start + row_line(name_view(name), v, width as int));
    }
}

/// The text of the rows, each on a line, the columns padded to the width of the widest one,
/// each line after `name` and a space where a name is given.
pub fn dump_rows(name: Option<&str>, rows: &Vec<Vec<String>>) -> (r: String)
    requires
        forall|i: int| 0 <= i < rows.len() ==> (#[trigger] rows@[i]).len() > 0,
    ensures
        r@ == rows_text(name_view(name), rows_view(rows@)),
{
    let ghost v = rows_view(rows@);
    let width = rows_width_of(rows);
    let mut out = String::new();
    let mut i: usize = 0;
    proof {
        assert(out@ =~= seq![]);
    }
    while i < rows.len()
        invariant
            i <= rows.len(),
            v == rows_view(rows@),
            width == rows_width(v),
            forall|k: int| 0 <= k < rows.len() ==> (#[trigger] rows@[k]).len() > 0,
            out@ == rows_lines(name_view(name), v, width as int, i as int),
        decreases rows.len() - i,
    {
        proof {
            assert(v[i as int] == strs_view(rows@[i as int]@));
            assert forall|j: int| 0 <= j < rows@[i as int].len() implies name_bytes(
                #[trigger] strs_view(rows@[i as int]@)[j],
            ) <= width by {
                lemma_widths(v, i as int, j);
            }
        }
        push_row_line(&mut out, name, &rows[i], width);
        i = i + 1;
    }
    out
}

// ---------------------------------------------------------------------------------------------
// The rows of the output relations.

/// The sorted keys `keys` with `k` in its place, where they do not hold it yet.
pub open spec fn ins_key(keys: Seq<u32>, k: u32) -> Seq<u32>
    decreases keys.len(),
{
    if keys.len() == 0 {
        seq![k]
    } else if k == keys[0] {
        keys
    } else if k < keys[0] {
        seq![k] + keys
    } else {
        seq![keys[0]] + ins_key(keys.drop_first(), k)
    }
}

/// The points of the pairs `(x, point)`, sorted, each once.
pub open spec fn pair_points(pairs: Seq<(u32, u32)>) -> Seq<u32>
    decreases pairs.len(),
{
    if pairs.len() == 0 { seq![] } else { ins_key(pair_points(pairs.drop_last()), pairs.last().1) }
}

/// The points of the triples `(x, y, point)`, sorted, each once.
pub open spec fn triple_points(t: Seq<(u32, u32, u32)>) -> Seq<u32>
    decreases t.len(),
{
    if t.len() == 0 { seq![] } else { ins_key(triple_points(t.drop_last()), t.last().2) }
}

/// The pairs `(x, y)` of the triples `(x, y, point)` at `location`, in their order.
pub open spec fn pairs_at(t: Seq<(u32, u32, u32)>, location: u32) -> Seq<(u32, u32)>
    decreases t.len(),
{
    if t.len() == 0 {
        seq![]
    } else if t.last().2 == location {
        pairs_at(t.drop_last(), location).push((t.last().0, t.last().1))
    } else {
        pairs_at(t.drop_last(), location)
    }
}

/// The rows of the pairs `(x, point)`, point by point in the order `keys`: the point's name
/// and the name of `x`.
pub open spec fn pair_rows(pairs: Seq<(u32, u32)>, keys: Seq<u32>, kn: Seq<Seq<char>>, vn: Seq<Seq<char>>) -> Seq<
    Seq<Seq<char>>,
>
    decreases keys.len(),
{
    if keys.len() == 0 {
        seq![]
    } else {
        pair_rows(pairs, keys.drop_last(), kn, vn) + firsts_at(pairs, keys.last()).map_values(
            |v: u32| seq![kn[keys.last() as int], vn[v as int]],
        )
    }
}

/// The rows of the triples `(x, y, point)`, point by point in the order `keys`: the point's
/// name, the name of `x` in `xn` and that of `y` in `yn`.
pub open spec fn triple_rows(
    t: Seq<(u32, u32, u32)>,
    keys: Seq<u32>,
    kn: Seq<Seq<char>>,
    xn: Seq<Seq<char>>,
    yn: Seq<Seq<char>>,
) -> Seq<Seq<Seq<char>>>
    decreases keys.len(),
{
    if keys.len() == 0 {
        seq![]
    } else {
        triple_rows(t, keys.drop_last(), kn, xn, yn) + pairs_at(t, keys.last()).map_values(
            |x: (u32, u32)| seq![kn[keys.last() as int], xn[x.0 as int], yn[x.1 as int]],
        )
    }
}

/// The text in which a relation is dumped: to a file of its own, its rows; else after a
/// heading `# name`, its rows, each after the relation's name.
pub open spec fn dump_text(name: Seq<char>, rows: Seq<Seq<Seq<char>>>, to_files: bool) -> Seq<char> {
    if to_files {
        rows_text(None, rows)
    } else {
        "# "@ + name + seq!['\n'] + rows_text(Some(name), rows)
    }
}

/// The text of the pairs `(x, point)`, point by point, `x` named in `xn`.
pub open spec fn pairs_text(name: Seq<char>, pairs: Seq<(u32, u32)>, kn: Seq<Seq<char>>, xn: Seq<Seq<char>>, to_files: bool) -> (
    Seq<char>,
    Seq<char>,
) {
    (name, dump_text(name, pair_rows(pairs, pair_points(pairs), kn, xn), to_files))
}

/// The text of the triples `(x, y, point)`, point by point, `x` named in `xn` and `y` in `yn`.
pub open spec fn triples_text(
    name: Seq<char>,
    t: Seq<(u32, u32, u32)>,
    kn: Seq<Seq<char>>,
    xn: Seq<Seq<char>>,
    yn: Seq<Seq<char>>,
    to_files: bool,
) -> (Seq<char>, Seq<char>) {
    (name, dump_text(name, triple_rows(t, triple_points(t), kn, xn, yn), to_files))
}

/// The relations that are dumped, each with the text of its rows: `errors`, `move_errors` and
/// `subset_errors`, point by point in the order of the points' indices; then where the output
/// kept its intermediate relations, those, in the same way (`known_contains`,
/// `origin_contains_loan_anywhere` and `subset_anywhere` origin by origin).
pub open spec fn dumped(output: Output, tables: InternerTables, to_files: bool) -> Seq<(Seq<char>, Seq<char>)> {
    let always = seq![
        pairs_text("errors"@, output.errors@, tables.points@, tables.loans@, to_files),
        pairs_text("move_errors"@, output.move_errors@, tables.points@, tables.paths@, to_files),
        triples_text("subset_errors"@, output.subset_errors@, tables.points@, tables.origins@, tables.origins@, to_files),
    ];
    if output.dump_enabled {
        always + seq![
            triples_text(
                "origin_contains_loan_at"@,
                output.origin_contains_loan_at@,
                tables.points@,
                tables.origins@,
                tables.loans@,
                to_files,
            ),
            pairs_text(
                "origin_contains_loan_anywhere"@,
                output.origin_contains_loan_anywhere@,
                tables.origins@,
                tables.loans@,
                to_files,
            ),
            pairs_text("origin_live_on_entry"@, output.origin_live_on_entry@, tables.points@, tables.origins@, to_files),
            pairs_text("loan_invalidated_at"@, output.loan_invalidated_at@, tables.points@, tables.loans@, to_files),
            pairs_text("loan_live_at"@, output.loan_live_at@, tables.points@, tables.loans@, to_files),
            pairs_text("subset_anywhere"@, output.subset_anywhere@, tables.origins@, tables.origins@, to_files),
            pairs_text("known_contains"@, output.known_contains@, tables.origins@, tables.loans@, to_files),
            pairs_text("var_live_on_entry"@, output.var_live_on_entry@, tables.points@, tables.variables@, to_files),
            pairs_text("var_drop_live_on_entry"@, output.var_drop_live_on_entry@, tables.points@, tables.variables@, to_files),
            pairs_text(
                "path_maybe_initialized_on_exit"@,
                output.path_maybe_initialized_on_exit@,
                tables.points@,
                tables.paths@,
                to_files,
            ),
            pairs_text(
                "path_maybe_uninitialized_on_exit"@,
                output.path_maybe_uninitialized_on_exit@,
                tables.points@,
                tables.paths@,
                to_files,
            ),
            pairs_text(
                "var_maybe_partly_initialized_on_exit"@,
                output.var_maybe_partly_initialized_on_exit@,
                tables.points@,
                tables.variables@,
                to_files,
            ),
        ]
    } else {
        always
    }
}

/// Whether each pair `(x, key)` has its `x` below `xb` and its key below `kb`.
pub open spec fn pairs_named(pairs: Seq<(u32, u32)>, xb: int, kb: int) -> bool {
    forall|i: int| 0 <= i < pairs.len() ==> (#[trigger] pairs[i]).0 < xb && pairs[i].1 < kb
}

/// Whether each triple `(x, y, point)` has its `x` below `xb`, its `y` below `yb` and its point
/// below `kb`.
pub open spec fn triples_named(t: Seq<(u32, u32, u32)>, xb: int, yb: int, kb: int) -> bool {
    forall|i: int| 0 <= i < t.len() ==> (#[trigger] t[i]).0 < xb && t[i].1 < yb && t[i].2 < kb
}

/// Whether each index in the output relations has a name in its table.
pub open spec fn names_in_tables(output: Output, tables: InternerTables) -> bool {
    let points = tables.points@.len() as int;
    let loans = tables.loans@.len() as int;
    let origins = tables.origins@.len() as int;
    let paths = tables.paths@.len() as int;
    let variables = tables.variables@.len() as int;
    &&& pairs_named(output.errors@, loans, points)
    &&& pairs_named(output.move_errors@, paths, points)
    &&& triples_named(output.subset_errors@, origins, origins, points)
    &&& triples_named(output.origin_contains_loan_at@, origins, loans, points)
    &&& triples_named(output.subset@, origins, origins, points)
    &&& pairs_named(output.origin_contains_loan_anywhere@, loans, origins)
    &&& pairs_named(output.subset_anywhere@, origins, origins)
    &&& pairs_named(output.origin_live_on_entry@, origins, points)
    &&& pairs_named(output.loan_invalidated_at@, loans, points)
    &&& pairs_named(output.loan_live_at@, loans, points)
    &&& pairs_named(output.known_contains@, loans, origins)
    &&& pairs_named(output.var_live_on_entry@, variables, points)
    &&& pairs_named(output.var_drop_live_on_entry@, variables, points)
    &&& pairs_named(output.path_maybe_initialized_on_exit@, paths, points)
    &&& pairs_named(output.path_maybe_uninitialized_on_exit@, paths, points)
    &&& pairs_named(output.var_maybe_partly_initialized_on_exit@, variables, points)
}

/// `k` put into `keys` goes where the first key not below it stands.
proof fn lemma_ins_key(keys: Seq<u32>, k: u32, p: int)
    requires
        0 <= p <= keys.len(),
        forall|j: int| 0 <= j < p ==> #[trigger] keys[j] < k,
        p < keys.len() ==> keys[p] >= k,
    ensures
        ins_key(keys, k) == (if p < keys.len() && keys[p] == k { keys } else { keys.insert(p, k) }),
    decreases keys.len(),
{
    if keys.len() == 0 {
        assert(keys.insert(p, k) =~= seq![k]);
    } else if p == 0 {
        if k < keys[0] {
            assert(keys.insert(p, k) =~= seq![k] + keys);
        }
    } else {
        let t = keys.drop_first();
        assert(keys[0] < k);
        assert forall|j: int| 0 <= j < p - 1 implies #[trigger] t[j] < k by {
            assert(t[j] == keys[j + 1]);
        }
        lemma_ins_key(t, k, p - 1);
        if p < keys.len() && keys[p] == k {
            assert(keys =~= seq![keys[0]] + t);
        } else {
            assert(keys.insert(p, k) =~= seq![keys[0]] + t.insert(p - 1, k));
        }
    }
}

/// Puts `k` into the sorted keys, where they do not hold it yet (see [`ins_key`]).
fn insert_key(keys: &mut Vec<u32>, k: u32)
    ensures
        final(keys)@ == ins_key(old(keys)@, k),
{
    let mut p: usize = 0;
    while p < keys.len() && keys[p] < k
        invariant
            p <= keys.len(),
            keys@ == old(keys)@,
            forall|j: int| 0 <= j < p ==> #[trigger] keys@[j] < k,
        decreases keys.len() - p,
    {
        p = p + 1;
    }
    proof {
        lemma_ins_key(keys@, k, p as int);
    }
    if p < keys.len() && keys[p] == k {
        return;
    }
    keys.insert(p, k);
}

/// The keys put into keys below a bound stay below it.
proof fn lemma_ins_key_bound(keys: Seq<u32>, k: u32, bound: int)
    requires
        k < bound,
        forall|j: int| 0 <= j < keys.len() ==> #[trigger] keys[j] < bound,
    ensures
        forall|j: int| 0 <= j < ins_key(keys, k).len() ==> #[trigger] ins_key(keys, k)[j] < bound,
    decreases keys.len(),
{
    if keys.len() > 0 && k != keys[0] && k >= keys[0] {
        let t = keys.drop_first();
        assert forall|j: int| 0 <= j < t.len() implies #[trigger] t[j] < bound by {
            assert(t[j] == keys[j + 1]);
        }
        lemma_ins_key_bound(t, k, bound);
        let r = ins_key(keys, k);
        assert forall|j: int| 0 <= j < r.len() implies #[trigger] r[j] < bound by {
            if j > 0 {
                assert(r[j] == ins_key(t, k)[j - 1]);
            }
        }
    } else if keys.len() > 0 && k < keys[0] {
        let r = ins_key(keys, k);
        assert forall|j: int| 0 <= j < r.len() implies #[trigger] r[j] < bound by {
            if j > 0 {
                assert(r[j] == keys[j - 1]);
            }
        }
    }
}

/// The points of pairs whose points are below a bound are below it.
proof fn lemma_pair_points_bound(pairs: Seq<(u32, u32)>, bound: int)
    requires
        forall|i: int| 0 <= i < pairs.len() ==> (#[trigger] pairs[i]).1 < bound,
    ensures
        forall|j: int| 0 <= j < pair_points(pairs).len() ==> #[trigger] pair_points(pairs)[j] < bound,
    decreases pairs.len(),
{
    if pairs.len() > 0 {
        let t = pairs.drop_last();
        assert forall|i: int| 0 <= i < t.len() implies (#[trigger] t[i]).1 < bound by {
            assert(t[i] == pairs[i]);
        }
        lemma_pair_points_bound(t, bound);
        assert(pairs[pairs.len() - 1] == pairs.last());
        lemma_ins_key_bound(pair_points(t), pairs.last().1, bound);
    }
}

/// The points of triples whose points are below a bound are below it.
proof fn lemma_triple_points_bound(t: Seq<(u32, u32, u32)>, bound: int)
    requires
        forall|i: int| 0 <= i < t.len() ==> (#[trigger] t[i]).2 < bound,
    ensures
        forall|j: int| 0 <= j < triple_points(t).len() ==> #[trigger] triple_points(t)[j] < bound,
    decreases t.len(),
{
    if t.len() > 0 {
        let u = t.drop_last();
        assert forall|i: int| 0 <= i < u.len() implies (#[trigger] u[i]).2 < bound by {
            assert(u[i] == t[i]);
        }
        lemma_triple_points_bound(u, bound);
        assert(t[t.len() - 1] == t.last());
        lemma_ins_key_bound(triple_points(u), t.last().2, bound);
    }
}

/// The first components at a point of pairs whose first components are below a bound are
/// below it.
proof fn lemma_firsts_at_bound(pairs: Seq<(u32, u32)>, location: u32, bound: int)
    requires
        forall|i: int| 0 <= i < pairs.len() ==> (#[trigger] pairs[i]).0 < bound,
    ensures
        forall|j: int| 0 <= j < firsts_at(pairs, location).len() ==> #[trigger] firsts_at(pairs, location)[j] < bound,
    decreases pairs.len(),
{
    if pairs.len() > 0 {
        let t = pairs.drop_last();
        assert forall|i: int| 0 <= i < t.len() implies (#[trigger] t[i]).0 < bound by {
            assert(t[i] == pairs[i]);
        }
        lemma_firsts_at_bound(t, location, bound);
        assert(pairs[pairs.len() - 1] == pairs.last());
        let r = firsts_at(pairs, location);
        let rest = firsts_at(t, location);
        assert forall|j: int| 0 <= j < r.len() implies #[trigger] r[j] < bound by {
            if j < rest.len() {
                assert(r[j] == rest[j]);
            }
        }
    }
}

/// The pairs at a point of triples whose first two components are below a bound are below it.
proof fn lemma_pairs_at_bound(t: Seq<(u32, u32, u32)>, location: u32, xb: int, yb: int)
    requires
        forall|i: int| 0 <= i < t.len() ==> (#[trigger] t[i]).0 < xb && t[i].1 < yb,
    ensures
        forall|j: int|
            0 <= j < pairs_at(t, location).len() ==> (#[trigger] pairs_at(t, location)[j]).0 < xb && pairs_at(
                t,
                location,
            )[j].1 < yb,
    decreases t.len(),
{
    if t.len() > 0 {
        let u = t.drop_last();
        assert forall|i: int| 0 <= i < u.len() implies (#[trigger] u[i]).0 < xb && u[i].1 < yb by {
            assert(u[i] == t[i]);
        }
        lemma_pairs_at_bound(u, location, xb, yb);
        assert(t[t.len() - 1] == t.last());
        let r = pairs_at(t, location);
        let rest = pairs_at(u, location);
        assert forall|j: int| 0 <= j < r.len() implies (#[trigger] r[j]).0 < xb && r[j].1 < yb by {
            if j < rest.len() {
                assert(r[j] == rest[j]);
            }
        }
    }
}

/// The points of the pairs, sorted, each once (see [`pair_points`]).
fn pair_points_of(pairs: &Vec<(u32, u32)>) -> (r: Vec<u32>)
    ensures
        r@ == pair_points(pairs@),
{
    let mut r: Vec<u32> = Vec::new();
    let mut i: usize = 0;
    proof {
        assert(pairs@.take(0) =~= seq![]);
    }
    while i < pairs.len()
        invariant
            i <= pairs.len(),
            r@ == pair_points(pairs@.take(i as int)),
        decreases pairs.len() - i,
    {
        proof {
            assert(pairs@.take(i + 1).drop_last() =~= pairs@.take(i as int));
        }
        insert_key(&mut r, pairs[i].1);
        i = i + 1;
    }
    proof {
        assert(pairs@.take(pairs.len() as int) =~= pairs@);
    }
    r
}

/// The points of the triples, sorted, each once (see [`triple_points`]).
fn triple_points_of(t: &Vec<(u32, u32, u32)>) -> (r: Vec<u32>)
    ensures
        r@ == triple_points(t@),
{
    let mut r: Vec<u32> = Vec::new();
    let mut i: usize = 0;
    proof {
        assert(t@.take(0) =~= seq![]);
    }
    while i < t.len()
        invariant
            i <= t.len(),
            r@ == triple_points(t@.take(i as int)),
        decreases t.len() - i,
    {
        proof {
            assert(t@.take(i + 1).drop_last() =~= t@.take(i as int));
        }
        insert_key(&mut r, t[i].2);
        i = i + 1;
    }
    proof {
        assert(t@.take(t.len() as int) =~= t@);
    }
    r
}

/// The pairs at a point (see [`pairs_at`]).
fn pairs_at_of(t: &Vec<(u32, u32, u32)>, location: u32) -> (r: Vec<(u32, u32)>)
    ensures
        r@ == pairs_at(t@, location),
{
    let mut r: Vec<(u32, u32)> = Vec::new();
    let mut i: usize = 0;
    proof {
        assert(t@.take(0) =~= seq![]);
    }
    while i < t.len()
        invariant
            i <= t.len(),
            r@ == pairs_at(t@.take(i as int), location),
        decreases t.len() - i,
    {
        let (x, y, p) = t[i];
        proof {
            assert(t@.take(i + 1).drop_last() =~= t@.take(i as int));
        }
        if p == location {
            r.push((x, y));
        }
        i = i + 1;
    }
    proof {
        assert(t@.take(t.len() as int) =~= t@);
    }
    r
}

/// The name of index `i` of a table.
fn name_of(t: &Interner, i: u32) -> (r: String)
    requires
        i < t@.len(),
    ensures
        r@ == t@[i as int],
{
    t.untern(i).to_owned()
}

/// Adds a row.
fn push_row(rows: &mut Vec<Vec<String>>, row: Vec<String>)
    ensures
        final(rows)@ == old(rows)@.push(row),
        rows_view(final(rows)@) == rows_view(old(rows)@).push(strs_view(row@)),
{
    rows.push(row);
    assert(rows_view(rows@) =~= rows_view(old(rows)@).push(strs_view(row@)));
}

/// The rows of the pairs `(x, point)`, point by point (see [`pair_rows`]).
fn pair_rows_of(pairs: &Vec<(u32, u32)>, kt: &Interner, vt: &Interner) -> (r: Vec<Vec<String>>)
    requires
        forall|i: int| 0 <= i < pairs.len() ==> (#[trigger] pairs@[i]).0 < vt@.len() && pairs@[i].1 < kt@.len(),
    ensures
        rows_view(r@) == pair_rows(pairs@, pair_points(pairs@), kt@, vt@),
        forall|i: int| 0 <= i < r.len() ==> (#[trigger] r@[i]).len() > 0,
{
    let keys = pair_points_of(pairs);
    proof {
        lemma_pair_points_bound(pairs@, kt@.len() as int);
        assert forall|i: int| 0 <= i < pairs.len() implies (#[trigger] pairs@[i]).0 < vt@.len() by {}
    }
    let mut rows: Vec<Vec<String>> = Vec::new();
    let mut i: usize = 0;
    proof {
        assert(rows_view(rows@) =~= seq![]);
        assert(keys@.take(0) =~= seq![]);
    }
    while i < keys.len()
        invariant
            i <= keys.len(),
            keys@ == pair_points(pairs@),
            forall|j: int| 0 <= j < keys.len() ==> #[trigger] keys@[j] < kt@.len(),
            forall|j: int| 0 <= j < pairs.len() ==> (#[trigger] pairs@[j]).0 < vt@.len(),
            rows_view(rows@) == pair_rows(pairs@, keys@.take(i as int), kt@, vt@),
            forall|j: int| 0 <= j < rows.len() ==> (#[trigger] rows@[j]).len() > 0,
        decreases keys.len() - i,
    {
        let k = keys[i];
        let vs = firsts_of_pairs_at(pairs, k);
        proof {
            lemma_firsts_at_bound(pairs@, k, vt@.len() as int);
        }
        let ghost m = vs@.map_values(|v: u32| seq![kt@[k as int], vt@[v as int]]);
        let ghost base = rows_view(rows@);
        let mut j: usize = 0;
        while j < vs.len()
            invariant
                j <= vs.len(),
                k < kt@.len(),
                forall|x: int| 0 <= x < vs.len() ==> #[trigger] vs@[x] < vt@.len(),
                m == vs@.map_values(|v: u32| seq![kt@[k as int], vt@[v as int]]),
                rows_view(rows@) == base + m.take(j as int),
                forall|x: int| 0 <= x < rows.len() ==> (#[trigger] rows@[x]).len() > 0,
            decreases vs.len() - j,
        {
            let row = vec![name_of(kt, k), name_of(vt, vs[j])];
            proof {
                assert(strs_view(row@) =~= seq![kt@[k as int], vt@[vs@[j as int] as int]]);
                assert(m.take(j + 1) =~= m.take(j as int).push(m[j as int]));
            }
            push_row(&mut rows, row);
            j = j + 1;
        }
        proof {
            assert(m.take(vs.len() as int) =~= m);
            assert(keys@.take(i + 1).drop_last() =~= keys@.take(i as int));
            assert(keys@.take(i + 1).last() == k);
        }
        i = i + 1;
    }
    proof {
        assert(keys@.take(keys.len() as int) =~= keys@);
    }
    rows
}

/// The rows of the triples `(x, y, point)`, point by point (see [`triple_rows`]).
fn triple_rows_of(t: &Vec<(u32, u32, u32)>, kt: &Interner, xt: &Interner, yt: &Interner) -> (r: Vec<Vec<String>>)
    requires
        forall|i: int|
            0 <= i < t.len() ==> (#[trigger] t@[i]).0 < xt@.len() && t@[i].1 < yt@.len() && t@[i].2 < kt@.len(),
    ensures
        rows_view(r@) == triple_rows(t@, triple_points(t@), kt@, xt@, yt@),
        forall|i: int| 0 <= i < r.len() ==> (#[trigger] r@[i]).len() > 0,
{
    let keys = triple_points_of(t);
    proof {
        lemma_triple_points_bound(t@, kt@.len() as int);
    }
    let mut rows: Vec<Vec<String>> = Vec::new();
    let mut i: usize = 0;
    proof {
        assert(rows_view(rows@) =~= seq![]);
        assert(keys@.take(0) =~= seq![]);
    }
    while i < keys.len()
        invariant
            i <= keys.len(),
            keys@ == triple_points(t@),
            forall|j: int| 0 <= j < keys.len() ==> #[trigger] keys@[j] < kt@.len(),
            forall|j: int| 0 <= j < t.len() ==> (#[trigger] t@[j]).0 < xt@.len() && t@[j].1 < yt@.len(),
            rows_view(rows@) == triple_rows(t@, keys@.take(i as int), kt@, xt@, yt@),
            forall|j: int| 0 <= j < rows.len() ==> (#[trigger] rows@[j]).len() > 0,
        decreases keys.len() - i,
    {
        let k = keys[i];
        let vs = pairs_at_of(t, k);
        proof {
            lemma_pairs_at_bound(t@, k, xt@.len() as int, yt@.len() as int);
        }
        let ghost m = vs@.map_values(|x: (u32, u32)| seq![kt@[k as int], xt@[x.0 as int], yt@[x.1 as int]]);
        let ghost base = rows_view(rows@);
        let mut j: usize = 0;
        while j < vs.len()
            invariant
                j <= vs.len(),
                k < kt@.len(),
                forall|x: int| 0 <= x < vs.len() ==> (#[trigger] vs@[x]).0 < xt@.len() && vs@[x].1 < yt@.len(),
                m == vs@.map_values(|x: (u32, u32)| seq![kt@[k as int], xt@[x.0 as int], yt@[x.1 as int]]),
                rows_view(rows@) == base + m.take(j as int),
                forall|x: int| 0 <= x < rows.len() ==> (#[trigger] rows@[x]).len() > 0,
            decreases vs.len() - j,
        {
            let (a, b) = vs[j];
            let row = vec![name_of(kt, k), name_of(xt, a), name_of(yt, b)];
            proof {
                assert(strs_view(row@) =~= seq![kt@[k as int], xt@[a as int], yt@[b as int]]);
                assert(m.take(j + 1) =~= m.take(j as int).push(m[j as int]));
            }
            push_row(&mut rows, row);
            j = j + 1;
        }
        proof {
            assert(m.take(vs.len() as int) =~= m);
            assert(keys@.take(i + 1).drop_last() =~= keys@.take(i as int));
            assert(keys@.take(i + 1).last() == k);
        }
        i = i + 1;
    }
    proof {
        assert(keys@.take(keys.len() as int) =~= keys@);
    }
    rows
}

/// The text in which a relation is dumped (see [`dump_text`]).
fn relation_text(name: &str, rows: &Vec<Vec<String>>, to_files: bool) -> (r: String)
    requires
        forall|i: int| 0 <= i < rows.len() ==> (#[trigger] rows@[i]).len() > 0,
    ensures
        r@ == dump_text(name@, rows_view(rows@), to_files),
{
    if to_files {
        dump_rows(None, rows)
    } else {
        let mut r = String::new();
        push_text(&mut r, "# ");
        push_text(&mut r, name);
        crate::text::string_push(&mut r, '\n');
        let body = dump_rows(Some(name), rows);
        push_text(&mut r, body.as_str());
        proof {
            assert(r@ =~= "# "@ + name@ + seq!['\n'] + rows_text(Some(name@), rows_view(rows@)));
        }
        r
    }
}

impl Output {
    /// The loans live at `location` (`loan_live_at`), in their order.
    pub fn loans_in_scope_at(&self, location: u32) -> (r: Vec<u32>)
        ensures
            r@ == firsts_at(self.loan_live_at@, location),
    {
        firsts_of_pairs_at(&self.loan_live_at, location)
    }

    /// The pairs `(origin, loan)` where the origin contains the loan at `location`, in their
    /// order. Only an output that kept its intermediate relations holds them.
    pub fn origin_contains_loan_at_point(&self, location: u32) -> (r: Vec<(u32, u32)>)
        requires
            self.dump_enabled,
        ensures
            r@ == pairs_at(self.origin_contains_loan_at@, location),
    {
        pairs_at_of(&self.origin_contains_loan_at, location)
    }

    /// The pairs `(origin1, origin2)` where `origin1` flows into `origin2` at `location`, in
    /// their order. Only an output that kept its intermediate relations holds them.
    pub fn subsets_at(&self, location: u32) -> (r: Vec<(u32, u32)>)
        requires
            self.dump_enabled,
        ensures
            r@ == pairs_at(self.subset@, location),
    {
        pairs_at_of(&self.subset, location)
    }
}

/// A relation of pairs with its text (see [`pairs_text`]).
fn pairs_entry(name: &str, pairs: &Vec<(u32, u32)>, kt: &Interner, xt: &Interner, to_files: bool) -> (r: (String, String))
    requires
        pairs_named(pairs@, xt@.len() as int, kt@.len() as int),
    ensures
        (r.0@, r.1@) == pairs_text(name@, pairs@, kt@, xt@, to_files),
{
    let rows = pair_rows_of(pairs, kt, xt);
    (name.to_owned(), relation_text(name, &rows, to_files))
}

/// A relation of triples with its text (see [`triples_text`]).
fn triples_entry(name: &str, t: &Vec<(u32, u32, u32)>, kt: &Interner, xt: &Interner, yt: &Interner, to_files: bool) -> (r: (
    String,
    String,
))
    requires
        triples_named(t@, xt@.len() as int, yt@.len() as int, kt@.len() as int),
    ensures
        (r.0@, r.1@) == triples_text(name@, t@, kt@, xt@, yt@, to_files),
{
    let rows = triple_rows_of(t, kt, xt, yt);
    (name.to_owned(), relation_text(name, &rows, to_files))
}

/// The relations that are dumped, each with its text (see [`dumped`]): `errors`,
/// `move_errors` and `subset_errors`, then the intermediate relations where the output kept
/// them; for files of their own where `to_files` holds, else for one stream, each after a
/// heading and each row after the relation's name.
pub fn dump_output(output: &Output, tables: &InternerTables, to_files: bool) -> (r: Vec<(String, String)>)
    requires
        names_in_tables(*output, *tables),
    ensures
        r@.map_values(|x: (String, String)| (x.0@, x.1@)) == dumped(*output, *tables, to_files),
{
    let points = &tables.points;
    let mut r = vec![
        pairs_entry("errors", &output.errors, points, &tables.loans, to_files),
        pairs_entry("move_errors", &output.move_errors, points, &tables.paths, to_files),
        triples_entry("subset_errors", &output.subset_errors, points, &tables.origins, &tables.origins, to_files),
    ];
    if output.dump_enabled {
        r.push(
            triples_entry("origin_contains_loan_at", &output.origin_contains_loan_at, points, &tables.origins, &tables.loans, to_files),
        );
        r.push(
            pairs_entry(
                "origin_contains_loan_anywhere",
                &output.origin_contains_loan_anywhere,
                &tables.origins,
                &tables.loans,
                to_files,
            ),
        );
        r.push(pairs_entry("origin_live_on_entry", &output.origin_live_on_entry, points, &tables.origins, to_files));
        r.push(pairs_entry("loan_invalidated_at", &output.loan_invalidated_at, points, &tables.loans, to_files));
        r.push(pairs_entry("loan_live_at", &output.loan_live_at, points, &tables.loans, to_files));
        r.push(pairs_entry("subset_anywhere", &output.subset_anywhere, &tables.origins, &tables.origins, to_files));
        r.push(pairs_entry("known_contains", &output.known_contains, &tables.origins, &tables.loans, to_files));
        r.push(pairs_entry("var_live_on_entry", &output.var_live_on_entry, points, &tables.variables, to_files));
        r.push(pairs_entry("var_drop_live_on_entry", &output.var_drop_live_on_entry, points, &tables.variables, to_files));
        r.push(
            pairs_entry("path_maybe_initialized_on_exit", &output.path_maybe_initialized_on_exit, points, &tables.paths, to_files),
        );
        r.push(
            pairs_entry(
                "path_maybe_uninitialized_on_exit",
                &output.path_maybe_uninitialized_on_exit,
                points,
                &tables.paths,
                to_files,
            ),
        );
        r.push(
            pairs_entry(
                "var_maybe_partly_initialized_on_exit",
                &output.var_maybe_partly_initialized_on_exit,
                points,
                &tables.variables,
                to_files,
            ),
        );
    }
    proof {
        assert(r@.map_values(|x: (String, String)| (x.0@, x.1@)) =~= dumped(*output, *tables, to_files));
    }
    r
}


} // verus!
