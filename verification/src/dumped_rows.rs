//! What each dumped relation lists: under its name, a row for each of its tuples and no
//! other.

use vstd::prelude::*;
use crate::dump::{dump_text, dumped, ins_key, pair_points, pair_rows, pairs_at, pairs_text, triple_points, triple_rows, triples_text};
use crate::intern::InternerTables;
use crate::pipeline::{firsts_at, Output};

verus! {


/// The row of a pair `(x, key)`: the key's name in `kn`, then the name of `x` in `xn`.
pub open spec fn pair_row(p: (u32, u32), kn: Seq<Seq<char>>, xn: Seq<Seq<char>>) -> Seq<Seq<char>> {
    seq![kn[p.1 as int], xn[p.0 as int]]
}

/// The row of a triple `(x, y, point)`: the point's name in `kn`, then the names of `x` in
/// `xn` and of `y` in `yn`.
pub open spec fn triple_row(p: (u32, u32, u32), kn: Seq<Seq<char>>, xn: Seq<Seq<char>>, yn: Seq<Seq<char>>) -> Seq<Seq<char>> {
    seq![kn[p.2 as int], xn[p.0 as int], yn[p.1 as int]]
}

/// Whether the rows are those of the pairs: each row is the row of a pair, and each pair has
/// its row among them.
pub open spec fn rows_list_pairs(rows: Seq<Seq<Seq<char>>>, pairs: Seq<(u32, u32)>, kn: Seq<Seq<char>>, xn: Seq<Seq<char>>) -> bool {
    &&& forall|i: int| 0 <= i < rows.len() ==> exists|j: int| 0 <= j < pairs.len() && #[trigger] rows[i] == pair_row(pairs[j], kn, xn)
    &&& forall|j: int| 0 <= j < pairs.len() ==> exists|i: int| 0 <= i < rows.len() && rows[i] == #[trigger] pair_row(pairs[j], kn, xn)
}

/// Whether the rows are those of the triples: each row is the row of a triple, and each
/// triple has its row among them.
pub open spec fn rows_list_triples(
    rows: Seq<Seq<Seq<char>>>,
    t: Seq<(u32, u32, u32)>,
    kn: Seq<Seq<char>>,
    xn: Seq<Seq<char>>,
    yn: Seq<Seq<char>>,
) -> bool {
    &&& forall|i: int| 0 <= i < rows.len() ==> exists|j: int| 0 <= j < t.len() && #[trigger] rows[i] == triple_row(t[j], kn, xn, yn)
    &&& forall|j: int| 0 <= j < t.len() ==> exists|i: int| 0 <= i < rows.len() && rows[i] == #[trigger] triple_row(t[j], kn, xn, yn)
}

/// Whether `section` is the relation `name` dumped with the rows of the pairs.
#[verifier::opaque]
pub open spec fn section_of_pairs(
    section: (Seq<char>, Seq<char>),
    name: Seq<char>,
    pairs: Seq<(u32, u32)>,
    kn: Seq<Seq<char>>,
    xn: Seq<Seq<char>>,
    to_files: bool,
) -> bool {
    &&& section.0 == name
    &&& exists|rows: Seq<Seq<Seq<char>>>| #[trigger] dump_text(name, rows, to_files) == section.1 && rows_list_pairs(rows, pairs, kn, xn)
}

/// Whether `section` is the relation `name` dumped with the rows of the triples.
#[verifier::opaque]
pub open spec fn section_of_triples(
    section: (Seq<char>, Seq<char>),
    name: Seq<char>,
    t: Seq<(u32, u32, u32)>,
    kn: Seq<Seq<char>>,
    xn: Seq<Seq<char>>,
    yn: Seq<Seq<char>>,
    to_files: bool,
) -> bool {
    &&& section.0 == name
    &&& exists|rows: Seq<Seq<Seq<char>>>| #[trigger] dump_text(name, rows, to_files) == section.1 && rows_list_triples(rows, t, kn, xn, yn)
}

/// Whether each pair whose key is among `keys` has its row among the rows.
spec fn pair_rows_hold(rows: Seq<Seq<Seq<char>>>, pairs: Seq<(u32, u32)>, keys: Seq<u32>, kn: Seq<Seq<char>>, xn: Seq<Seq<char>>) -> bool {
    forall|j: int| 0 <= j < pairs.len() && keys.contains(#[trigger] pairs[j].1) ==> exists|i: int|
        0 <= i < rows.len() && rows[i] == pair_row(pairs[j], kn, xn)
}

/// Whether each triple whose point is among `keys` has its row among the rows.
spec fn triple_rows_hold(
    rows: Seq<Seq<Seq<char>>>,
    t: Seq<(u32, u32, u32)>,
    keys: Seq<u32>,
    kn: Seq<Seq<char>>,
    xn: Seq<Seq<char>>,
    yn: Seq<Seq<char>>,
) -> bool {
    forall|j: int| 0 <= j < t.len() && keys.contains(#[trigger] t[j].2) ==> exists|i: int|
        0 <= i < rows.len() && rows[i] == triple_row(t[j], kn, xn, yn)
}

/// The keys with one put in hold it and those they held.
proof fn lemma_ins_key_holds(keys: Seq<u32>, k: u32)
    ensures
        ins_key(keys, k).contains(k),
        forall|x: u32| keys.contains(x) ==> #[trigger] ins_key(keys, k).contains(x),
    decreases keys.len(),
{
    if keys.len() > 0 && k != keys[0] {
        if k < keys[0] {
            assert((seq![k] + keys)[0] == k);
            assert forall|x: u32| keys.contains(x) implies #[trigger] ins_key(keys, k).contains(x) by {
                let i = choose|i: int| 0 <= i < keys.len() && keys[i] == x;
                assert((seq![k] + keys)[i + 1] == x);
            }
        } else {
            let r = keys.drop_first();
            lemma_ins_key_holds(r, k);
            let w = seq![keys[0]] + ins_key(r, k);
            let i0 = choose|i: int| 0 <= i < ins_key(r, k).len() && ins_key(r, k)[i] == k;
            assert(w[i0 + 1] == k);
            assert forall|x: u32| keys.contains(x) implies #[trigger] ins_key(keys, k).contains(x) by {
                let i = choose|i: int| 0 <= i < keys.len() && keys[i] == x;
                if i == 0 {
                    assert(w[0] == x);
                } else {
                    assert(r[i - 1] == x);
                    assert(r.contains(x));
                    assert(ins_key(r, k).contains(x));
                    let m = choose|m: int| 0 <= m < ins_key(r, k).len() && ins_key(r, k)[m] == x;
                    assert(w[m + 1] == x);
                }
            }
        }
    } else if keys.len() == 0 {
        assert(seq![k][0] == k);
    } else {
        assert(keys[0] == k);
    }
}

/// The points of pairs hold the point of each pair.
proof fn lemma_pair_points_hold(pairs: Seq<(u32, u32)>)
    ensures
        forall|j: int| 0 <= j < pairs.len() ==> pair_points(pairs).contains(#[trigger] pairs[j].1),
    decreases pairs.len(),
{
    if pairs.len() > 0 {
        let d = pairs.drop_last();
        lemma_pair_points_hold(d);
        lemma_ins_key_holds(pair_points(d), pairs.last().1);
        assert forall|j: int| 0 <= j < pairs.len() implies pair_points(pairs).contains(#[trigger] pairs[j].1) by {
            if j < d.len() {
                assert(d[j] == pairs[j]);
                assert(pair_points(d).contains(d[j].1));
            }
        }
    }
}

/// The points of triples hold the point of each triple.
proof fn lemma_triple_points_hold(t: Seq<(u32, u32, u32)>)
    ensures
        forall|j: int| 0 <= j < t.len() ==> triple_points(t).contains(#[trigger] t[j].2),
    decreases t.len(),
{
    if t.len() > 0 {
        let d = t.drop_last();
        lemma_triple_points_hold(d);
        lemma_ins_key_holds(triple_points(d), t.last().2);
        assert forall|j: int| 0 <= j < t.len() implies triple_points(t).contains(#[trigger] t[j].2) by {
            if j < d.len() {
                assert(d[j] == t[j]);
                assert(triple_points(d).contains(d[j].2));
            }
        }
    }
}

/// The first components of the pairs at `loc` are those of the pairs `(x, loc)`.
proof fn lemma_firsts_at_list(pairs: Seq<(u32, u32)>, loc: u32)
    ensures
        forall|m: int| #![trigger firsts_at(pairs, loc)[m]] 0 <= m < firsts_at(pairs, loc).len() ==> exists|j: int|
            0 <= j < pairs.len() && #[trigger] pairs[j] == (firsts_at(pairs, loc)[m], loc),
        forall|j: int| 0 <= j < pairs.len() && (#[trigger] pairs[j]).1 == loc ==> exists|m: int|
            0 <= m < firsts_at(pairs, loc).len() && firsts_at(pairs, loc)[m] == pairs[j].0,
    decreases pairs.len(),
{
    if pairs.len() > 0 {
        let d = pairs.drop_last();
        lemma_firsts_at_list(d, loc);
        let fd = firsts_at(d, loc);
        let fs = firsts_at(pairs, loc);
        let n = pairs.len() - 1;
        assert forall|m: int| #![trigger fs[m]] 0 <= m < fs.len() implies exists|j: int|
            0 <= j < pairs.len() && #[trigger] pairs[j] == (fs[m], loc) by {
            if m < fd.len() {
                assert(fs[m] == fd[m]);
                let j = choose|j: int| 0 <= j < d.len() && #[trigger] d[j] == (fd[m], loc);
                assert(pairs[j] == d[j]);
            } else {
                assert(pairs[n] == (fs[m], loc));
            }
        }
        assert forall|j: int| 0 <= j < pairs.len() && (#[trigger] pairs[j]).1 == loc implies exists|m: int|
            0 <= m < fs.len() && fs[m] == pairs[j].0 by {
            if j < n {
                assert(d[j] == pairs[j]);
                let m = choose|m: int| 0 <= m < fd.len() && fd[m] == d[j].0;
                assert(fs[m] == fd[m]);
            } else {
                assert(fs[fd.len() as int] == pairs[j].0);
            }
        }
    }
}

/// The pairs of the triples at `loc` are those of the triples `(x, y, loc)`.
proof fn lemma_pairs_at_list(t: Seq<(u32, u32, u32)>, loc: u32)
    ensures
        forall|m: int| #![trigger pairs_at(t, loc)[m]] 0 <= m < pairs_at(t, loc).len() ==> exists|j: int|
            0 <= j < t.len() && #[trigger] t[j] == (pairs_at(t, loc)[m].0, pairs_at(t, loc)[m].1, loc),
        forall|j: int| 0 <= j < t.len() && (#[trigger] t[j]).2 == loc ==> exists|m: int|
            0 <= m < pairs_at(t, loc).len() && pairs_at(t, loc)[m] == (t[j].0, t[j].1),
    decreases t.len(),
{
    if t.len() > 0 {
        let d = t.drop_last();
        lemma_pairs_at_list(d, loc);
        let fd = pairs_at(d, loc);
        let fs = pairs_at(t, loc);
        let n = t.len() - 1;
        assert forall|m: int| #![trigger fs[m]] 0 <= m < fs.len() implies exists|j: int|
            0 <= j < t.len() && #[trigger] t[j] == (fs[m].0, fs[m].1, loc) by {
            if m < fd.len() {
                assert(fs[m] == fd[m]);
                let j = choose|j: int| 0 <= j < d.len() && #[trigger] d[j] == (fd[m].0, fd[m].1, loc);
                assert(t[j] == d[j]);
            } else {
                assert(t[n] == (fs[m].0, fs[m].1, loc));
            }
        }
        assert forall|j: int| 0 <= j < t.len() && (#[trigger] t[j]).2 == loc implies exists|m: int|
            0 <= m < fs.len() && fs[m] == (t[j].0, t[j].1) by {
            if j < n {
                assert(d[j] == t[j]);
                let m = choose|m: int| 0 <= m < fd.len() && fd[m] == (d[j].0, d[j].1);
                assert(fs[m] == fd[m]);
            } else {
                assert(fs[fd.len() as int] == (t[j].0, t[j].1));
            }
        }
    }
}

/// The rows of pairs, point by point in the order of `keys`, are rows of pairs, and hold
/// the row of each pair whose key is among the keys.
proof fn lemma_pair_rows_list(pairs: Seq<(u32, u32)>, keys: Seq<u32>, kn: Seq<Seq<char>>, xn: Seq<Seq<char>>)
    ensures
        forall|i: int| 0 <= i < pair_rows(pairs, keys, kn, xn).len() ==> exists|j: int|
            0 <= j < pairs.len() && #[trigger] pair_rows(pairs, keys, kn, xn)[i] == pair_row(pairs[j], kn, xn),
        pair_rows_hold(pair_rows(pairs, keys, kn, xn), pairs, keys, kn, xn),
    decreases keys.len(),
{
    if keys.len() > 0 {
        let dk = keys.drop_last();
        let k = keys.last();
        lemma_pair_rows_list(pairs, dk, kn, xn);
        lemma_firsts_at_list(pairs, k);
        let a = pair_rows(pairs, dk, kn, xn);
        let fs = firsts_at(pairs, k);
        let b = fs.map_values(|v: u32| seq![kn[k as int], xn[v as int]]);
        let rows = pair_rows(pairs, keys, kn, xn);
        assert(rows == a + b);
        assert forall|i: int| 0 <= i < rows.len() implies exists|j: int|
            0 <= j < pairs.len() && #[trigger] rows[i] == pair_row(pairs[j], kn, xn) by {
            if i < a.len() {
                assert(rows[i] == a[i]);
            } else {
                let m = i - a.len();
                assert(rows[i] == b[m]);
                let j = choose|j: int| 0 <= j < pairs.len() && #[trigger] pairs[j] == (fs[m], k);
                assert(rows[i] == pair_row(pairs[j], kn, xn));
            }
        }
        assert forall|j: int| 0 <= j < pairs.len() && keys.contains(#[trigger] pairs[j].1) implies exists|i: int|
            0 <= i < rows.len() && rows[i] == pair_row(pairs[j], kn, xn) by {
            if pairs[j].1 == k {
                let m = choose|m: int| 0 <= m < fs.len() && fs[m] == pairs[j].0;
                assert(rows[a.len() + m] == b[m]);
                assert(b[m] == pair_row(pairs[j], kn, xn));
                assert(0 <= a.len() + m < rows.len() && rows[a.len() + m] == pair_row(pairs[j], kn, xn));
            } else {
                let q = choose|q: int| 0 <= q < keys.len() && keys[q] == pairs[j].1;
                assert(dk[q] == keys[q]);
                assert(dk.contains(pairs[j].1));
                assert(pairs[j].1 == pairs[j].1);
                let i = choose|i: int| 0 <= i < a.len() && a[i] == pair_row(pairs[j], kn, xn);
                assert(rows[i] == a[i]);
                assert(0 <= i < rows.len() && rows[i] == pair_row(pairs[j], kn, xn));
            }
        }
        assert(pair_rows_hold(rows, pairs, keys, kn, xn));
    }
}

/// The rows of triples, point by point in the order of `keys`, are rows of triples, and hold
/// the row of each triple whose point is among the keys.
proof fn lemma_triple_rows_list(
    t: Seq<(u32, u32, u32)>,
    keys: Seq<u32>,
    kn: Seq<Seq<char>>,
    xn: Seq<Seq<char>>,
    yn: Seq<Seq<char>>,
)
    ensures
        forall|i: int| 0 <= i < triple_rows(t, keys, kn, xn, yn).len() ==> exists|j: int|
            0 <= j < t.len() && #[trigger] triple_rows(t, keys, kn, xn, yn)[i] == triple_row(t[j], kn, xn, yn),
        triple_rows_hold(triple_rows(t, keys, kn, xn, yn), t, keys, kn, xn, yn),
    decreases keys.len(),
{
    if keys.len() > 0 {
        let dk = keys.drop_last();
        let k = keys.last();
        lemma_triple_rows_list(t, dk, kn, xn, yn);
        lemma_pairs_at_list(t, k);
        let a = triple_rows(t, dk, kn, xn, yn);
        let fs = pairs_at(t, k);
        let b = fs.map_values(|x: (u32, u32)| seq![kn[k as int], xn[x.0 as int], yn[x.1 as int]]);
        let rows = triple_rows(t, keys, kn, xn, yn);
        assert(rows == a + b);
        assert forall|i: int| 0 <= i < rows.len() implies exists|j: int|
            0 <= j < t.len() && #[trigger] rows[i] == triple_row(t[j], kn, xn, yn) by {
            if i < a.len() {
                assert(rows[i] == a[i]);
            } else {
                let m = i - a.len();
                assert(rows[i] == b[m]);
                let j = choose|j: int| 0 <= j < t.len() && #[trigger] t[j] == (fs[m].0, fs[m].1, k);
                assert(rows[i] == triple_row(t[j], kn, xn, yn));
            }
        }
        assert forall|j: int| 0 <= j < t.len() && keys.contains(#[trigger] t[j].2) implies exists|i: int|
            0 <= i < rows.len() && rows[i] == triple_row(t[j], kn, xn, yn) by {
            if t[j].2 == k {
                let m = choose|m: int| 0 <= m < fs.len() && fs[m] == (t[j].0, t[j].1);
                assert(rows[a.len() + m] == b[m]);
                assert(b[m] == triple_row(t[j], kn, xn, yn));
                assert(0 <= a.len() + m < rows.len() && rows[a.len() + m] == triple_row(t[j], kn, xn, yn));
            } else {
                let q = choose|q: int| 0 <= q < keys.len() && keys[q] == t[j].2;
                assert(dk[q] == keys[q]);
                assert(dk.contains(t[j].2));
                let i = choose|i: int| 0 <= i < a.len() && a[i] == triple_row(t[j], kn, xn, yn);
                assert(rows[i] == a[i]);
                assert(0 <= i < rows.len() && rows[i] == triple_row(t[j], kn, xn, yn));
            }
        }
        assert(triple_rows_hold(rows, t, keys, kn, xn, yn));
    }
}

/// The text of pairs dumped as the relation `name` lists their rows.
proof fn lemma_pairs_section(name: Seq<char>, pairs: Seq<(u32, u32)>, kn: Seq<Seq<char>>, xn: Seq<Seq<char>>, to_files: bool)
    ensures
        section_of_pairs(pairs_text(name, pairs, kn, xn, to_files), name, pairs, kn, xn, to_files),
{
    lemma_pair_points_hold(pairs);
    lemma_pair_rows_list(pairs, pair_points(pairs), kn, xn);
    let rows = pair_rows(pairs, pair_points(pairs), kn, xn);
    assert(rows_list_pairs(rows, pairs, kn, xn)) by {
        assert forall|j: int| 0 <= j < pairs.len() implies exists|i: int| 0 <= i < rows.len() && rows[i] == #[trigger] pair_row(pairs[j], kn, xn) by {
            assert(pair_points(pairs).contains(pairs[j].1));
        }
    }
    assert(dump_text(name, rows, to_files) == pairs_text(name, pairs, kn, xn, to_files).1);
    reveal(section_of_pairs);
}

/// The text of triples dumped as the relation `name` lists their rows.
proof fn lemma_triples_section(
    name: Seq<char>,
    t: Seq<(u32, u32, u32)>,
    kn: Seq<Seq<char>>,
    xn: Seq<Seq<char>>,
    yn: Seq<Seq<char>>,
    to_files: bool,
)
    ensures
        section_of_triples(triples_text(name, t, kn, xn, yn, to_files), name, t, kn, xn, yn, to_files),
{
    lemma_triple_points_hold(t);
    lemma_triple_rows_list(t, triple_points(t), kn, xn, yn);
    let rows = triple_rows(t, triple_points(t), kn, xn, yn);
    assert(rows_list_triples(rows, t, kn, xn, yn)) by {
        assert forall|j: int| 0 <= j < t.len() implies exists|i: int| 0 <= i < rows.len() && rows[i] == #[trigger] triple_row(t[j], kn, xn, yn) by {
            assert(triple_points(t).contains(t[j].2));
        }
    }
    assert(dump_text(name, rows, to_files) == triples_text(name, t, kn, xn, yn, to_files).1);
    reveal(section_of_triples);
}

/// Each relation that is dumped (see [`dump_output`]) is dumped under its name with a row for
/// each of its tuples of the output and no other: `errors`, rows of a point and a loan;
/// `move_errors`, of a point and a path; `subset_errors`, of a point and two origins; and
/// where the output kept them, `origin_contains_loan_at` (a point, an origin, a loan),
/// `origin_contains_loan_anywhere` (an origin, a loan), `origin_live_on_entry` (a point, an
/// origin), `loan_invalidated_at` and `loan_live_at` (a point, a loan), `subset_anywhere`
/// (two origins), `known_contains` (an origin, a loan), `var_live_on_entry` and
/// `var_drop_live_on_entry` (a point, a variable), `path_maybe_initialized_on_exit` and
/// `path_maybe_uninitialized_on_exit` (a point, a path) and
/// `var_maybe_partly_initialized_on_exit` (a point, a variable).
#[verifier::rlimit(50)]
pub proof fn lemma_dumped_relations_list_their_tuples(output: Output, tables: InternerTables, to_files: bool)
    ensures
        dumped(output, tables, to_files).len() == (if output.dump_enabled { 15int } else { 3int }),
        section_of_pairs(dumped(output, tables, to_files)[0], "errors"@, output.errors@, tables.points@, tables.loans@, to_files),
        section_of_pairs(dumped(output, tables, to_files)[1], "move_errors"@, output.move_errors@, tables.points@, tables.paths@, to_files),
        section_of_triples(
            dumped(output, tables, to_files)[2],
            "subset_errors"@,
            output.subset_errors@,
            tables.points@,
            tables.origins@,
            tables.origins@,
            to_files,
        ),
        output.dump_enabled ==> {
            let d = dumped(output, tables, to_files);
            &&& section_of_triples(d[3], "origin_contains_loan_at"@, output.origin_contains_loan_at@, tables.points@, tables.origins@, tables.loans@, to_files)
            &&& section_of_pairs(d[4], "origin_contains_loan_anywhere"@, output.origin_contains_loan_anywhere@, tables.origins@, tables.loans@, to_files)
            &&& section_of_pairs(d[5], "origin_live_on_entry"@, output.origin_live_on_entry@, tables.points@, tables.origins@, to_files)
            &&& section_of_pairs(d[6], "loan_invalidated_at"@, output.loan_invalidated_at@, tables.points@, tables.loans@, to_files)
            &&& section_of_pairs(d[7], "loan_live_at"@, output.loan_live_at@, tables.points@, tables.loans@, to_files)
            &&& section_of_pairs(d[8], "subset_anywhere"@, output.subset_anywhere@, tables.origins@, tables.origins@, to_files)
            &&& section_of_pairs(d[9], "known_contains"@, output.known_contains@, tables.origins@, tables.loans@, to_files)
            &&& section_of_pairs(d[10], "var_live_on_entry"@, output.var_live_on_entry@, tables.points@, tables.variables@, to_files)
            &&& section_of_pairs(d[11], "var_drop_live_on_entry"@, output.var_drop_live_on_entry@, tables.points@, tables.variables@, to_files)
            &&& section_of_pairs(d[12], "path_maybe_initialized_on_exit"@, output.path_maybe_initialized_on_exit@, tables.points@, tables.paths@, to_files)
            &&& section_of_pairs(d[13], "path_maybe_uninitialized_on_exit"@, output.path_maybe_uninitialized_on_exit@, tables.points@, tables.paths@, to_files)
            &&& section_of_pairs(d[14], "var_maybe_partly_initialized_on_exit"@, output.var_maybe_partly_initialized_on_exit@, tables.points@, tables.variables@, to_files)
        },
{
    lemma_pairs_section("errors"@, output.errors@, tables.points@, tables.loans@, to_files);
    lemma_pairs_section("move_errors"@, output.move_errors@, tables.points@, tables.paths@, to_files);
    lemma_triples_section("subset_errors"@, output.subset_errors@, tables.points@, tables.origins@, tables.origins@, to_files);
    lemma_triples_section("origin_contains_loan_at"@, output.origin_contains_loan_at@, tables.points@, tables.origins@, tables.loans@, to_files);
    lemma_pairs_section("origin_contains_loan_anywhere"@, output.origin_contains_loan_anywhere@, tables.origins@, tables.loans@, to_files);
    lemma_pairs_section("origin_live_on_entry"@, output.origin_live_on_entry@, tables.points@, tables.origins@, to_files);
    lemma_pairs_section("loan_invalidated_at"@, output.loan_invalidated_at@, tables.points@, tables.loans@, to_files);
    lemma_pairs_section("loan_live_at"@, output.loan_live_at@, tables.points@, tables.loans@, to_files);
    lemma_pairs_section("subset_anywhere"@, output.subset_anywhere@, tables.origins@, tables.origins@, to_files);
    lemma_pairs_section("known_contains"@, output.known_contains@, tables.origins@, tables.loans@, to_files);
    lemma_pairs_section("var_live_on_entry"@, output.var_live_on_entry@, tables.points@, tables.variables@, to_files);
    lemma_pairs_section("var_drop_live_on_entry"@, output.var_drop_live_on_entry@, tables.points@, tables.variables@, to_files);
    lemma_pairs_section("path_maybe_initialized_on_exit"@, output.path_maybe_initialized_on_exit@, tables.points@, tables.paths@, to_files);
    lemma_pairs_section("path_maybe_uninitialized_on_exit"@, output.path_maybe_uninitialized_on_exit@, tables.points@, tables.paths@, to_files);
    lemma_pairs_section("var_maybe_partly_initialized_on_exit"@, output.var_maybe_partly_initialized_on_exit@, tables.points@, tables.variables@, to_files);
}

} // verus!
