//! Facts in tab-delimited text: one file per relation, one line per tuple, and on each line
//! the names of the tuple's components, separated by tabs. Each name is interned in the table
//! of its kind.

use vstd::prelude::*;
use crate::facts::AllFacts;
use crate::intern::InternerTables;
use crate::pipeline::Rel;
use crate::program::{grows, lemma_grows_trans, names_of, some_table_full, Names};
use crate::text::{char_seqs, chars_of, slice, split, split_chars, string_of};

verus! {

/// `line` without a carriage return at its end.
pub open spec fn without_cr(line: Seq<char>) -> Seq<char> {
    if line.len() > 0 && line.last() == '\r' {
        line.drop_last()
    } else {
        line
    }
}

/// The lines of `text`, as `BufRead::lines` reads them: the pieces between the newlines, each
/// without a carriage return that ends it before its newline, and then the text after the last
/// newline, where there is any.
pub open spec fn text_lines(text: Seq<char>) -> Seq<Seq<char>> {
    let pieces = split(text, seq!['\n']);
    if pieces.len() == 0 {
        Seq::empty()
    } else {
        let ended = Seq::new((pieces.len() - 1) as nat, |i: int| without_cr(pieces[i]));
        if pieces.last().len() == 0 {
            ended
        } else {
            ended.push(pieces.last())
        }
    }
}

/// The columns of a line: the pieces between its tabs.
pub open spec fn columns(line: Seq<char>) -> Seq<Seq<char>> {
    split(line, seq!['\t'])
}

/// The kind of a name, which says the table it is interned in.
#[derive(Debug, Clone, Copy, PartialEq, Eq, Structural)]
pub enum Kind {
    Origin,
    Loan,
    Point,
    Variable,
    Path,
}

/// The table of names of the kind `k`.
pub open spec fn table_of(t: Names, k: Kind) -> Seq<Seq<char>> {
    match k {
        Kind::Origin => t.origins,
        Kind::Loan => t.loans,
        Kind::Point => t.points,
        Kind::Variable => t.variables,
        Kind::Path => t.paths,
    }
}

/// Why the lines of a file are no relation.
#[derive(Debug, Clone, Copy, PartialEq, Eq, Structural)]
pub enum TabError {
    /// The line, counted from 1, has fewer columns than the relation has components.
    Parse { line: usize },
    /// The line, counted from 1, has more columns than the relation has components.
    ExtraData { line: usize },
    /// A table of names is full.
    TableFull,
}

/// Whether `ids` names, in the tables `t`, the columns of `line`: as many columns as kinds,
/// and for each kind, the index of the column's name in the table of that kind.
pub open spec fn tuple_names(t: Names, kinds: Seq<Kind>, ids: Seq<u32>, line: Seq<char>) -> bool {
    &&& ids.len() == kinds.len()
    &&& columns(line).len() == kinds.len()
    &&& forall|j: int|
        0 <= j < kinds.len() ==> {
            &&& (#[trigger] ids[j]) < table_of(t, kinds[j]).len()
            &&& table_of(t, kinds[j])[ids[j] as int] == columns(line)[j]
        }
}

/// Whether `rows` names, in the tables `t`, the columns of the lines of `text`, a row for each
/// line (see [`tuple_names`]).
pub open spec fn rows_named(t: Names, kinds: Seq<Kind>, rows: Seq<Vec<u32>>, text: Seq<char>) -> bool {
    &&& rows.len() == text_lines(text).len()
    &&& forall|i: int| 0 <= i < rows.len() ==> #[trigger] tuple_names(t, kinds, rows[i]@, text_lines(text)[i])
}

/// Where tables grow, the names they held keep their indices.
proof fn lemma_table_grows(a: Names, b: Names, k: Kind, x: int)
    requires
        grows(a, b),
        0 <= x < table_of(a, k).len(),
    ensures
        x < table_of(b, k).len(),
        table_of(b, k)[x] == table_of(a, k)[x],
{
}

/// Where tables grow, rows keep naming what they named.
proof fn lemma_rows_named_grows(a: Names, b: Names, kinds: Seq<Kind>, rows: Seq<Vec<u32>>, text: Seq<char>)
    requires
        grows(a, b),
        rows_named(a, kinds, rows, text),
    ensures
        rows_named(b, kinds, rows, text),
{
    assert forall|i: int| 0 <= i < rows.len() implies #[trigger] tuple_names(b, kinds, rows[i]@, text_lines(text)[i]) by {
        assert(tuple_names(a, kinds, rows[i]@, text_lines(text)[i]));
        assert forall|j: int| 0 <= j < kinds.len() implies {
            &&& (#[trigger] rows[i]@[j]) < table_of(b, kinds[j]).len()
            &&& table_of(b, kinds[j])[rows[i]@[j] as int] == columns(text_lines(text)[i])[j]
        } by {
            lemma_table_grows(a, b, kinds[j], rows[i]@[j] as int);
        }
    }
}

/// `line` without a carriage return at its end.
fn strip_cr(line: &Vec<char>) -> (r: Vec<char>)
    ensures
        r@ == without_cr(line@),
{
    let n = line.len();
    if n > 0 && line[n - 1] == '\r' {
        let r = slice(line, 0, n - 1);
        proof {
            assert(r@ =~= line@.drop_last());
        }
        r
    } else {
        let r = slice(line, 0, n);
        proof {
            assert(r@ =~= line@);
        }
        r
    }
}

/// The lines of `text` (see [`text_lines`]).
pub(crate) fn lines_of(text: &Vec<char>) -> (r: Vec<Vec<char>>)
    ensures
        char_seqs(r@) == text_lines(text@),
{
    let newline = vec!['\n'];
    let pieces = split_chars(text, &newline);
    let ghost p = split(text@, seq!['\n']);
    proof {
        assert(newline@ =~= seq!['\n']);
        assert(char_seqs(pieces@) == p);
    }
    let n = pieces.len();
    if n == 0 {
        let r: Vec<Vec<char>> = Vec::new();
        proof {
            assert(char_seqs(r@) =~= text_lines(text@));
        }
        return r;
    }
    let ghost ended = Seq::new((p.len() - 1) as nat, |i: int| without_cr(p[i]));
    let mut r: Vec<Vec<char>> = Vec::new();
    let mut i: usize = 0;
    while i < n - 1
        invariant
            n == pieces@.len(),
            n > 0,
            i <= n - 1,
            char_seqs(pieces@) == p,
            ended == Seq::new((p.len() - 1) as nat, |i: int| without_cr(p[i])),
            char_seqs(r@) == ended.take(i as int),
        decreases n - 1 - i,
    {
        let line = strip_cr(&pieces[i]);
        let ghost before = char_seqs(r@);
        proof {
            assert(pieces@[i as int]@ == p[i as int]);
            assert(ended[i as int] == without_cr(p[i as int]));
            assert(line@ == ended[i as int]);
        }
        r.push(line);
        proof {
            assert(char_seqs(r@) =~= before.push(line@));
            assert(ended.take(i + 1) =~= ended.take(i as int).push(ended[i as int]));
        }
        i = i + 1;
    }
    proof {
        assert(ended.take((n - 1) as int) =~= ended);
        assert(pieces@[n - 1]@ == p.last());
    }
    if pieces[n - 1].len() > 0 {
        let last = slice(&pieces[n - 1], 0, pieces[n - 1].len());
        proof {
            assert(last@ =~= p.last());
        }
        r.push(last);
        proof {
            assert(char_seqs(r@) =~= ended.push(p.last()));
        }
    }
    r
}

/// Interns `name` in the table of `kind`; `None` where that table is full.
fn intern_kind(tables: &mut InternerTables, kind: Kind, name: &Vec<char>) -> (r: Option<u32>)
    requires
        old(tables).wf(),
    ensures
        final(tables).wf(),
        grows(names_of(old(tables)), names_of(final(tables))),
        match r {
            Some(ix) => ix < table_of(names_of(final(tables)), kind).len() && table_of(names_of(final(tables)), kind)[ix as int] == name@,
            None => table_of(names_of(old(tables)), kind).len() == u32::MAX,
        },
        r is None ==> some_table_full(names_of(final(tables))),
{
    let s = string_of(name);
    match kind {
        Kind::Origin => {
            if tables.origins.len() >= u32::MAX as usize {
                return None;
            }
            Some(tables.origins.intern(s.as_str()))
        },
        Kind::Loan => {
            if tables.loans.len() >= u32::MAX as usize {
                return None;
            }
            Some(tables.loans.intern(s.as_str()))
        },
        Kind::Point => {
            if tables.points.len() >= u32::MAX as usize {
                return None;
            }
            Some(tables.points.intern(s.as_str()))
        },
        Kind::Variable => {
            if tables.variables.len() >= u32::MAX as usize {
                return None;
            }
            Some(tables.variables.intern(s.as_str()))
        },
        Kind::Path => {
            if tables.paths.len() >= u32::MAX as usize {
                return None;
            }
            Some(tables.paths.intern(s.as_str()))
        },
    }
}

/// Reads the lines of `text` as rows of names of the `kinds`, interning each name in the
/// table of its kind, line after line and column after column. A line with fewer columns
/// than kinds, or more, stops the reading with the number of the first such line.
pub fn load_tab_delimited_file(tables: &mut InternerTables, text: &str, kinds: &Vec<Kind>) -> (r: Result<Vec<Vec<u32>>, TabError>)
    requires
        old(tables).wf(),
    ensures
        final(tables).wf(),
        grows(names_of(old(tables)), names_of(final(tables))),
        match r {
            Ok(rows) => rows_named(names_of(final(tables)), kinds@, rows@, text@),
            Err(TabError::Parse { line }) => {
                &&& 1 <= line <= text_lines(text@).len()
                &&& columns(text_lines(text@)[line - 1]).len() < kinds@.len()
                &&& forall|i: int| 0 <= i < line - 1 ==> #[trigger] columns(text_lines(text@)[i]).len() == kinds@.len()
            },
            Err(TabError::ExtraData { line }) => {
                &&& 1 <= line <= text_lines(text@).len()
                &&& columns(text_lines(text@)[line - 1]).len() > kinds@.len()
                &&& forall|i: int| 0 <= i < line - 1 ==> #[trigger] columns(text_lines(text@)[i]).len() == kinds@.len()
            },
            Err(TabError::TableFull) => some_table_full(names_of(final(tables))),
        },
        (forall|i: int| 0 <= i < text_lines(text@).len() ==> #[trigger] columns(text_lines(text@)[i]).len() == kinds@.len()) ==> !(
        r matches Err(TabError::Parse { .. })) && !(r matches Err(TabError::ExtraData { .. })),
{
    let chars = chars_of(text);
    let lines = lines_of(&chars);
    let ghost ls = text_lines(text@);
    let tab = vec!['\t'];
    proof {
        assert(tab@ =~= seq!['\t']);
    }
    let mut rows: Vec<Vec<u32>> = Vec::new();
    let mut i: usize = 0;
    while i < lines.len()
        invariant
            tables.wf(),
            grows(names_of(old(tables)), names_of(tables)),
            ls == text_lines(text@),
            char_seqs(lines@) == ls,
            tab@ == seq!['\t'],
            i <= lines@.len(),
            rows@.len() == i,
            forall|m: int| 0 <= m < i ==> #[trigger] columns(ls[m]).len() == kinds@.len(),
            forall|m: int| 0 <= m < i ==> #[trigger] rows@[m]@.len() == kinds@.len(),
            forall|m: int, j: int|
                0 <= m < i && 0 <= j < kinds@.len() ==> {
                    &&& (#[trigger] rows@[m]@[j]) < table_of(names_of(tables), kinds@[j]).len()
                    &&& table_of(names_of(tables), kinds@[j])[rows@[m]@[j] as int] == columns(ls[m])[j]
                },
        decreases lines@.len() - i,
    {
        let cols = split_chars(&lines[i], &tab);
        proof {
            assert(lines@[i as int]@ == ls[i as int]);
            assert(char_seqs(cols@) == columns(ls[i as int]));
        }
        if cols.len() < kinds.len() {
            return Err(TabError::Parse { line: i + 1 });
        }
        if cols.len() > kinds.len() {
            return Err(TabError::ExtraData { line: i + 1 });
        }
        let ghost start = names_of(tables);
        let mut row: Vec<u32> = Vec::new();
        let mut j: usize = 0;
        while j < kinds.len()
            invariant
                tables.wf(),
                grows(names_of(old(tables)), names_of(tables)),
                grows(start, names_of(tables)),
                cols@.len() == kinds@.len(),
                char_seqs(cols@) == columns(ls[i as int]),
                j <= kinds@.len(),
                row@.len() == j,
                forall|k: int| 0 <= k < j ==> {
                    &&& (#[trigger] row@[k]) < table_of(names_of(tables), kinds@[k]).len()
                    &&& table_of(names_of(tables), kinds@[k])[row@[k] as int] == columns(ls[i as int])[k]
                },
            decreases kinds@.len() - j,
        {
            let ghost before = names_of(tables);
            let ix = match intern_kind(tables, kinds[j], &cols[j]) {
                Some(ix) => ix,
                None => {
                    return Err(TabError::TableFull);
                },
            };
            proof {
                assert(cols@[j as int]@ == columns(ls[i as int])[j as int]);
                assert forall|k: int| 0 <= k < j implies {
                    &&& (#[trigger] row@[k]) < table_of(names_of(tables), kinds@[k]).len()
                    &&& table_of(names_of(tables), kinds@[k])[row@[k] as int] == columns(ls[i as int])[k]
                } by {
                    lemma_table_grows(before, names_of(tables), kinds@[k], row@[k] as int);
                }
                lemma_grows_trans(start, before, names_of(tables));
                lemma_grows_trans(names_of(old(tables)), before, names_of(tables));
            }
            row.push(ix);
            j = j + 1;
        }
        let ghost after = names_of(tables);
        proof {
            assert forall|m: int, k: int|
                0 <= m < i && 0 <= k < kinds@.len() implies {
                    &&& (#[trigger] rows@[m]@[k]) < table_of(after, kinds@[k]).len()
                    &&& table_of(after, kinds@[k])[rows@[m]@[k] as int] == columns(ls[m])[k]
                } by {
                lemma_table_grows(start, after, kinds@[k], rows@[m]@[k] as int);
            }
        }
        rows.push(row);
        i = i + 1;
    }
    proof {
        assert forall|m: int| 0 <= m < rows@.len() implies #[trigger] tuple_names(names_of(tables), kinds@, rows@[m]@, ls[m]) by {
            assert(columns(ls[m]).len() == kinds@.len());
            assert(rows@[m]@.len() == kinds@.len());
        }
    }
    Ok(rows)
}

/// The relations of the facts, in the order of the files they are read from.
pub open spec fn fact_file_relations() -> Seq<Rel> {
    seq![Rel::LoanIssuedAt, Rel::UniversalRegion, Rel::CfgEdge, Rel::LoanKilledAt, Rel::SubsetBase, Rel::LoanInvalidatedAt, Rel::VarUsedAt, Rel::VarDefinedAt, Rel::VarDroppedAt, Rel::UseOfVarDerefsOrigin, Rel::DropOfVarDerefsOrigin, Rel::ChildPath, Rel::PathIsVar, Rel::PathAssignedAtBase, Rel::PathMovedAtBase, Rel::PathAccessedAtBase, Rel::KnownPlaceholderSubset, Rel::Placeholder]
}

/// The kinds of the names in the `k`-th file of facts.
pub open spec fn fact_kinds(k: int) -> Seq<Kind> {
    if k == 0 {
        seq![Kind::Origin, Kind::Loan, Kind::Point]
    } else if k == 1 {
        seq![Kind::Origin]
    } else if k == 2 {
        seq![Kind::Point, Kind::Point]
    } else if k == 3 {
        seq![Kind::Loan, Kind::Point]
    } else if k == 4 {
        seq![Kind::Origin, Kind::Origin, Kind::Point]
    } else if k == 5 {
        seq![Kind::Point, Kind::Loan]
    } else if k == 6 {
        seq![Kind::Variable, Kind::Point]
    } else if k == 7 {
        seq![Kind::Variable, Kind::Point]
    } else if k == 8 {
        seq![Kind::Variable, Kind::Point]
    } else if k == 9 {
        seq![Kind::Variable, Kind::Origin]
    } else if k == 10 {
        seq![Kind::Variable, Kind::Origin]
    } else if k == 11 {
        seq![Kind::Path, Kind::Path]
    } else if k == 12 {
        seq![Kind::Path, Kind::Variable]
    } else if k == 13 {
        seq![Kind::Path, Kind::Point]
    } else if k == 14 {
        seq![Kind::Path, Kind::Point]
    } else if k == 15 {
        seq![Kind::Path, Kind::Point]
    } else if k == 16 {
        seq![Kind::Origin, Kind::Origin]
    } else {
        seq![Kind::Origin, Kind::Loan]
    }
}

/// The relations of the facts, in the order of the files they are read from: each is read
/// from the file named after it, with the extension `.facts`.
pub fn fact_files() -> (r: Vec<Rel>)
    ensures
        r@ == fact_file_relations(),
{
    vec![Rel::LoanIssuedAt, Rel::UniversalRegion, Rel::CfgEdge, Rel::LoanKilledAt, Rel::SubsetBase, Rel::LoanInvalidatedAt, Rel::VarUsedAt, Rel::VarDefinedAt, Rel::VarDroppedAt, Rel::UseOfVarDerefsOrigin, Rel::DropOfVarDerefsOrigin, Rel::ChildPath, Rel::PathIsVar, Rel::PathAssignedAtBase, Rel::PathMovedAtBase, Rel::PathAccessedAtBase, Rel::KnownPlaceholderSubset, Rel::Placeholder]
}

/// The kinds of the names in the `k`-th file of facts.
fn kinds_of_file(k: usize) -> (r: Vec<Kind>)
    requires
        k < 18,
    ensures
        r@ == fact_kinds(k as int),
{
    if k == 0 {
        vec![Kind::Origin, Kind::Loan, Kind::Point]
    } else if k == 1 {
        vec![Kind::Origin]
    } else if k == 2 {
        vec![Kind::Point, Kind::Point]
    } else if k == 3 {
        vec![Kind::Loan, Kind::Point]
    } else if k == 4 {
        vec![Kind::Origin, Kind::Origin, Kind::Point]
    } else if k == 5 {
        vec![Kind::Point, Kind::Loan]
    } else if k == 6 {
        vec![Kind::Variable, Kind::Point]
    } else if k == 7 {
        vec![Kind::Variable, Kind::Point]
    } else if k == 8 {
        vec![Kind::Variable, Kind::Point]
    } else if k == 9 {
        vec![Kind::Variable, Kind::Origin]
    } else if k == 10 {
        vec![Kind::Variable, Kind::Origin]
    } else if k == 11 {
        vec![Kind::Path, Kind::Path]
    } else if k == 12 {
        vec![Kind::Path, Kind::Variable]
    } else if k == 13 {
        vec![Kind::Path, Kind::Point]
    } else if k == 14 {
        vec![Kind::Path, Kind::Point]
    } else if k == 15 {
        vec![Kind::Path, Kind::Point]
    } else if k == 16 {
        vec![Kind::Origin, Kind::Origin]
    } else {
        vec![Kind::Origin, Kind::Loan]
    }
}

/// Whether the values `v` name, in the tables `t`, the lines of `text`, one each.
pub open spec fn values_named(t: Names, kinds: Seq<Kind>, v: Seq<u32>, text: Seq<char>) -> bool {
    &&& v.len() == text_lines(text).len()
    &&& forall|i: int| 0 <= i < v.len() ==> tuple_names(t, kinds, seq![#[trigger] v[i]], text_lines(text)[i])
}

/// Whether the pairs `v` name, in the tables `t`, the lines of `text`, one each.
pub open spec fn pairs_named(t: Names, kinds: Seq<Kind>, v: Seq<(u32, u32)>, text: Seq<char>) -> bool {
    &&& v.len() == text_lines(text).len()
    &&& forall|i: int| 0 <= i < v.len() ==> tuple_names(t, kinds, seq![(#[trigger] v[i]).0, v[i].1], text_lines(text)[i])
}

/// Whether the triples `v` name, in the tables `t`, the lines of `text`, one each.
pub open spec fn triples_named(t: Names, kinds: Seq<Kind>, v: Seq<(u32, u32, u32)>, text: Seq<char>) -> bool {
    &&& v.len() == text_lines(text).len()
    &&& forall|i: int| 0 <= i < v.len() ==> tuple_names(t, kinds, seq![(#[trigger] v[i]).0, v[i].1, v[i].2], text_lines(text)[i])
}

/// Whether each relation of `f` names, in the tables `t`, the lines of its file of `texts`.
pub open spec fn facts_named(t: Names, f: AllFacts, texts: Seq<String>) -> bool {
    &&& triples_named(t, fact_kinds(0), f.loan_issued_at@, texts[0]@)
    &&& values_named(t, fact_kinds(1), f.universal_region@, texts[1]@)
    &&& pairs_named(t, fact_kinds(2), f.cfg_edge@, texts[2]@)
    &&& pairs_named(t, fact_kinds(3), f.loan_killed_at@, texts[3]@)
    &&& triples_named(t, fact_kinds(4), f.subset_base@, texts[4]@)
    &&& pairs_named(t, fact_kinds(5), f.loan_invalidated_at@, texts[5]@)
    &&& pairs_named(t, fact_kinds(6), f.var_used_at@, texts[6]@)
    &&& pairs_named(t, fact_kinds(7), f.var_defined_at@, texts[7]@)
    &&& pairs_named(t, fact_kinds(8), f.var_dropped_at@, texts[8]@)
    &&& pairs_named(t, fact_kinds(9), f.use_of_var_derefs_origin@, texts[9]@)
    &&& pairs_named(t, fact_kinds(10), f.drop_of_var_derefs_origin@, texts[10]@)
    &&& pairs_named(t, fact_kinds(11), f.child_path@, texts[11]@)
    &&& pairs_named(t, fact_kinds(12), f.path_is_var@, texts[12]@)
    &&& pairs_named(t, fact_kinds(13), f.path_assigned_at_base@, texts[13]@)
    &&& pairs_named(t, fact_kinds(14), f.path_moved_at_base@, texts[14]@)
    &&& pairs_named(t, fact_kinds(15), f.path_accessed_at_base@, texts[15]@)
    &&& pairs_named(t, fact_kinds(16), f.known_placeholder_subset@, texts[16]@)
    &&& pairs_named(t, fact_kinds(17), f.placeholder@, texts[17]@)
}

/// Whether `e` describes the lines of `text` read as rows of the `kinds`.
pub open spec fn file_error(kinds: Seq<Kind>, text: Seq<char>, e: TabError) -> bool {
    match e {
        TabError::Parse { line } => {
            &&& 1 <= line <= text_lines(text).len()
            &&& columns(text_lines(text)[line - 1]).len() < kinds.len()
            &&& forall|i: int| 0 <= i < line - 1 ==> #[trigger] columns(text_lines(text)[i]).len() == kinds.len()
        },
        TabError::ExtraData { line } => {
            &&& 1 <= line <= text_lines(text).len()
            &&& columns(text_lines(text)[line - 1]).len() > kinds.len()
            &&& forall|i: int| 0 <= i < line - 1 ==> #[trigger] columns(text_lines(text)[i]).len() == kinds.len()
        },
        TabError::TableFull => true,
    }
}

/// The values of rows of one value.
fn values_of(rows: &Vec<Vec<u32>>) -> (r: Vec<u32>)
    requires
        forall|i: int| 0 <= i < rows@.len() ==> #[trigger] rows@[i]@.len() == 1,
    ensures
        r@.len() == rows@.len(),
        forall|i: int| 0 <= i < rows@.len() ==> seq![#[trigger] r@[i]] == rows@[i]@,
{
    let mut r: Vec<u32> = Vec::new();
    let mut i: usize = 0;
    while i < rows.len()
        invariant
            i <= rows@.len(),
            r@.len() == i,
            forall|i: int| 0 <= i < rows@.len() ==> #[trigger] rows@[i]@.len() == 1,
            forall|m: int| 0 <= m < i ==> seq![#[trigger] r@[m]] == rows@[m]@,
        decreases rows@.len() - i,
    {
        let row = &rows[i];
        r.push(row[0]);
        proof {
            assert(seq![r@[i as int]] =~= rows@[i as int]@);
        }
        i = i + 1;
    }
    r
}

/// The pairs of rows of two values.
fn pairs_of(rows: &Vec<Vec<u32>>) -> (r: Vec<(u32, u32)>)
    requires
        forall|i: int| 0 <= i < rows@.len() ==> #[trigger] rows@[i]@.len() == 2,
    ensures
        r@.len() == rows@.len(),
        forall|i: int| 0 <= i < rows@.len() ==> seq![(#[trigger] r@[i]).0, r@[i].1] == rows@[i]@,
{
    let mut r: Vec<(u32, u32)> = Vec::new();
    let mut i: usize = 0;
    while i < rows.len()
        invariant
            i <= rows@.len(),
            r@.len() == i,
            forall|i: int| 0 <= i < rows@.len() ==> #[trigger] rows@[i]@.len() == 2,
            forall|m: int| 0 <= m < i ==> seq![(#[trigger] r@[m]).0, r@[m].1] == rows@[m]@,
        decreases rows@.len() - i,
    {
        let row = &rows[i];
        r.push((row[0], row[1]));
        proof {
            assert(seq![r@[i as int].0, r@[i as int].1] =~= rows@[i as int]@);
        }
        i = i + 1;
    }
    r
}

/// The triples of rows of three values.
fn triples_of(rows: &Vec<Vec<u32>>) -> (r: Vec<(u32, u32, u32)>)
    requires
        forall|i: int| 0 <= i < rows@.len() ==> #[trigger] rows@[i]@.len() == 3,
    ensures
        r@.len() == rows@.len(),
        forall|i: int| 0 <= i < rows@.len() ==> seq![(#[trigger] r@[i]).0, r@[i].1, r@[i].2] == rows@[i]@,
{
    let mut r: Vec<(u32, u32, u32)> = Vec::new();
    let mut i: usize = 0;
    while i < rows.len()
        invariant
            i <= rows@.len(),
            r@.len() == i,
            forall|i: int| 0 <= i < rows@.len() ==> #[trigger] rows@[i]@.len() == 3,
            forall|m: int| 0 <= m < i ==> seq![(#[trigger] r@[m]).0, r@[m].1, r@[m].2] == rows@[m]@,
        decreases rows@.len() - i,
    {
        let row = &rows[i];
        r.push((row[0], row[1], row[2]));
        proof {
            assert(seq![r@[i as int].0, r@[i as int].1, r@[i as int].2] =~= rows@[i as int]@);
        }
        i = i + 1;
    }
    r
}

/// Reads the facts from the texts of their files, in the order of [`fact_files`], interning
/// the names file after file. The first file that is no relation of its kinds stops the
/// reading, with its relation and what is wrong with it.
pub fn load_tab_delimited_facts(tables: &mut InternerTables, texts: &Vec<String>) -> (r: Result<AllFacts, (Rel, TabError)>)
    requires
        old(tables).wf(),
        texts@.len() == 18,
    ensures
        final(tables).wf(),
        grows(names_of(old(tables)), names_of(final(tables))),
        match r {
            Ok(f) => facts_named(names_of(final(tables)), f, texts@),
            Err((rel, e)) => {
                &&& exists|k: int|
                    0 <= k < 18 && #[trigger] fact_file_relations()[k] == rel && file_error(fact_kinds(k), texts@[k]@, e)
                &&& e is TableFull ==> some_table_full(names_of(final(tables)))
            },
        },
{
    let files = fact_files();
    let mut all: Vec<Vec<Vec<u32>>> = Vec::new();
    let mut k: usize = 0;
    while k < 18
        invariant
            tables.wf(),
            grows(names_of(old(tables)), names_of(tables)),
            texts@.len() == 18,
            files@ == fact_file_relations(),
            k <= 18,
            all@.len() == k,
            forall|m: int| 0 <= m < k ==> #[trigger] rows_named(names_of(tables), fact_kinds(m), all@[m]@, texts@[m]@),
        decreases 18 - k,
    {
        let kinds = kinds_of_file(k);
        let ghost before = names_of(tables);
        let rows = match load_tab_delimited_file(tables, texts[k].as_str(), &kinds) {
            Ok(rows) => rows,
            Err(e) => {
                let rel = files[k];
                proof {
                    assert(fact_file_relations()[k as int] == rel);
                }
                return Err((rel, e));
            },
        };
        proof {
            lemma_grows_trans(names_of(old(tables)), before, names_of(tables));
            assert forall|m: int| 0 <= m < k implies #[trigger] rows_named(names_of(tables), fact_kinds(m), all@[m]@, texts@[m]@) by {
                lemma_rows_named_grows(before, names_of(tables), fact_kinds(m), all@[m]@, texts@[m]@);
            }
        }
        all.push(rows);
        k = k + 1;
    }
    let ghost t = names_of(tables);
    proof {
        assert(rows_named(t, fact_kinds(0), all@[0]@, texts@[0]@));
        assert forall|i: int| 0 <= i < all@[0]@.len() implies #[trigger] all@[0]@[i]@.len() == 3 by {
            assert(tuple_names(t, fact_kinds(0), all@[0]@[i]@, text_lines(texts@[0]@)[i]));
        }
        assert(rows_named(t, fact_kinds(1), all@[1]@, texts@[1]@));
        assert forall|i: int| 0 <= i < all@[1]@.len() implies #[trigger] all@[1]@[i]@.len() == 1 by {
            assert(tuple_names(t, fact_kinds(1), all@[1]@[i]@, text_lines(texts@[1]@)[i]));
        }
        assert(rows_named(t, fact_kinds(2), all@[2]@, texts@[2]@));
        assert forall|i: int| 0 <= i < all@[2]@.len() implies #[trigger] all@[2]@[i]@.len() == 2 by {
            assert(tuple_names(t, fact_kinds(2), all@[2]@[i]@, text_lines(texts@[2]@)[i]));
        }
        assert(rows_named(t, fact_kinds(3), all@[3]@, texts@[3]@));
        assert forall|i: int| 0 <= i < all@[3]@.len() implies #[trigger] all@[3]@[i]@.len() == 2 by {
            assert(tuple_names(t, fact_kinds(3), all@[3]@[i]@, text_lines(texts@[3]@)[i]));
        }
        assert(rows_named(t, fact_kinds(4), all@[4]@, texts@[4]@));
        assert forall|i: int| 0 <= i < all@[4]@.len() implies #[trigger] all@[4]@[i]@.len() == 3 by {
            assert(tuple_names(t, fact_kinds(4), all@[4]@[i]@, text_lines(texts@[4]@)[i]));
        }
        assert(rows_named(t, fact_kinds(5), all@[5]@, texts@[5]@));
        assert forall|i: int| 0 <= i < all@[5]@.len() implies #[trigger] all@[5]@[i]@.len() == 2 by {
            assert(tuple_names(t, fact_kinds(5), all@[5]@[i]@, text_lines(texts@[5]@)[i]));
        }
        assert(rows_named(t, fact_kinds(6), all@[6]@, texts@[6]@));
        assert forall|i: int| 0 <= i < all@[6]@.len() implies #[trigger] all@[6]@[i]@.len() == 2 by {
            assert(tuple_names(t, fact_kinds(6), all@[6]@[i]@, text_lines(texts@[6]@)[i]));
        }
        assert(rows_named(t, fact_kinds(7), all@[7]@, texts@[7]@));
        assert forall|i: int| 0 <= i < all@[7]@.len() implies #[trigger] all@[7]@[i]@.len() == 2 by {
            assert(tuple_names(t, fact_kinds(7), all@[7]@[i]@, text_lines(texts@[7]@)[i]));
        }
        assert(rows_named(t, fact_kinds(8), all@[8]@, texts@[8]@));
        assert forall|i: int| 0 <= i < all@[8]@.len() implies #[trigger] all@[8]@[i]@.len() == 2 by {
            assert(tuple_names(t, fact_kinds(8), all@[8]@[i]@, text_lines(texts@[8]@)[i]));
        }
        assert(rows_named(t, fact_kinds(9), all@[9]@, texts@[9]@));
        assert forall|i: int| 0 <= i < all@[9]@.len() implies #[trigger] all@[9]@[i]@.len() == 2 by {
            assert(tuple_names(t, fact_kinds(9), all@[9]@[i]@, text_lines(texts@[9]@)[i]));
        }
        assert(rows_named(t, fact_kinds(10), all@[10]@, texts@[10]@));
        assert forall|i: int| 0 <= i < all@[10]@.len() implies #[trigger] all@[10]@[i]@.len() == 2 by {
            assert(tuple_names(t, fact_kinds(10), all@[10]@[i]@, text_lines(texts@[10]@)[i]));
        }
        assert(rows_named(t, fact_kinds(11), all@[11]@, texts@[11]@));
        assert forall|i: int| 0 <= i < all@[11]@.len() implies #[trigger] all@[11]@[i]@.len() == 2 by {
            assert(tuple_names(t, fact_kinds(11), all@[11]@[i]@, text_lines(texts@[11]@)[i]));
        }
        assert(rows_named(t, fact_kinds(12), all@[12]@, texts@[12]@));
        assert forall|i: int| 0 <= i < all@[12]@.len() implies #[trigger] all@[12]@[i]@.len() == 2 by {
            assert(tuple_names(t, fact_kinds(12), all@[12]@[i]@, text_lines(texts@[12]@)[i]));
        }
        assert(rows_named(t, fact_kinds(13), all@[13]@, texts@[13]@));
        assert forall|i: int| 0 <= i < all@[13]@.len() implies #[trigger] all@[13]@[i]@.len() == 2 by {
            assert(tuple_names(t, fact_kinds(13), all@[13]@[i]@, text_lines(texts@[13]@)[i]));
        }
        assert(rows_named(t, fact_kinds(14), all@[14]@, texts@[14]@));
        assert forall|i: int| 0 <= i < all@[14]@.len() implies #[trigger] all@[14]@[i]@.len() == 2 by {
            assert(tuple_names(t, fact_kinds(14), all@[14]@[i]@, text_lines(texts@[14]@)[i]));
        }
        assert(rows_named(t, fact_kinds(15), all@[15]@, texts@[15]@));
        assert forall|i: int| 0 <= i < all@[15]@.len() implies #[trigger] all@[15]@[i]@.len() == 2 by {
            assert(tuple_names(t, fact_kinds(15), all@[15]@[i]@, text_lines(texts@[15]@)[i]));
        }
        assert(rows_named(t, fact_kinds(16), all@[16]@, texts@[16]@));
        assert forall|i: int| 0 <= i < all@[16]@.len() implies #[trigger] all@[16]@[i]@.len() == 2 by {
            assert(tuple_names(t, fact_kinds(16), all@[16]@[i]@, text_lines(texts@[16]@)[i]));
        }
        assert(rows_named(t, fact_kinds(17), all@[17]@, texts@[17]@));
        assert forall|i: int| 0 <= i < all@[17]@.len() implies #[trigger] all@[17]@[i]@.len() == 2 by {
            assert(tuple_names(t, fact_kinds(17), all@[17]@[i]@, text_lines(texts@[17]@)[i]));
        }
    }
    let loan_issued_at = triples_of(&all[0]);
    let universal_region = values_of(&all[1]);
    let cfg_edge = pairs_of(&all[2]);
    let loan_killed_at = pairs_of(&all[3]);
    let subset_base = triples_of(&all[4]);
    let loan_invalidated_at = pairs_of(&all[5]);
    let var_used_at = pairs_of(&all[6]);
    let var_defined_at = pairs_of(&all[7]);
    let var_dropped_at = pairs_of(&all[8]);
    let use_of_var_derefs_origin = pairs_of(&all[9]);
    let drop_of_var_derefs_origin = pairs_of(&all[10]);
    let child_path = pairs_of(&all[11]);
    let path_is_var = pairs_of(&all[12]);
    let path_assigned_at_base = pairs_of(&all[13]);
    let path_moved_at_base = pairs_of(&all[14]);
    let path_accessed_at_base = pairs_of(&all[15]);
    let known_placeholder_subset = pairs_of(&all[16]);
    let placeholder = pairs_of(&all[17]);
    let facts = AllFacts {
        loan_issued_at,
        universal_region,
        cfg_edge,
        loan_killed_at,
        subset_base,
        loan_invalidated_at,
        var_used_at,
        var_defined_at,
        var_dropped_at,
        use_of_var_derefs_origin,
        drop_of_var_derefs_origin,
        child_path,
        path_is_var,
        path_assigned_at_base,
        path_moved_at_base,
        path_accessed_at_base,
        known_placeholder_subset,
        placeholder,
    };
    Ok(facts)
}


/// Whether each value of `v` is, in the table `a`, the name on its line of `text`, a value for
/// each line of one column.
pub open spec fn lines_name_values(v: Seq<u32>, a: Seq<Seq<char>>, text: Seq<char>) -> bool {
    &&& v.len() == text_lines(text).len()
    &&& forall|i: int| 0 <= i < v.len() ==> {
        let cols = columns(#[trigger] text_lines(text)[i]);
        &&& cols.len() == 1
        &&& v[i] < a.len() && a[v[i] as int] == cols[0]
    }
}

/// Whether each pair of `v` is, in the tables `a` and `b`, the names on its line of `text`:
/// its first component names the first column in `a`, its second the second column in `b`.
pub open spec fn lines_name_pairs(v: Seq<(u32, u32)>, a: Seq<Seq<char>>, b: Seq<Seq<char>>, text: Seq<char>) -> bool {
    &&& v.len() == text_lines(text).len()
    &&& forall|i: int| 0 <= i < v.len() ==> {
        let cols = columns(#[trigger] text_lines(text)[i]);
        &&& cols.len() == 2
        &&& v[i].0 < a.len() && a[v[i].0 as int] == cols[0]
        &&& v[i].1 < b.len() && b[v[i].1 as int] == cols[1]
    }
}

/// Whether each triple of `v` is, in the tables `a`, `b` and `c`, the names of the three
/// columns of its line of `text`.
pub open spec fn lines_name_triples(
    v: Seq<(u32, u32, u32)>,
    a: Seq<Seq<char>>,
    b: Seq<Seq<char>>,
    c: Seq<Seq<char>>,
    text: Seq<char>,
) -> bool {
    &&& v.len() == text_lines(text).len()
    &&& forall|i: int| 0 <= i < v.len() ==> {
        let cols = columns(#[trigger] text_lines(text)[i]);
        &&& cols.len() == 3
        &&& v[i].0 < a.len() && a[v[i].0 as int] == cols[0]
        &&& v[i].1 < b.len() && b[v[i].1 as int] == cols[1]
        &&& v[i].2 < c.len() && c[v[i].2 as int] == cols[2]
    }
}

proof fn lemma_value_columns(t: Names, kinds: Seq<Kind>, v: Seq<u32>, text: Seq<char>, ka: Kind)
    requires
        values_named(t, kinds, v, text),
        kinds == seq![ka],
    ensures
        lines_name_values(v, table_of(t, ka), text),
{
    assert forall|i: int| 0 <= i < v.len() implies {
        let cols = columns(#[trigger] text_lines(text)[i]);
        &&& cols.len() == 1
        &&& v[i] < table_of(t, ka).len() && table_of(t, ka)[v[i] as int] == cols[0]
    } by {
        let ids = seq![v[i]];
        assert(tuple_names(t, kinds, ids, text_lines(text)[i]));
        assert(ids[0] == v[i]);
    }
}

proof fn lemma_pair_columns(t: Names, kinds: Seq<Kind>, v: Seq<(u32, u32)>, text: Seq<char>, ka: Kind, kb: Kind)
    requires
        pairs_named(t, kinds, v, text),
        kinds == seq![ka, kb],
    ensures
        lines_name_pairs(v, table_of(t, ka), table_of(t, kb), text),
{
    assert forall|i: int| 0 <= i < v.len() implies {
        let cols = columns(#[trigger] text_lines(text)[i]);
        &&& cols.len() == 2
        &&& v[i].0 < table_of(t, ka).len() && table_of(t, ka)[v[i].0 as int] == cols[0]
        &&& v[i].1 < table_of(t, kb).len() && table_of(t, kb)[v[i].1 as int] == cols[1]
    } by {
        let ids = seq![v[i].0, v[i].1];
        assert(tuple_names(t, kinds, ids, text_lines(text)[i]));
        assert(ids[0] == v[i].0 && ids[1] == v[i].1);
    }
}

proof fn lemma_triple_columns(
    t: Names,
    kinds: Seq<Kind>,
    v: Seq<(u32, u32, u32)>,
    text: Seq<char>,
    ka: Kind,
    kb: Kind,
    kc: Kind,
)
    requires
        triples_named(t, kinds, v, text),
        kinds == seq![ka, kb, kc],
    ensures
        lines_name_triples(v, table_of(t, ka), table_of(t, kb), table_of(t, kc), text),
{
    assert forall|i: int| 0 <= i < v.len() implies {
        let cols = columns(#[trigger] text_lines(text)[i]);
        &&& cols.len() == 3
        &&& v[i].0 < table_of(t, ka).len() && table_of(t, ka)[v[i].0 as int] == cols[0]
        &&& v[i].1 < table_of(t, kb).len() && table_of(t, kb)[v[i].1 as int] == cols[1]
        &&& v[i].2 < table_of(t, kc).len() && table_of(t, kc)[v[i].2 as int] == cols[2]
    } by {
        let ids = seq![v[i].0, v[i].1, v[i].2];
        assert(tuple_names(t, kinds, ids, text_lines(text)[i]));
        assert(ids[0] == v[i].0 && ids[1] == v[i].1 && ids[2] == v[i].2);
    }
}

/// Facts read from their files (see [`load_tab_delimited_facts`]) hold, for each line of each
/// file, the indices of the line's names in the tables of the kinds of the relation's
/// components: `loan_issued_at(origin, loan, point)`, `universal_region(origin)`,
/// `cfg_edge(point, point)`, `loan_killed_at(loan, point)`, `subset_base(origin, origin,
/// point)`, `loan_invalidated_at(point, loan)`, `var_used_at(variable, point)`,
/// `var_defined_at(variable, point)`, `var_dropped_at(variable, point)`,
/// `use_of_var_derefs_origin(variable, origin)`, `drop_of_var_derefs_origin(variable, origin)`,
/// `child_path(path, path)`, `path_is_var(path, variable)`, `path_assigned_at_base(path,
/// point)`, `path_moved_at_base(path, point)`, `path_accessed_at_base(path, point)`,
/// `known_placeholder_subset(origin, origin)` and `placeholder(origin, loan)`.
pub proof fn lemma_loaded_facts_name_their_columns(t: Names, f: AllFacts, texts: Seq<String>)
    requires
        texts.len() == 18,
        facts_named(t, f, texts),
    ensures
        lines_name_triples(f.loan_issued_at@, t.origins, t.loans, t.points, texts[0]@),
        lines_name_values(f.universal_region@, t.origins, texts[1]@),
        lines_name_pairs(f.cfg_edge@, t.points, t.points, texts[2]@),
        lines_name_pairs(f.loan_killed_at@, t.loans, t.points, texts[3]@),
        lines_name_triples(f.subset_base@, t.origins, t.origins, t.points, texts[4]@),
        lines_name_pairs(f.loan_invalidated_at@, t.points, t.loans, texts[5]@),
        lines_name_pairs(f.var_used_at@, t.variables, t.points, texts[6]@),
        lines_name_pairs(f.var_defined_at@, t.variables, t.points, texts[7]@),
        lines_name_pairs(f.var_dropped_at@, t.variables, t.points, texts[8]@),
        lines_name_pairs(f.use_of_var_derefs_origin@, t.variables, t.origins, texts[9]@),
        lines_name_pairs(f.drop_of_var_derefs_origin@, t.variables, t.origins, texts[10]@),
        lines_name_pairs(f.child_path@, t.paths, t.paths, texts[11]@),
        lines_name_pairs(f.path_is_var@, t.paths, t.variables, texts[12]@),
        lines_name_pairs(f.path_assigned_at_base@, t.paths, t.points, texts[13]@),
        lines_name_pairs(f.path_moved_at_base@, t.paths, t.points, texts[14]@),
        lines_name_pairs(f.path_accessed_at_base@, t.paths, t.points, texts[15]@),
        lines_name_pairs(f.known_placeholder_subset@, t.origins, t.origins, texts[16]@),
        lines_name_pairs(f.placeholder@, t.origins, t.loans, texts[17]@),
{
    lemma_triple_columns(t, fact_kinds(0), f.loan_issued_at@, texts[0]@, Kind::Origin, Kind::Loan, Kind::Point);
    lemma_value_columns(t, fact_kinds(1), f.universal_region@, texts[1]@, Kind::Origin);
    lemma_pair_columns(t, fact_kinds(2), f.cfg_edge@, texts[2]@, Kind::Point, Kind::Point);
    lemma_pair_columns(t, fact_kinds(3), f.loan_killed_at@, texts[3]@, Kind::Loan, Kind::Point);
    lemma_triple_columns(t, fact_kinds(4), f.subset_base@, texts[4]@, Kind::Origin, Kind::Origin, Kind::Point);
    lemma_pair_columns(t, fact_kinds(5), f.loan_invalidated_at@, texts[5]@, Kind::Point, Kind::Loan);
    lemma_pair_columns(t, fact_kinds(6), f.var_used_at@, texts[6]@, Kind::Variable, Kind::Point);
    lemma_pair_columns(t, fact_kinds(7), f.var_defined_at@, texts[7]@, Kind::Variable, Kind::Point);
    lemma_pair_columns(t, fact_kinds(8), f.var_dropped_at@, texts[8]@, Kind::Variable, Kind::Point);
    lemma_pair_columns(t, fact_kinds(9), f.use_of_var_derefs_origin@, texts[9]@, Kind::Variable, Kind::Origin);
    lemma_pair_columns(t, fact_kinds(10), f.drop_of_var_derefs_origin@, texts[10]@, Kind::Variable, Kind::Origin);
    lemma_pair_columns(t, fact_kinds(11), f.child_path@, texts[11]@, Kind::Path, Kind::Path);
    lemma_pair_columns(t, fact_kinds(12), f.path_is_var@, texts[12]@, Kind::Path, Kind::Variable);
    lemma_pair_columns(t, fact_kinds(13), f.path_assigned_at_base@, texts[13]@, Kind::Path, Kind::Point);
    lemma_pair_columns(t, fact_kinds(14), f.path_moved_at_base@, texts[14]@, Kind::Path, Kind::Point);
    lemma_pair_columns(t, fact_kinds(15), f.path_accessed_at_base@, texts[15]@, Kind::Path, Kind::Point);
    lemma_pair_columns(t, fact_kinds(16), f.known_placeholder_subset@, texts[16]@, Kind::Origin, Kind::Origin);
    lemma_pair_columns(t, fact_kinds(17), f.placeholder@, texts[17]@, Kind::Origin, Kind::Loan);
}

} // verus!
