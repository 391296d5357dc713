//! Facts from a fact program: each statement of a block has a start point and a mid point,
//! the control flow runs through them in order and along the `goto`s, and each effect states
//! a fact at one of them.
//!
//! The facts are interned: their names go into the interner tables, and the relations hold
//! indices. [`parse_from_program`] states its result through [`named_facts`], the facts read
//! back through the tables, which is the set [`stated_facts`] of the facts that the program
//! states.

use vstd::prelude::*;
use crate::error::error_message;
use crate::facts::{AllFacts, insert1, insert2, insert3, sorted1, sorted2, sorted3};
use crate::intern::{Interner, InternerTables};
use crate::ir::{
    Block, BlockV, Effect, EffectV, Fact, FactV, InputV, blocks_view, effects_view, known_subsets_view,
    pairs_view, placeholders_view,
};
use crate::lexer::{lex, lexable, significant};
use crate::parser::{input_result, parse_input};
use crate::text::{decimal, push_decimal, push_str, string_of};

verus! {

/// A fact, with names in place of indices.
pub enum NamedFact {
    LoanIssuedAt(Seq<char>, Seq<char>, Seq<char>),
    UniversalRegion(Seq<char>),
    CfgEdge(Seq<char>, Seq<char>),
    LoanKilledAt(Seq<char>, Seq<char>),
    SubsetBase(Seq<char>, Seq<char>, Seq<char>),
    LoanInvalidatedAt(Seq<char>, Seq<char>),
    KnownPlaceholderSubset(Seq<char>, Seq<char>),
    Placeholder(Seq<char>, Seq<char>),
    VarDefinedAt(Seq<char>, Seq<char>),
    VarUsedAt(Seq<char>, Seq<char>),
    UseOfVarDerefsOrigin(Seq<char>, Seq<char>),
    DropOfVarDerefsOrigin(Seq<char>, Seq<char>),
}

/// The contents of the interner tables.
pub struct Names {
    pub origins: Seq<Seq<char>>,
    pub loans: Seq<Seq<char>>,
    pub points: Seq<Seq<char>>,
    pub variables: Seq<Seq<char>>,
    pub paths: Seq<Seq<char>>,
}

/// The contents of `t`.
pub open spec fn names_of(t: &InternerTables) -> Names {
    Names { origins: t.origins@, loans: t.loans@, points: t.points@, variables: t.variables@, paths: t.paths@ }
}

/// Whether one of the tables holds as many names as 32-bit indices allow.
pub open spec fn some_table_full(t: Names) -> bool {
    ||| t.origins.len() >= u32::MAX
    ||| t.loans.len() >= u32::MAX
    ||| t.points.len() >= u32::MAX
    ||| t.variables.len() >= u32::MAX
    ||| t.paths.len() >= u32::MAX
}

/// Whether `a` begins `b`.
pub open spec fn prefix(a: Seq<Seq<char>>, b: Seq<Seq<char>>) -> bool {
    a.len() <= b.len() && forall|i: int| 0 <= i < a.len() ==> #[trigger] b[i] == a[i]
}

/// Whether the tables `new` hold those of `old`, each name at the same index.
pub open spec fn grows(old: Names, new: Names) -> bool {
    &&& prefix(old.origins, new.origins)
    &&& prefix(old.loans, new.loans)
    &&& prefix(old.points, new.points)
    &&& prefix(old.variables, new.variables)
    &&& prefix(old.paths, new.paths)
}

pub open spec fn lia_name(t: Names) -> spec_fn((u32, u32, u32)) -> NamedFact {
    |x: (u32, u32, u32)| NamedFact::LoanIssuedAt(t.origins[x.0 as int], t.loans[x.1 as int], t.points[x.2 as int])
}

pub open spec fn ur_name(t: Names) -> spec_fn(u32) -> NamedFact {
    |x: u32| NamedFact::UniversalRegion(t.origins[x as int])
}

pub open spec fn edge_name(t: Names) -> spec_fn((u32, u32)) -> NamedFact {
    |x: (u32, u32)| NamedFact::CfgEdge(t.points[x.0 as int], t.points[x.1 as int])
}

pub open spec fn killed_name(t: Names) -> spec_fn((u32, u32)) -> NamedFact {
    |x: (u32, u32)| NamedFact::LoanKilledAt(t.loans[x.0 as int], t.points[x.1 as int])
}

pub open spec fn subset_name(t: Names) -> spec_fn((u32, u32, u32)) -> NamedFact {
    |x: (u32, u32, u32)| NamedFact::SubsetBase(t.origins[x.0 as int], t.origins[x.1 as int], t.points[x.2 as int])
}

pub open spec fn invalidated_name(t: Names) -> spec_fn((u32, u32)) -> NamedFact {
    |x: (u32, u32)| NamedFact::LoanInvalidatedAt(t.points[x.0 as int], t.loans[x.1 as int])
}

pub open spec fn known_name(t: Names) -> spec_fn((u32, u32)) -> NamedFact {
    |x: (u32, u32)| NamedFact::KnownPlaceholderSubset(t.origins[x.0 as int], t.origins[x.1 as int])
}

pub open spec fn placeholder_name(t: Names) -> spec_fn((u32, u32)) -> NamedFact {
    |x: (u32, u32)| NamedFact::Placeholder(t.origins[x.0 as int], t.loans[x.1 as int])
}

pub open spec fn defined_name(t: Names) -> spec_fn((u32, u32)) -> NamedFact {
    |x: (u32, u32)| NamedFact::VarDefinedAt(t.variables[x.0 as int], t.points[x.1 as int])
}

pub open spec fn used_name(t: Names) -> spec_fn((u32, u32)) -> NamedFact {
    |x: (u32, u32)| NamedFact::VarUsedAt(t.variables[x.0 as int], t.points[x.1 as int])
}

pub open spec fn use_derefs_name(t: Names) -> spec_fn((u32, u32)) -> NamedFact {
    |x: (u32, u32)| NamedFact::UseOfVarDerefsOrigin(t.variables[x.0 as int], t.origins[x.1 as int])
}

pub open spec fn drop_derefs_name(t: Names) -> spec_fn((u32, u32)) -> NamedFact {
    |x: (u32, u32)| NamedFact::DropOfVarDerefsOrigin(t.variables[x.0 as int], t.origins[x.1 as int])
}

/// The facts of `f`, read back through the tables `t`.
pub open spec fn named_facts(f: AllFacts, t: Names) -> Set<NamedFact> {
    f.loan_issued_at@.to_set().map(lia_name(t))
        + f.universal_region@.to_set().map(ur_name(t))
        + f.cfg_edge@.to_set().map(edge_name(t))
        + f.loan_killed_at@.to_set().map(killed_name(t))
        + f.subset_base@.to_set().map(subset_name(t))
        + f.loan_invalidated_at@.to_set().map(invalidated_name(t))
        + f.known_placeholder_subset@.to_set().map(known_name(t))
        + f.placeholder@.to_set().map(placeholder_name(t))
        + f.var_defined_at@.to_set().map(defined_name(t))
        + f.var_used_at@.to_set().map(used_name(t))
        + f.use_of_var_derefs_origin@.to_set().map(use_derefs_name(t))
        + f.drop_of_var_derefs_origin@.to_set().map(drop_derefs_name(t))
}

/// Every index of `f` has a name in the tables `t`.
pub open spec fn in_range(f: AllFacts, t: Names) -> bool {
    &&& forall|k: int| 0 <= k < f.loan_issued_at@.len() ==> {
        let x = #[trigger] f.loan_issued_at@[k];
        x.0 < t.origins.len() && x.1 < t.loans.len() && x.2 < t.points.len()
    }
    &&& forall|k: int| 0 <= k < f.universal_region@.len() ==> #[trigger] f.universal_region@[k] < t.origins.len()
    &&& forall|k: int| 0 <= k < f.cfg_edge@.len() ==> {
        let x = #[trigger] f.cfg_edge@[k];
        x.0 < t.points.len() && x.1 < t.points.len()
    }
    &&& forall|k: int| 0 <= k < f.loan_killed_at@.len() ==> {
        let x = #[trigger] f.loan_killed_at@[k];
        x.0 < t.loans.len() && x.1 < t.points.len()
    }
    &&& forall|k: int| 0 <= k < f.subset_base@.len() ==> {
        let x = #[trigger] f.subset_base@[k];
        x.0 < t.origins.len() && x.1 < t.origins.len() && x.2 < t.points.len()
    }
    &&& forall|k: int| 0 <= k < f.loan_invalidated_at@.len() ==> {
        let x = #[trigger] f.loan_invalidated_at@[k];
        x.0 < t.points.len() && x.1 < t.loans.len()
    }
    &&& forall|k: int| 0 <= k < f.known_placeholder_subset@.len() ==> {
        let x = #[trigger] f.known_placeholder_subset@[k];
        x.0 < t.origins.len() && x.1 < t.origins.len()
    }
    &&& forall|k: int| 0 <= k < f.placeholder@.len() ==> {
        let x = #[trigger] f.placeholder@[k];
        x.0 < t.origins.len() && x.1 < t.loans.len()
    }
    &&& forall|k: int| 0 <= k < f.var_defined_at@.len() ==> {
        let x = #[trigger] f.var_defined_at@[k];
        x.0 < t.variables.len() && x.1 < t.points.len()
    }
    &&& forall|k: int| 0 <= k < f.var_used_at@.len() ==> {
        let x = #[trigger] f.var_used_at@[k];
        x.0 < t.variables.len() && x.1 < t.points.len()
    }
    &&& forall|k: int| 0 <= k < f.use_of_var_derefs_origin@.len() ==> {
        let x = #[trigger] f.use_of_var_derefs_origin@[k];
        x.0 < t.variables.len() && x.1 < t.origins.len()
    }
    &&& forall|k: int| 0 <= k < f.drop_of_var_derefs_origin@.len() ==> {
        let x = #[trigger] f.drop_of_var_derefs_origin@[k];
        x.0 < t.variables.len() && x.1 < t.origins.len()
    }
}

/// Every relation of `f` is sorted, and those that a fact program never states are empty.
pub open spec fn facts_shape(f: AllFacts) -> bool {
    &&& sorted3(f.loan_issued_at@)
    &&& sorted1(f.universal_region@)
    &&& sorted2(f.cfg_edge@)
    &&& sorted2(f.loan_killed_at@)
    &&& sorted3(f.subset_base@)
    &&& sorted2(f.loan_invalidated_at@)
    &&& sorted2(f.known_placeholder_subset@)
    &&& sorted2(f.placeholder@)
    &&& sorted2(f.var_defined_at@)
    &&& sorted2(f.var_used_at@)
    &&& sorted2(f.use_of_var_derefs_origin@)
    &&& sorted2(f.drop_of_var_derefs_origin@)
    &&& f.var_dropped_at@.len() == 0
    &&& f.child_path@.len() == 0
    &&& f.path_is_var@.len() == 0
    &&& f.path_assigned_at_base@.len() == 0
    &&& f.path_moved_at_base@.len() == 0
    &&& f.path_accessed_at_base@.len() == 0
}

/// The text of a point: `"Kind(block[index])"`, the quotes included.
pub open spec fn point_text(kind: Seq<char>, block: Seq<char>, i: int) -> Seq<char> {
    seq!['"'] + kind + seq!['('] + block + seq!['['] + decimal(i as nat) + seq![']', ')', '"']
}

/// The start point of statement `i` of `block`.
pub open spec fn start_point(block: Seq<char>, i: int) -> Seq<char> {
    point_text(seq!['S', 't', 'a', 'r', 't'], block, i)
}

/// The mid point of statement `i` of `block`.
pub open spec fn mid_point(block: Seq<char>, i: int) -> Seq<char> {
    point_text(seq!['M', 'i', 'd'], block, i)
}

/// The fact that an effect states at `point`, if it states one that becomes a fact here.
pub open spec fn effect_fact(e: EffectV, point: Seq<char>) -> Option<NamedFact> {
    match e {
        EffectV::Fact(f) => match f {
            FactV::BorrowRegionAt { origin, loan } => Some(NamedFact::LoanIssuedAt(origin, loan, point)),
            FactV::Outlives { a, b } => Some(NamedFact::SubsetBase(a, b, point)),
            FactV::Kill { loan } => Some(NamedFact::LoanKilledAt(loan, point)),
            FactV::Invalidates { loan } => Some(NamedFact::LoanInvalidatedAt(point, loan)),
            FactV::DefineVariable { variable } => Some(NamedFact::VarDefinedAt(variable, point)),
            FactV::UseVariable { variable } => Some(NamedFact::VarUsedAt(variable, point)),
            _ => None,
        },
        EffectV::Use { .. } => None,
    }
}

/// The facts that the first `n` effects of `es` state at `point`.
pub open spec fn effects_facts(es: Seq<EffectV>, n: int, point: Seq<char>) -> Set<NamedFact> {
    Set::new(|f: NamedFact| exists|k: int| 0 <= k < n && k < es.len() && effect_fact(es[k], point) == Some(f))
}

/// The control-flow edges that statement `i` of block `b` brings: from its start point to
/// its mid point; from the mid point of the statement before it, if any; and from the mid
/// point of the block's last statement to the start of each block it jumps to.
pub open spec fn statement_edges(b: BlockV, i: int) -> Set<NamedFact> {
    let n = b.statements.len() as int;
    Set::new(
        |f: NamedFact|
            f == NamedFact::CfgEdge(start_point(b.name, i), mid_point(b.name, i)) || (i > 0 && f
                == NamedFact::CfgEdge(mid_point(b.name, i - 1), start_point(b.name, i))) || exists|g: int|
                0 <= g < b.goto.len() && f == NamedFact::CfgEdge(mid_point(b.name, n - 1), start_point(b.goto[g], 0)),
    )
}

/// The facts that statement `i` of block `b` brings: its edges, the facts of its effects at
/// its mid point, and those of its start effects at its start point.
pub open spec fn statement_facts(b: BlockV, i: int) -> Set<NamedFact> {
    let s = b.statements[i];
    statement_edges(b, i) + effects_facts(s.effects, s.effects.len() as int, mid_point(b.name, i))
        + effects_facts(s.effects_start, s.effects_start.len() as int, start_point(b.name, i))
}

/// The facts of the statements of `blocks` that come before statement `si` of block `bi`.
pub open spec fn blocks_facts(blocks: Seq<BlockV>, bi: int, si: int) -> Set<NamedFact> {
    Set::new(
        |f: NamedFact|
            exists|b: int, s: int|
                0 <= b < blocks.len() && 0 <= s < blocks[b].statements.len() && (b < bi || (b == bi && s < si))
                    && #[trigger] statement_facts(blocks[b], s).contains(f),
    )
}

/// The facts that the first `n` placeholders state: each origin is universal, and a
/// placeholder with its loan.
pub open spec fn placeholder_facts(ph: Seq<(Seq<char>, Seq<char>)>, n: int, with_loans: bool) -> Set<NamedFact> {
    Set::new(
        |f: NamedFact|
            exists|k: int|
                0 <= k < n && k < ph.len() && (if with_loans {
                    f == NamedFact::Placeholder(ph[k].0, ph[k].1)
                } else {
                    f == NamedFact::UniversalRegion(ph[k].0)
                }),
    )
}

/// The kinds of fact that a list of pairs of names can state.
pub enum PairKind {
    DropOfVarDerefsOrigin,
    UseOfVarDerefsOrigin,
    KnownPlaceholderSubset,
}

/// The fact of kind `kind` about the pair `p`.
pub open spec fn pair_fact(kind: PairKind, p: (Seq<char>, Seq<char>)) -> NamedFact {
    match kind {
        PairKind::DropOfVarDerefsOrigin => NamedFact::DropOfVarDerefsOrigin(p.0, p.1),
        PairKind::UseOfVarDerefsOrigin => NamedFact::UseOfVarDerefsOrigin(p.0, p.1),
        PairKind::KnownPlaceholderSubset => NamedFact::KnownPlaceholderSubset(p.0, p.1),
    }
}

/// The facts of kind `kind` about the first `n` pairs of `ps`.
pub open spec fn pair_facts(ps: Seq<(Seq<char>, Seq<char>)>, n: int, kind: PairKind) -> Set<NamedFact> {
    Set::new(|f: NamedFact| exists|k: int| 0 <= k < n && k < ps.len() && f == pair_fact(kind, ps[k]))
}

/// The facts that a parsed program states.
pub open spec fn stated_facts(input: InputV) -> Set<NamedFact> {
    placeholder_facts(input.placeholders, input.placeholders.len() as int, false)
        + placeholder_facts(input.placeholders, input.placeholders.len() as int, true)
        + pair_facts(input.drop_of_var_derefs_origin, input.drop_of_var_derefs_origin.len() as int, PairKind::DropOfVarDerefsOrigin)
        + pair_facts(input.use_of_var_derefs_origin, input.use_of_var_derefs_origin.len() as int, PairKind::UseOfVarDerefsOrigin)
        + pair_facts(input.known_subsets, input.known_subsets.len() as int, PairKind::KnownPlaceholderSubset)
        + blocks_facts(input.blocks, input.blocks.len() as int, 0)
}

/// The message of the error given when a table of names is full.
pub open spec fn table_full_message() -> Seq<char> {
    seq!['t', 'o', 'o', ' ', 'm', 'a', 'n', 'y', ' ', 'n', 'a', 'm', 'e', 's']
}

/// Mapping a set with one more element gives the mapped set with its image.
proof fn lemma_map_insert<A, B>(s: Set<A>, x: A, f: spec_fn(A) -> B)
    ensures
        s.insert(x).map(f) == s.map(f).insert(f(x)),
{
    assert forall|b: B| s.insert(x).map(f).contains(b) implies #[trigger] s.map(f).insert(f(x)).contains(b) by {
        let a = choose|a: A| s.insert(x).contains(a) && b == f(a);
        if a != x {
            assert(s.contains(a));
        }
    }
    assert forall|b: B| s.map(f).insert(f(x)).contains(b) implies #[trigger] s.insert(x).map(f).contains(b) by {
        if b == f(x) {
            assert(s.insert(x).contains(x));
        } else {
            let a = choose|a: A| s.contains(a) && b == f(a);
            assert(s.insert(x).contains(a));
        }
    }
    assert(s.insert(x).map(f) =~= s.map(f).insert(f(x)));
}

/// Two functions that agree on a set map it to the same set.
proof fn lemma_map_congr<A, B>(s: Set<A>, f: spec_fn(A) -> B, g: spec_fn(A) -> B)
    requires
        forall|x: A| s.contains(x) ==> f(x) == g(x),
    ensures
        s.map(f) == s.map(g),
{
    assert forall|b: B| s.map(f).contains(b) implies #[trigger] s.map(g).contains(b) by {
        let a = choose|a: A| s.contains(a) && b == f(a);
        assert(b == g(a));
    }
    assert forall|b: B| s.map(g).contains(b) implies #[trigger] s.map(f).contains(b) by {
        let a = choose|a: A| s.contains(a) && b == g(a);
        assert(b == f(a));
    }
    assert(s.map(f) =~= s.map(g));
}

/// When the tables grow, the facts keep their names.
proof fn lemma_named_stable(f: AllFacts, t1: Names, t2: Names)
    requires
        in_range(f, t1),
        grows(t1, t2),
    ensures
        named_facts(f, t1) == named_facts(f, t2),
        in_range(f, t2),
{
    assert forall|x: (u32, u32, u32)| f.loan_issued_at@.to_set().contains(x) implies lia_name(t1)(x) == lia_name(t2)(x) by {
        let k = choose|k: int| 0 <= k < f.loan_issued_at@.len() && f.loan_issued_at@[k] == x;
        assert(t2.origins[x.0 as int] == t1.origins[x.0 as int]);
        assert(t2.loans[x.1 as int] == t1.loans[x.1 as int]);
        assert(t2.points[x.2 as int] == t1.points[x.2 as int]);
    }
    lemma_map_congr(f.loan_issued_at@.to_set(), lia_name(t1), lia_name(t2));
    assert forall|x: u32| f.universal_region@.to_set().contains(x) implies ur_name(t1)(x) == ur_name(t2)(x) by {
        let k = choose|k: int| 0 <= k < f.universal_region@.len() && f.universal_region@[k] == x;
        assert(t2.origins[x as int] == t1.origins[x as int]);
    }
    lemma_map_congr(f.universal_region@.to_set(), ur_name(t1), ur_name(t2));
    assert forall|x: (u32, u32)| f.cfg_edge@.to_set().contains(x) implies edge_name(t1)(x) == edge_name(t2)(x) by {
        let k = choose|k: int| 0 <= k < f.cfg_edge@.len() && f.cfg_edge@[k] == x;
        assert(t2.points[x.0 as int] == t1.points[x.0 as int]);
        assert(t2.points[x.1 as int] == t1.points[x.1 as int]);
    }
    lemma_map_congr(f.cfg_edge@.to_set(), edge_name(t1), edge_name(t2));
    assert forall|x: (u32, u32)| f.loan_killed_at@.to_set().contains(x) implies killed_name(t1)(x) == killed_name(t2)(x) by {
        let k = choose|k: int| 0 <= k < f.loan_killed_at@.len() && f.loan_killed_at@[k] == x;
        assert(t2.loans[x.0 as int] == t1.loans[x.0 as int]);
        assert(t2.points[x.1 as int] == t1.points[x.1 as int]);
    }
    lemma_map_congr(f.loan_killed_at@.to_set(), killed_name(t1), killed_name(t2));
    assert forall|x: (u32, u32, u32)| f.subset_base@.to_set().contains(x) implies subset_name(t1)(x) == subset_name(t2)(x) by {
        let k = choose|k: int| 0 <= k < f.subset_base@.len() && f.subset_base@[k] == x;
        assert(t2.origins[x.0 as int] == t1.origins[x.0 as int]);
        assert(t2.origins[x.1 as int] == t1.origins[x.1 as int]);
        assert(t2.points[x.2 as int] == t1.points[x.2 as int]);
    }
    lemma_map_congr(f.subset_base@.to_set(), subset_name(t1), subset_name(t2));
    assert forall|x: (u32, u32)| f.loan_invalidated_at@.to_set().contains(x) implies invalidated_name(t1)(x) == invalidated_name(t2)(x) by {
        let k = choose|k: int| 0 <= k < f.loan_invalidated_at@.len() && f.loan_invalidated_at@[k] == x;
        assert(t2.points[x.0 as int] == t1.points[x.0 as int]);
        assert(t2.loans[x.1 as int] == t1.loans[x.1 as int]);
    }
    lemma_map_congr(f.loan_invalidated_at@.to_set(), invalidated_name(t1), invalidated_name(t2));
    assert forall|x: (u32, u32)| f.known_placeholder_subset@.to_set().contains(x) implies known_name(t1)(x) == known_name(t2)(x) by {
        let k = choose|k: int| 0 <= k < f.known_placeholder_subset@.len() && f.known_placeholder_subset@[k] == x;
        assert(t2.origins[x.0 as int] == t1.origins[x.0 as int]);
        assert(t2.origins[x.1 as int] == t1.origins[x.1 as int]);
    }
    lemma_map_congr(f.known_placeholder_subset@.to_set(), known_name(t1), known_name(t2));
    assert forall|x: (u32, u32)| f.placeholder@.to_set().contains(x) implies placeholder_name(t1)(x) == placeholder_name(t2)(x) by {
        let k = choose|k: int| 0 <= k < f.placeholder@.len() && f.placeholder@[k] == x;
        assert(t2.origins[x.0 as int] == t1.origins[x.0 as int]);
        assert(t2.loans[x.1 as int] == t1.loans[x.1 as int]);
    }
    lemma_map_congr(f.placeholder@.to_set(), placeholder_name(t1), placeholder_name(t2));
    assert forall|x: (u32, u32)| f.var_defined_at@.to_set().contains(x) implies defined_name(t1)(x) == defined_name(t2)(x) by {
        let k = choose|k: int| 0 <= k < f.var_defined_at@.len() && f.var_defined_at@[k] == x;
        assert(t2.variables[x.0 as int] == t1.variables[x.0 as int]);
        assert(t2.points[x.1 as int] == t1.points[x.1 as int]);
    }
    lemma_map_congr(f.var_defined_at@.to_set(), defined_name(t1), defined_name(t2));
    assert forall|x: (u32, u32)| f.var_used_at@.to_set().contains(x) implies used_name(t1)(x) == used_name(t2)(x) by {
        let k = choose|k: int| 0 <= k < f.var_used_at@.len() && f.var_used_at@[k] == x;
        assert(t2.variables[x.0 as int] == t1.variables[x.0 as int]);
        assert(t2.points[x.1 as int] == t1.points[x.1 as int]);
    }
    lemma_map_congr(f.var_used_at@.to_set(), used_name(t1), used_name(t2));
    assert forall|x: (u32, u32)| f.use_of_var_derefs_origin@.to_set().contains(x) implies use_derefs_name(t1)(x) == use_derefs_name(t2)(x) by {
        let k = choose|k: int| 0 <= k < f.use_of_var_derefs_origin@.len() && f.use_of_var_derefs_origin@[k] == x;
        assert(t2.variables[x.0 as int] == t1.variables[x.0 as int]);
        assert(t2.origins[x.1 as int] == t1.origins[x.1 as int]);
    }
    lemma_map_congr(f.use_of_var_derefs_origin@.to_set(), use_derefs_name(t1), use_derefs_name(t2));
    assert forall|x: (u32, u32)| f.drop_of_var_derefs_origin@.to_set().contains(x) implies drop_derefs_name(t1)(x) == drop_derefs_name(t2)(x) by {
        let k = choose|k: int| 0 <= k < f.drop_of_var_derefs_origin@.len() && f.drop_of_var_derefs_origin@[k] == x;
        assert(t2.variables[x.0 as int] == t1.variables[x.0 as int]);
        assert(t2.origins[x.1 as int] == t1.origins[x.1 as int]);
    }
    lemma_map_congr(f.drop_of_var_derefs_origin@.to_set(), drop_derefs_name(t1), drop_derefs_name(t2));
}

proof fn lemma_insert_elems1(old: Seq<u32>, new: Seq<u32>, x: u32)
    requires
        new.to_set() == old.to_set().insert(x),
    ensures
        forall|k: int| 0 <= k < new.len() ==> new[k] == x || exists|j: int| 0 <= j < old.len() && old[j] == #[trigger] new[k],
{
    assert forall|k: int| 0 <= k < new.len() implies new[k] == x || exists|j: int| 0 <= j < old.len() && old[j] == #[trigger] new[k] by {
        assert(new.to_set().contains(new[k]));
    }
}

proof fn lemma_insert_elems2(old: Seq<(u32, u32)>, new: Seq<(u32, u32)>, x: (u32, u32))
    requires
        new.to_set() == old.to_set().insert(x),
    ensures
        forall|k: int| 0 <= k < new.len() ==> new[k] == x || exists|j: int| 0 <= j < old.len() && old[j] == #[trigger] new[k],
{
    assert forall|k: int| 0 <= k < new.len() implies new[k] == x || exists|j: int| 0 <= j < old.len() && old[j] == #[trigger] new[k] by {
        assert(new.to_set().contains(new[k]));
    }
}

proof fn lemma_insert_elems3(old: Seq<(u32, u32, u32)>, new: Seq<(u32, u32, u32)>, x: (u32, u32, u32))
    requires
        new.to_set() == old.to_set().insert(x),
    ensures
        forall|k: int| 0 <= k < new.len() ==> new[k] == x || exists|j: int| 0 <= j < old.len() && old[j] == #[trigger] new[k],
{
    assert forall|k: int| 0 <= k < new.len() implies new[k] == x || exists|j: int| 0 <= j < old.len() && old[j] == #[trigger] new[k] by {
        assert(new.to_set().contains(new[k]));
    }
}

/// Adds `x` to the `loan_issued_at` relation.
fn add_loan_issued_at(facts: &mut AllFacts, Ghost(t): Ghost<Names>, x: (u32, u32, u32))
    requires
        in_range(*old(facts), t),
        facts_shape(*old(facts)),
        x.0 < t.origins.len(),
        x.1 < t.loans.len(),
        x.2 < t.points.len(),
    ensures
        in_range(*final(facts), t),
        facts_shape(*final(facts)),
        named_facts(*final(facts), t) == named_facts(*old(facts), t).insert(lia_name(t)(x)),
{
    let ghost before = facts.loan_issued_at@;
    insert3(&mut facts.loan_issued_at, x);
    proof {
        lemma_insert_elems3(before, facts.loan_issued_at@, x);
        lemma_map_insert(before.to_set(), x, lia_name(t));
        assert(named_facts(*facts, t) =~= named_facts(*old(facts), t).insert(lia_name(t)(x)));
    }
}

/// Adds `x` to the `universal_region` relation.
fn add_universal_region(facts: &mut AllFacts, Ghost(t): Ghost<Names>, x: u32)
    requires
        in_range(*old(facts), t),
        facts_shape(*old(facts)),
        x < t.origins.len(),
    ensures
        in_range(*final(facts), t),
        facts_shape(*final(facts)),
        named_facts(*final(facts), t) == named_facts(*old(facts), t).insert(ur_name(t)(x)),
{
    let ghost before = facts.universal_region@;
    insert1(&mut facts.universal_region, x);
    proof {
        lemma_insert_elems1(before, facts.universal_region@, x);
        lemma_map_insert(before.to_set(), x, ur_name(t));
        assert(named_facts(*facts, t) =~= named_facts(*old(facts), t).insert(ur_name(t)(x)));
    }
}

/// Adds `x` to the `cfg_edge` relation.
fn add_cfg_edge(facts: &mut AllFacts, Ghost(t): Ghost<Names>, x: (u32, u32))
    requires
        in_range(*old(facts), t),
        facts_shape(*old(facts)),
        x.0 < t.points.len(),
        x.1 < t.points.len(),
    ensures
        in_range(*final(facts), t),
        facts_shape(*final(facts)),
        named_facts(*final(facts), t) == named_facts(*old(facts), t).insert(edge_name(t)(x)),
{
    let ghost before = facts.cfg_edge@;
    insert2(&mut facts.cfg_edge, x);
    proof {
        lemma_insert_elems2(before, facts.cfg_edge@, x);
        lemma_map_insert(before.to_set(), x, edge_name(t));
        assert(named_facts(*facts, t) =~= named_facts(*old(facts), t).insert(edge_name(t)(x)));
    }
}

/// Adds `x` to the `loan_killed_at` relation.
fn add_loan_killed_at(facts: &mut AllFacts, Ghost(t): Ghost<Names>, x: (u32, u32))
    requires
        in_range(*old(facts), t),
        facts_shape(*old(facts)),
        x.0 < t.loans.len(),
        x.1 < t.points.len(),
    ensures
        in_range(*final(facts), t),
        facts_shape(*final(facts)),
        named_facts(*final(facts), t) == named_facts(*old(facts), t).insert(killed_name(t)(x)),
{
    let ghost before = facts.loan_killed_at@;
    insert2(&mut facts.loan_killed_at, x);
    proof {
        lemma_insert_elems2(before, facts.loan_killed_at@, x);
        lemma_map_insert(before.to_set(), x, killed_name(t));
        assert(named_facts(*facts, t) =~= named_facts(*old(facts), t).insert(killed_name(t)(x)));
    }
}

/// Adds `x` to the `subset_base` relation.
fn add_subset_base(facts: &mut AllFacts, Ghost(t): Ghost<Names>, x: (u32, u32, u32))
    requires
        in_range(*old(facts), t),
        facts_shape(*old(facts)),
        x.0 < t.origins.len(),
        x.1 < t.origins.len(),
        x.2 < t.points.len(),
    ensures
        in_range(*final(facts), t),
        facts_shape(*final(facts)),
        named_facts(*final(facts), t) == named_facts(*old(facts), t).insert(subset_name(t)(x)),
{
    let ghost before = facts.subset_base@;
    insert3(&mut facts.subset_base, x);
    proof {
        lemma_insert_elems3(before, facts.subset_base@, x);
        lemma_map_insert(before.to_set(), x, subset_name(t));
        assert(named_facts(*facts, t) =~= named_facts(*old(facts), t).insert(subset_name(t)(x)));
    }
}

/// Adds `x` to the `loan_invalidated_at` relation.
fn add_loan_invalidated_at(facts: &mut AllFacts, Ghost(t): Ghost<Names>, x: (u32, u32))
    requires
        in_range(*old(facts), t),
        facts_shape(*old(facts)),
        x.0 < t.points.len(),
        x.1 < t.loans.len(),
    ensures
        in_range(*final(facts), t),
        facts_shape(*final(facts)),
        named_facts(*final(facts), t) == named_facts(*old(facts), t).insert(invalidated_name(t)(x)),
{
    let ghost before = facts.loan_invalidated_at@;
    insert2(&mut facts.loan_invalidated_at, x);
    proof {
        lemma_insert_elems2(before, facts.loan_invalidated_at@, x);
        lemma_map_insert(before.to_set(), x, invalidated_name(t));
        assert(named_facts(*facts, t) =~= named_facts(*old(facts), t).insert(invalidated_name(t)(x)));
    }
}

/// Adds `x` to the `known_placeholder_subset` relation.
fn add_known_placeholder_subset(facts: &mut AllFacts, Ghost(t): Ghost<Names>, x: (u32, u32))
    requires
        in_range(*old(facts), t),
        facts_shape(*old(facts)),
        x.0 < t.origins.len(),
        x.1 < t.origins.len(),
    ensures
        in_range(*final(facts), t),
        facts_shape(*final(facts)),
        named_facts(*final(facts), t) == named_facts(*old(facts), t).insert(known_name(t)(x)),
{
    let ghost before = facts.known_placeholder_subset@;
    insert2(&mut facts.known_placeholder_subset, x);
    proof {
        lemma_insert_elems2(before, facts.known_placeholder_subset@, x);
        lemma_map_insert(before.to_set(), x, known_name(t));
        assert(named_facts(*facts, t) =~= named_facts(*old(facts), t).insert(known_name(t)(x)));
    }
}

/// Adds `x` to the `placeholder` relation.
fn add_placeholder(facts: &mut AllFacts, Ghost(t): Ghost<Names>, x: (u32, u32))
    requires
        in_range(*old(facts), t),
        facts_shape(*old(facts)),
        x.0 < t.origins.len(),
        x.1 < t.loans.len(),
    ensures
        in_range(*final(facts), t),
        facts_shape(*final(facts)),
        named_facts(*final(facts), t) == named_facts(*old(facts), t).insert(placeholder_name(t)(x)),
{
    let ghost before = facts.placeholder@;
    insert2(&mut facts.placeholder, x);
    proof {
        lemma_insert_elems2(before, facts.placeholder@, x);
        lemma_map_insert(before.to_set(), x, placeholder_name(t));
        assert(named_facts(*facts, t) =~= named_facts(*old(facts), t).insert(placeholder_name(t)(x)));
    }
}

/// Adds `x` to the `var_defined_at` relation.
fn add_var_defined_at(facts: &mut AllFacts, Ghost(t): Ghost<Names>, x: (u32, u32))
    requires
        in_range(*old(facts), t),
        facts_shape(*old(facts)),
        x.0 < t.variables.len(),
        x.1 < t.points.len(),
    ensures
        in_range(*final(facts), t),
        facts_shape(*final(facts)),
        named_facts(*final(facts), t) == named_facts(*old(facts), t).insert(defined_name(t)(x)),
{
    let ghost before = facts.var_defined_at@;
    insert2(&mut facts.var_defined_at, x);
    proof {
        lemma_insert_elems2(before, facts.var_defined_at@, x);
        lemma_map_insert(before.to_set(), x, defined_name(t));
        assert(named_facts(*facts, t) =~= named_facts(*old(facts), t).insert(defined_name(t)(x)));
    }
}

/// Adds `x` to the `var_used_at` relation.
fn add_var_used_at(facts: &mut AllFacts, Ghost(t): Ghost<Names>, x: (u32, u32))
    requires
        in_range(*old(facts), t),
        facts_shape(*old(facts)),
        x.0 < t.variables.len(),
        x.1 < t.points.len(),
    ensures
        in_range(*final(facts), t),
        facts_shape(*final(facts)),
        named_facts(*final(facts), t) == named_facts(*old(facts), t).insert(used_name(t)(x)),
{
    let ghost before = facts.var_used_at@;
    insert2(&mut facts.var_used_at, x);
    proof {
        lemma_insert_elems2(before, facts.var_used_at@, x);
        lemma_map_insert(before.to_set(), x, used_name(t));
        assert(named_facts(*facts, t) =~= named_facts(*old(facts), t).insert(used_name(t)(x)));
    }
}

/// Adds `x` to the `use_of_var_derefs_origin` relation.
fn add_use_of_var_derefs_origin(facts: &mut AllFacts, Ghost(t): Ghost<Names>, x: (u32, u32))
    requires
        in_range(*old(facts), t),
        facts_shape(*old(facts)),
        x.0 < t.variables.len(),
        x.1 < t.origins.len(),
    ensures
        in_range(*final(facts), t),
        facts_shape(*final(facts)),
        named_facts(*final(facts), t) == named_facts(*old(facts), t).insert(use_derefs_name(t)(x)),
{
    let ghost before = facts.use_of_var_derefs_origin@;
    insert2(&mut facts.use_of_var_derefs_origin, x);
    proof {
        lemma_insert_elems2(before, facts.use_of_var_derefs_origin@, x);
        lemma_map_insert(before.to_set(), x, use_derefs_name(t));
        assert(named_facts(*facts, t) =~= named_facts(*old(facts), t).insert(use_derefs_name(t)(x)));
    }
}

/// Adds `x` to the `drop_of_var_derefs_origin` relation.
fn add_drop_of_var_derefs_origin(facts: &mut AllFacts, Ghost(t): Ghost<Names>, x: (u32, u32))
    requires
        in_range(*old(facts), t),
        facts_shape(*old(facts)),
        x.0 < t.variables.len(),
        x.1 < t.origins.len(),
    ensures
        in_range(*final(facts), t),
        facts_shape(*final(facts)),
        named_facts(*final(facts), t) == named_facts(*old(facts), t).insert(drop_derefs_name(t)(x)),
{
    let ghost before = facts.drop_of_var_derefs_origin@;
    insert2(&mut facts.drop_of_var_derefs_origin, x);
    proof {
        lemma_insert_elems2(before, facts.drop_of_var_derefs_origin@, x);
        lemma_map_insert(before.to_set(), x, drop_derefs_name(t));
        assert(named_facts(*facts, t) =~= named_facts(*old(facts), t).insert(drop_derefs_name(t)(x)));
    }
}

/// Interns `s` in `t`, unless the table is full.
fn intern_name(t: &mut Interner, s: &str) -> (r: Option<u32>)
    requires
        old(t).wf(),
    ensures
        final(t).wf(),
        prefix(old(t)@, final(t)@),
        r is None <==> old(t)@.len() >= u32::MAX,
        r is None ==> final(t)@ == old(t)@,
        r matches Some(i) ==> i < final(t)@.len() && final(t)@[i as int] == s@,
        r is Some && old(t)@.contains(s@) ==> final(t)@ == old(t)@,
        r is Some && !old(t)@.contains(s@) ==> final(t)@ == old(t)@.push(s@),
{
    if t.len() < 0xffff_ffffusize {
        let i = t.intern(s);
        Some(i)
    } else {
        None
    }
}

/// The text of the start point (or else the mid point) of statement `i` of `block`.
fn point_name(start: bool, block: &str, i: usize) -> (r: String)
    ensures
        r@ == (if start { start_point(block@, i as int) } else { mid_point(block@, i as int) }),
{
    let mut v: Vec<char> = Vec::new();
    v.push('"');
    if start {
        v.push('S');
        v.push('t');
        v.push('a');
        v.push('r');
        v.push('t');
    } else {
        v.push('M');
        v.push('i');
        v.push('d');
    }
    v.push('(');
    push_str(&mut v, block);
    v.push('[');
    push_decimal(&mut v, i as u64);
    v.push(']');
    v.push(')');
    v.push('"');
    proof {
        if start {
            assert(v@ =~= start_point(block@, i as int));
        } else {
            assert(v@ =~= mid_point(block@, i as int));
        }
    }
    string_of(&v)
}

/// The facts of `facts` at the tables `tables` are `named`, and the tables hold those of
/// `start`.
pub open spec fn progress(facts: AllFacts, tables: InternerTables, start: Names, named: Set<NamedFact>) -> bool {
    &&& tables.wf()
    &&& grows(start, names_of(&tables))
    &&& in_range(facts, names_of(&tables))
    &&& facts_shape(facts)
    &&& named_facts(facts, names_of(&tables)) == named
}

/// Records the fact that `fact` states at `point` (see [`effect_fact`]). Returns `false`
/// when a table of names is full.
fn emit_fact(facts: &mut AllFacts, fact: &Fact, point: u32, tables: &mut InternerTables) -> (ok: bool)
    requires
        progress(*old(facts), *old(tables), names_of(old(tables)), named_facts(*old(facts), names_of(old(tables)))),
        point < old(tables).points@.len(),
    ensures
        final(tables).wf(),
        !ok ==> some_table_full(names_of(final(tables))),
        grows(names_of(old(tables)), names_of(final(tables))),
        ok ==> progress(
            *final(facts),
            *final(tables),
            names_of(old(tables)),
            match effect_fact(EffectV::Fact(fact@), old(tables).points@[point as int]) {
                Some(n) => named_facts(*old(facts), names_of(old(tables))).insert(n),
                None => named_facts(*old(facts), names_of(old(tables))),
            },
        ),
{
    let ghost t0 = names_of(tables);
    match fact {
        Fact::BorrowRegionAt { origin, loan } => {
            let o = match intern_name(&mut tables.origins, origin.as_str()) { Some(i) => i, None => return false };
            let l = match intern_name(&mut tables.loans, loan.as_str()) { Some(i) => i, None => return false };
            proof { lemma_named_stable(*facts, t0, names_of(tables)); }
            add_loan_issued_at(facts, Ghost(names_of(tables)), (o, l, point));
        },
        Fact::Outlives { a, b } => {
            let x = match intern_name(&mut tables.origins, a.as_str()) { Some(i) => i, None => return false };
            let y = match intern_name(&mut tables.origins, b.as_str()) { Some(i) => i, None => return false };
            proof { lemma_named_stable(*facts, t0, names_of(tables)); }
            add_subset_base(facts, Ghost(names_of(tables)), (x, y, point));
        },
        Fact::Kill { loan } => {
            let l = match intern_name(&mut tables.loans, loan.as_str()) { Some(i) => i, None => return false };
            proof { lemma_named_stable(*facts, t0, names_of(tables)); }
            add_loan_killed_at(facts, Ghost(names_of(tables)), (l, point));
        },
        Fact::Invalidates { loan } => {
            let l = match intern_name(&mut tables.loans, loan.as_str()) { Some(i) => i, None => return false };
            proof { lemma_named_stable(*facts, t0, names_of(tables)); }
            add_loan_invalidated_at(facts, Ghost(names_of(tables)), (point, l));
        },
        Fact::DefineVariable { variable } => {
            let v = match intern_name(&mut tables.variables, variable.as_str()) { Some(i) => i, None => return false };
            proof { lemma_named_stable(*facts, t0, names_of(tables)); }
            add_var_defined_at(facts, Ghost(names_of(tables)), (v, point));
        },
        Fact::UseVariable { variable } => {
            let v = match intern_name(&mut tables.variables, variable.as_str()) { Some(i) => i, None => return false };
            proof { lemma_named_stable(*facts, t0, names_of(tables)); }
            add_var_used_at(facts, Ghost(names_of(tables)), (v, point));
        },
        _ => {},
    }
    true
}

pub(crate) proof fn lemma_grows_trans(a: Names, b: Names, c: Names)
    requires
        grows(a, b),
        grows(b, c),
    ensures
        grows(a, c),
{
}

proof fn lemma_effects_facts_step(es: Seq<EffectV>, k: int, point: Seq<char>)
    requires
        0 <= k < es.len(),
    ensures
        effects_facts(es, k + 1, point) == (match effect_fact(es[k], point) {
            Some(n) => effects_facts(es, k, point).insert(n),
            None => effects_facts(es, k, point),
        }),
{
    match effect_fact(es[k], point) {
        Some(n) => {
            assert(effects_facts(es, k + 1, point) =~= effects_facts(es, k, point).insert(n));
        },
        None => {
            assert(effects_facts(es, k + 1, point) =~= effects_facts(es, k, point));
        },
    }
}

/// Records the facts that `effects` state at `point` (see [`effects_facts`]). Returns
/// `false` when a table of names is full.
fn emit_effects(facts: &mut AllFacts, effects: &Vec<Effect>, point: u32, tables: &mut InternerTables) -> (ok: bool)
    requires
        progress(*old(facts), *old(tables), names_of(old(tables)), named_facts(*old(facts), names_of(old(tables)))),
        point < old(tables).points@.len(),
    ensures
        final(tables).wf(),
        !ok ==> some_table_full(names_of(final(tables))),
        grows(names_of(old(tables)), names_of(final(tables))),
        ok ==> progress(
            *final(facts),
            *final(tables),
            names_of(old(tables)),
            named_facts(*old(facts), names_of(old(tables))) + effects_facts(
                effects_view(effects@),
                effects@.len() as int,
                old(tables).points@[point as int],
            ),
        ),
{
    let ghost t0 = names_of(tables);
    let ghost n0 = named_facts(*facts, t0);
    let ghost pname = tables.points@[point as int];
    let ghost ev = effects_view(effects@);
    proof {
        assert(n0 + effects_facts(ev, 0, pname) =~= n0);
    }
    let mut k: usize = 0;
    while k < effects.len()
        invariant
            k <= effects@.len(),
            t0 == names_of(old(tables)),
            ev == effects_view(effects@),
            point < tables.points@.len(),
            tables.points@[point as int] == pname,
            progress(*facts, *tables, t0, n0 + effects_facts(ev, k as int, pname)),
        decreases effects@.len() - k,
    {
        proof {
            lemma_effects_facts_step(ev, k as int, pname);
            assert(ev[k as int] == effects@[k as int]@);
        }
        match &effects[k] {
            Effect::Fact(f) => {
                let ghost before = named_facts(*facts, names_of(tables));
                let ghost t1 = names_of(tables);
                let ok = emit_fact(facts, f, point, tables);
                proof {
                    lemma_grows_trans(t0, t1, names_of(tables));
                }
                if !ok {
                    return false;
                }
                proof {
                    match effect_fact(EffectV::Fact(f@), pname) {
                        Some(n) => {
                            assert(n0 + effects_facts(ev, k + 1, pname) =~= before.insert(n));
                        },
                        None => {},
                    }
                }
            },
            _ => {},
        }
        k = k + 1;
    }
    true
}

/// Records the facts of statement `si` of `block` (see [`statement_facts`]). Returns `false`
/// when a table of names is full.
fn emit_statement(facts: &mut AllFacts, block: &Block, si: usize, tables: &mut InternerTables) -> (ok: bool)
    requires
        progress(*old(facts), *old(tables), names_of(old(tables)), named_facts(*old(facts), names_of(old(tables)))),
        si < block.statements@.len(),
    ensures
        final(tables).wf(),
        !ok ==> some_table_full(names_of(final(tables))),
        grows(names_of(old(tables)), names_of(final(tables))),
        ok ==> progress(
            *final(facts),
            *final(tables),
            names_of(old(tables)),
            named_facts(*old(facts), names_of(old(tables))) + statement_facts(block@, si as int),
        ),
{
    let ghost t0 = names_of(tables);
    let ghost n0 = named_facts(*facts, t0);
    let ghost b = block@;
    let name = block.name.as_str();
    let start_text = point_name(true, name, si);
    let start = match intern_name(&mut tables.points, start_text.as_str()) { Some(i) => i, None => return false };
    let mid_text = point_name(false, name, si);
    let mid = match intern_name(&mut tables.points, mid_text.as_str()) { Some(i) => i, None => return false };
    proof {
        lemma_named_stable(*facts, t0, names_of(tables));
    }
    let ghost edges_done: Set<NamedFact> = Set::empty();
    if si > 0 {
        let prev_text = point_name(false, name, si - 1);
        let ghost t1 = names_of(tables);
        let prev = match intern_name(&mut tables.points, prev_text.as_str()) { Some(i) => i, None => return false };
        proof {
            lemma_named_stable(*facts, t1, names_of(tables));
        }
        add_cfg_edge(facts, Ghost(names_of(tables)), (prev, start));
        proof {
            edges_done = edges_done.insert(NamedFact::CfgEdge(mid_point(b.name, si - 1), start_point(b.name, si as int)));
        }
    }
    add_cfg_edge(facts, Ghost(names_of(tables)), (start, mid));
    proof {
        edges_done = edges_done.insert(NamedFact::CfgEdge(start_point(b.name, si as int), mid_point(b.name, si as int)));
        assert(named_facts(*facts, names_of(tables)) =~= n0 + edges_done);
    }
    let terminator_idx = block.statements.len() - 1;
    let ghost last = (b.statements.len() - 1) as int;
    proof {
        assert(n0 + edges_done + Set::new(
            |f: NamedFact| exists|j: int| 0 <= j < 0 && f == NamedFact::CfgEdge(mid_point(b.name, last), start_point(b.goto[j], 0)),
        ) =~= n0 + edges_done);
    }
    let mut g: usize = 0;
    while g < block.goto.len()
        invariant
            g <= block.goto@.len(),
            t0 == names_of(old(tables)),
            b == block@,
            name@ == b.name,
            terminator_idx == last,
            si < block.statements@.len(),
            start < tables.points@.len(),
            mid < tables.points@.len(),
            tables.points@[start as int] == start_point(b.name, si as int),
            tables.points@[mid as int] == mid_point(b.name, si as int),
            progress(*facts, *tables, t0, n0 + edges_done + Set::new(
                |f: NamedFact| exists|j: int| 0 <= j < g && f == NamedFact::CfgEdge(mid_point(b.name, last), start_point(b.goto[j], 0)),
            )),
        decreases block.goto@.len() - g,
    {
        let ghost before = named_facts(*facts, names_of(tables));
        let ghost t1 = names_of(tables);
        let from_text = point_name(false, name, terminator_idx);
        let r = intern_name(&mut tables.points, from_text.as_str());
        proof {
            lemma_grows_trans(t0, t1, names_of(tables));
        }
        let from = match r { Some(i) => i, None => return false };
        let ghost t2 = names_of(tables);
        let to_text = point_name(true, block.goto[g].as_str(), 0);
        let r = intern_name(&mut tables.points, to_text.as_str());
        proof {
            lemma_grows_trans(t0, t2, names_of(tables));
        }
        let to = match r { Some(i) => i, None => return false };
        proof {
            lemma_named_stable(*facts, t1, names_of(tables));
            assert(b.goto[g as int] == block.goto@[g as int]@);
            assert(tables.points@[from as int] == t2.points[from as int]);
            assert(tables.points@[from as int] == mid_point(b.name, last));
            assert(tables.points@[to as int] == start_point(b.goto[g as int], 0));
        }
        add_cfg_edge(facts, Ghost(names_of(tables)), (from, to));
        proof {
            let e = NamedFact::CfgEdge(mid_point(b.name, last), start_point(b.goto[g as int], 0));
            assert(Set::new(
                |f: NamedFact| exists|j: int| 0 <= j < g + 1 && f == NamedFact::CfgEdge(mid_point(b.name, last), start_point(b.goto[j], 0)),
            ) =~= Set::new(
                |f: NamedFact| exists|j: int| 0 <= j < g && f == NamedFact::CfgEdge(mid_point(b.name, last), start_point(b.goto[j], 0)),
            ).insert(e));
            assert(named_facts(*facts, names_of(tables)) == before.insert(e));
            assert(n0 + edges_done + Set::new(
                |f: NamedFact| exists|j: int| 0 <= j < g + 1 && f == NamedFact::CfgEdge(mid_point(b.name, last), start_point(b.goto[j], 0)),
            ) =~= before.insert(e));
        }
        g = g + 1;
    }
    let statement = &block.statements[si];
    proof {
        assert(b.statements[si as int] == statement@);
        assert(n0 + edges_done + Set::new(
            |f: NamedFact| exists|j: int| 0 <= j < block.goto@.len() && f == NamedFact::CfgEdge(mid_point(b.name, last), start_point(b.goto[j], 0)),
        ) =~= n0 + statement_edges(b, si as int));
    }
    let ghost t1 = names_of(tables);
    let ok = emit_effects(facts, &statement.effects, mid, tables);
    proof {
        lemma_grows_trans(t0, t1, names_of(tables));
    }
    if !ok {
        return false;
    }
    let ghost t2 = names_of(tables);
    let ok = emit_effects(facts, &statement.effects_start, start, tables);
    proof {
        lemma_grows_trans(t0, t2, names_of(tables));
    }
    if !ok {
        return false;
    }
    proof {
        let s = b.statements[si as int];
        assert(n0 + statement_edges(b, si as int) + effects_facts(s.effects, s.effects.len() as int, mid_point(b.name, si as int))
            + effects_facts(s.effects_start, s.effects_start.len() as int, start_point(b.name, si as int))
            =~= n0 + statement_facts(b, si as int));
    }
    true
}

proof fn lemma_blocks_step(bs: Seq<BlockV>, bi: int, si: int)
    requires
        0 <= bi < bs.len(),
        0 <= si < bs[bi].statements.len(),
    ensures
        blocks_facts(bs, bi, si + 1) == blocks_facts(bs, bi, si) + statement_facts(bs[bi], si),
{
    assert forall|f: NamedFact| #[trigger] blocks_facts(bs, bi, si + 1).contains(f) implies (blocks_facts(bs, bi, si)
        + statement_facts(bs[bi], si)).contains(f) by {
        let (b, s) = choose|b: int, s: int|
            0 <= b < bs.len() && 0 <= s < bs[b].statements.len() && (b < bi || (b == bi && s < si + 1))
                && #[trigger] statement_facts(bs[b], s).contains(f);
        if !(b == bi && s == si) {
            assert(blocks_facts(bs, bi, si).contains(f));
        }
    }
    assert forall|f: NamedFact| #[trigger] (blocks_facts(bs, bi, si) + statement_facts(bs[bi], si)).contains(f)
        implies blocks_facts(bs, bi, si + 1).contains(f) by {
        if statement_facts(bs[bi], si).contains(f) {
        } else {
            let (b, s) = choose|b: int, s: int|
                0 <= b < bs.len() && 0 <= s < bs[b].statements.len() && (b < bi || (b == bi && s < si))
                    && #[trigger] statement_facts(bs[b], s).contains(f);
            assert(statement_facts(bs[b], s).contains(f));
        }
    }
    assert(blocks_facts(bs, bi, si + 1) =~= blocks_facts(bs, bi, si) + statement_facts(bs[bi], si));
}

proof fn lemma_blocks_next(bs: Seq<BlockV>, bi: int)
    requires
        0 <= bi < bs.len(),
    ensures
        blocks_facts(bs, bi, bs[bi].statements.len() as int) == blocks_facts(bs, bi + 1, 0),
{
    assert forall|f: NamedFact| #[trigger] blocks_facts(bs, bi + 1, 0).contains(f) implies blocks_facts(
        bs,
        bi,
        bs[bi].statements.len() as int,
    ).contains(f) by {
        let (b, s) = choose|b: int, s: int|
            0 <= b < bs.len() && 0 <= s < bs[b].statements.len() && (b < bi + 1 || (b == bi + 1 && s < 0))
                && #[trigger] statement_facts(bs[b], s).contains(f);
        assert(statement_facts(bs[b], s).contains(f));
    }
    assert forall|f: NamedFact| #[trigger] blocks_facts(bs, bi, bs[bi].statements.len() as int).contains(f)
        implies blocks_facts(bs, bi + 1, 0).contains(f) by {
        let (b, s) = choose|b: int, s: int|
            0 <= b < bs.len() && 0 <= s < bs[b].statements.len() && (b < bi || (b == bi && s
                < bs[bi].statements.len())) && #[trigger] statement_facts(bs[b], s).contains(f);
        assert(statement_facts(bs[b], s).contains(f));
    }
    assert(blocks_facts(bs, bi, bs[bi].statements.len() as int) =~= blocks_facts(bs, bi + 1, 0));
}

/// The message `"too many names"`.
fn table_full() -> (r: String)
    ensures
        r@ == table_full_message(),
{
    let mut v: Vec<char> = Vec::new();
    push_str(&mut v, "too many names");
    proof {
        reveal_strlit("too many names");
        assert(v@ =~= table_full_message());
    }
    string_of(&v)
}

/// Records that the origin of each placeholder is a universal region (`with_loans` false),
/// or each placeholder with its loan (`with_loans` true). Returns `false` when a table of
/// names is full.
fn emit_placeholders(facts: &mut AllFacts, phs: &Vec<crate::ir::Placeholder>, with_loans: bool, tables: &mut InternerTables) -> (ok: bool)
    requires
        progress(*old(facts), *old(tables), names_of(old(tables)), named_facts(*old(facts), names_of(old(tables)))),
    ensures
        final(tables).wf(),
        !ok ==> some_table_full(names_of(final(tables))),
        grows(names_of(old(tables)), names_of(final(tables))),
        ok ==> progress(
            *final(facts),
            *final(tables),
            names_of(old(tables)),
            named_facts(*old(facts), names_of(old(tables))) + placeholder_facts(placeholders_view(phs@), phs@.len() as int, with_loans),
        ),
{
    let ghost t0 = names_of(tables);
    let ghost n0 = named_facts(*facts, t0);
    let ghost ph = placeholders_view(phs@);
    proof {
        assert(n0 + placeholder_facts(ph, 0, with_loans) =~= n0);
    }
    let mut k: usize = 0;
    while k < phs.len()
        invariant
            k <= phs@.len(),
            ph == placeholders_view(phs@),
            t0 == names_of(old(tables)),
            progress(*facts, *tables, t0, n0 + placeholder_facts(ph, k as int, with_loans)),
        decreases phs@.len() - k,
    {
        let ghost t1 = names_of(tables);
        let ghost before = named_facts(*facts, t1);
        let r = intern_name(&mut tables.origins, phs[k].origin.as_str());
        proof {
            lemma_grows_trans(t0, t1, names_of(tables));
            assert(ph[k as int] == phs@[k as int]@);
        }
        let o = match r { Some(i) => i, None => return false };
        let n = if with_loans {
            let ghost t2 = names_of(tables);
            let r = intern_name(&mut tables.loans, phs[k].loan.as_str());
            proof {
                lemma_grows_trans(t0, t2, names_of(tables));
            }
            let l = match r { Some(i) => i, None => return false };
            proof {
                lemma_named_stable(*facts, t1, names_of(tables));
            }
            add_placeholder(facts, Ghost(names_of(tables)), (o, l));
            Ghost(NamedFact::Placeholder(ph[k as int].0, ph[k as int].1))
        } else {
            proof {
                lemma_named_stable(*facts, t1, names_of(tables));
            }
            add_universal_region(facts, Ghost(names_of(tables)), o);
            Ghost(NamedFact::UniversalRegion(ph[k as int].0))
        };
        proof {
            assert(placeholder_facts(ph, k + 1, with_loans) =~= placeholder_facts(ph, k as int, with_loans).insert(n@));
            assert(n0 + placeholder_facts(ph, k + 1, with_loans) =~= before.insert(n@));
        }
        k = k + 1;
    }
    true
}

/// Records each pair of a variable and an origin, as a fact of the use (`drop` false) or of
/// the drop (`drop` true) of the variable. Returns `false` when a table of names is full.
fn emit_var_origins(facts: &mut AllFacts, ps: &Vec<(String, String)>, drop: bool, tables: &mut InternerTables) -> (ok: bool)
    requires
        progress(*old(facts), *old(tables), names_of(old(tables)), named_facts(*old(facts), names_of(old(tables)))),
    ensures
        final(tables).wf(),
        !ok ==> some_table_full(names_of(final(tables))),
        grows(names_of(old(tables)), names_of(final(tables))),
        ok ==> progress(
            *final(facts),
            *final(tables),
            names_of(old(tables)),
            named_facts(*old(facts), names_of(old(tables))) + pair_facts(
                pairs_view(ps@),
                ps@.len() as int,
                if drop { PairKind::DropOfVarDerefsOrigin } else { PairKind::UseOfVarDerefsOrigin },
            ),
        ),
{
    let ghost t0 = names_of(tables);
    let ghost n0 = named_facts(*facts, t0);
    let ghost pv = pairs_view(ps@);
    let ghost kind = if drop { PairKind::DropOfVarDerefsOrigin } else { PairKind::UseOfVarDerefsOrigin };
    proof {
        assert(n0 + pair_facts(pv, 0, kind) =~= n0);
    }
    let mut k: usize = 0;
    while k < ps.len()
        invariant
            k <= ps@.len(),
            pv == pairs_view(ps@),
            kind == (if drop { PairKind::DropOfVarDerefsOrigin } else { PairKind::UseOfVarDerefsOrigin }),
            t0 == names_of(old(tables)),
            progress(*facts, *tables, t0, n0 + pair_facts(pv, k as int, kind)),
        decreases ps@.len() - k,
    {
        let ghost t1 = names_of(tables);
        let ghost before = named_facts(*facts, t1);
        let r = intern_name(&mut tables.variables, ps[k].0.as_str());
        proof {
            lemma_grows_trans(t0, t1, names_of(tables));
        }
        let v = match r { Some(i) => i, None => return false };
        let ghost t2 = names_of(tables);
        let r = intern_name(&mut tables.origins, ps[k].1.as_str());
        proof {
            lemma_grows_trans(t0, t2, names_of(tables));
        }
        let o = match r { Some(i) => i, None => return false };
        proof {
            lemma_named_stable(*facts, t1, names_of(tables));
        }
        if drop {
            add_drop_of_var_derefs_origin(facts, Ghost(names_of(tables)), (v, o));
        } else {
            add_use_of_var_derefs_origin(facts, Ghost(names_of(tables)), (v, o));
        }
        proof {
            let n = pair_fact(kind, pv[k as int]);
            assert(pair_facts(pv, k + 1, kind) =~= pair_facts(pv, k as int, kind).insert(n));
            assert(n0 + pair_facts(pv, k + 1, kind) =~= before.insert(n));
        }
        k = k + 1;
    }
    true
}

/// Records each known subset. Returns `false` when a table of names is full.
fn emit_known_subsets(facts: &mut AllFacts, ks: &Vec<crate::ir::KnownSubset>, tables: &mut InternerTables) -> (ok: bool)
    requires
        progress(*old(facts), *old(tables), names_of(old(tables)), named_facts(*old(facts), names_of(old(tables)))),
    ensures
        final(tables).wf(),
        !ok ==> some_table_full(names_of(final(tables))),
        grows(names_of(old(tables)), names_of(final(tables))),
        ok ==> progress(
            *final(facts),
            *final(tables),
            names_of(old(tables)),
            named_facts(*old(facts), names_of(old(tables))) + pair_facts(
                known_subsets_view(ks@),
                ks@.len() as int,
                PairKind::KnownPlaceholderSubset,
            ),
        ),
{
    let ghost t0 = names_of(tables);
    let ghost n0 = named_facts(*facts, t0);
    let ghost pv = known_subsets_view(ks@);
    proof {
        assert(n0 + pair_facts(pv, 0, PairKind::KnownPlaceholderSubset) =~= n0);
    }
    let mut k: usize = 0;
    while k < ks.len()
        invariant
            k <= ks@.len(),
            pv == known_subsets_view(ks@),
            t0 == names_of(old(tables)),
            progress(*facts, *tables, t0, n0 + pair_facts(pv, k as int, PairKind::KnownPlaceholderSubset)),
        decreases ks@.len() - k,
    {
        let ghost t1 = names_of(tables);
        let ghost before = named_facts(*facts, t1);
        let r = intern_name(&mut tables.origins, ks[k].a.as_str());
        proof {
            lemma_grows_trans(t0, t1, names_of(tables));
        }
        let a = match r { Some(i) => i, None => return false };
        let ghost t2 = names_of(tables);
        let r = intern_name(&mut tables.origins, ks[k].b.as_str());
        proof {
            lemma_grows_trans(t0, t2, names_of(tables));
        }
        let b = match r { Some(i) => i, None => return false };
        proof {
            lemma_named_stable(*facts, t1, names_of(tables));
            assert(pv[k as int] == ks@[k as int]@);
        }
        add_known_placeholder_subset(facts, Ghost(names_of(tables)), (a, b));
        proof {
            let n = pair_fact(PairKind::KnownPlaceholderSubset, pv[k as int]);
            assert(pair_facts(pv, k + 1, PairKind::KnownPlaceholderSubset) =~= pair_facts(pv, k as int, PairKind::KnownPlaceholderSubset).insert(n));
            assert(n0 + pair_facts(pv, k + 1, PairKind::KnownPlaceholderSubset) =~= before.insert(n));
        }
        k = k + 1;
    }
    true
}

/// Records the facts of the statements of `blocks` (see [`blocks_facts`]). Returns `false`
/// when a table of names is full.
fn emit_blocks(facts: &mut AllFacts, blocks: &Vec<Block>, tables: &mut InternerTables) -> (ok: bool)
    requires
        progress(*old(facts), *old(tables), names_of(old(tables)), named_facts(*old(facts), names_of(old(tables)))),
    ensures
        final(tables).wf(),
        !ok ==> some_table_full(names_of(final(tables))),
        grows(names_of(old(tables)), names_of(final(tables))),
        ok ==> progress(
            *final(facts),
            *final(tables),
            names_of(old(tables)),
            named_facts(*old(facts), names_of(old(tables))) + blocks_facts(blocks_view(blocks@), blocks@.len() as int, 0),
        ),
{
    let ghost t0 = names_of(tables);
    let ghost n0 = named_facts(*facts, t0);
    let ghost bv = blocks_view(blocks@);
    proof {
        assert(n0 + blocks_facts(bv, 0, 0) =~= n0);
    }
    let mut bi: usize = 0;
    while bi < blocks.len()
        invariant
            bi <= blocks@.len(),
            bv == blocks_view(blocks@),
            t0 == names_of(old(tables)),
            progress(*facts, *tables, t0, n0 + blocks_facts(bv, bi as int, 0)),
        decreases blocks@.len() - bi,
    {
        let block = &blocks[bi];
        proof {
            assert(bv[bi as int] == block@);
        }
        let mut si: usize = 0;
        while si < block.statements.len()
            invariant
                si <= block.statements@.len(),
                bi < blocks@.len(),
                bv == blocks_view(blocks@),
                block == blocks@[bi as int],
                t0 == names_of(old(tables)),
                progress(*facts, *tables, t0, n0 + blocks_facts(bv, bi as int, si as int)),
            decreases block.statements@.len() - si,
        {
            let ghost t1 = names_of(tables);
            let ghost before = named_facts(*facts, t1);
            let ok = emit_statement(facts, block, si, tables);
            proof {
                lemma_grows_trans(t0, t1, names_of(tables));
            }
            if !ok {
                return false;
            }
            proof {
                assert(bv[bi as int] == block@);
                lemma_blocks_step(bv, bi as int, si as int);
                assert(before + statement_facts(block@, si as int) =~= n0 + blocks_facts(bv, bi as int, si + 1));
            }
            si = si + 1;
        }
        proof {
            lemma_blocks_next(bv, bi as int);
        }
        bi = bi + 1;
    }
    true
}

/// Parses an input program into a set of its facts, in the format that `rustc` outputs: the
/// placeholders, their loans and the known subsets; for each statement of each block, its
/// control-flow edges and the facts of its effects at its start and mid points (see
/// [`stated_facts`]). Each relation is sorted and free of duplicates. Fails with the parse
/// error's message when the program does not parse, and when a table of names is full (only
/// then).
#[verifier::rlimit(60)]
pub fn parse_from_program(program: &str, tables: &mut InternerTables) -> (r: Result<AllFacts, String>)
    requires
        lexable(program@),
        old(tables).wf(),
    ensures
        final(tables).wf(),
        grows(names_of(old(tables)), names_of(final(tables))),
        match input_result(program@, significant(lex(program@)), 0).0 {
            Err(e) => r matches Err(s) && s@ == error_message(e),
            Ok(input) => match r {
                Ok(f) => {
                    &&& facts_shape(f)
                    &&& in_range(f, names_of(final(tables)))
                    &&& named_facts(f, names_of(final(tables))) == stated_facts(input)
                },
                Err(s) => s@ == table_full_message() && some_table_full(names_of(final(tables))),
            },
        },
{
    let input = match parse_input(program) {
        Ok(i) => i,
        Err(e) => return Err(e.to_string()),
    };
    let ghost iv = input@;
    let ghost t0 = names_of(tables);
    let mut facts = AllFacts::default();
    proof {
        assert(named_facts(facts, t0) =~= Set::<NamedFact>::empty());
    }
    // facts: universal_region(Origin)
    let ghost t1 = names_of(tables);
    let ok = emit_placeholders(&mut facts, &input.placeholders, false, tables);
    proof { lemma_grows_trans(t0, t1, names_of(tables)); }
    if !ok {
        return Err(table_full());
    }
    // facts: placeholder(Origin, Loan)
    let ghost t1 = names_of(tables);
    let ok = emit_placeholders(&mut facts, &input.placeholders, true, tables);
    proof { lemma_grows_trans(t0, t1, names_of(tables)); }
    if !ok {
        return Err(table_full());
    }
    // facts: drop_of_var_derefs_origin(Variable, Origin)
    let ghost t1 = names_of(tables);
    let ok = emit_var_origins(&mut facts, &input.drop_of_var_derefs_origin, true, tables);
    proof { lemma_grows_trans(t0, t1, names_of(tables)); }
    if !ok {
        return Err(table_full());
    }
    // facts: use_of_var_derefs_origin(Variable, Origin)
    let ghost t1 = names_of(tables);
    let ok = emit_var_origins(&mut facts, &input.use_of_var_derefs_origin, false, tables);
    proof { lemma_grows_trans(t0, t1, names_of(tables)); }
    if !ok {
        return Err(table_full());
    }
    // facts: known_placeholder_subset(Origin, Origin)
    let ghost t1 = names_of(tables);
    let ok = emit_known_subsets(&mut facts, &input.known_subsets, tables);
    proof { lemma_grows_trans(t0, t1, names_of(tables)); }
    if !ok {
        return Err(table_full());
    }
    // facts of the statements: cfg_edge, loan_issued_at, subset_base, loan_killed_at,
    // loan_invalidated_at, var_defined_at, var_used_at
    let ghost t1 = names_of(tables);
    let ok = emit_blocks(&mut facts, &input.blocks, tables);
    proof { lemma_grows_trans(t0, t1, names_of(tables)); }
    if !ok {
        return Err(table_full());
    }
    proof {
        assert(Set::<NamedFact>::empty() + placeholder_facts(iv.placeholders, iv.placeholders.len() as int, false)
            + placeholder_facts(iv.placeholders, iv.placeholders.len() as int, true)
            + pair_facts(iv.drop_of_var_derefs_origin, iv.drop_of_var_derefs_origin.len() as int, PairKind::DropOfVarDerefsOrigin)
            + pair_facts(iv.use_of_var_derefs_origin, iv.use_of_var_derefs_origin.len() as int, PairKind::UseOfVarDerefsOrigin)
            + pair_facts(iv.known_subsets, iv.known_subsets.len() as int, PairKind::KnownPlaceholderSubset)
            + blocks_facts(iv.blocks, iv.blocks.len() as int, 0) =~= stated_facts(iv));
    }
    Ok(facts)
}


/// Whether the facts `f`, read through the tables `t`, hold the fact that the effect `e`
/// states at `point`: `borrow_region_at(origin, loan)` a `loan_issued_at(origin, loan, point)`,
/// `outlives(a: b)` a `subset_base(a, b, point)`, `kill(loan)` a `loan_killed_at(loan, point)`,
/// `invalidates(loan)` a `loan_invalidated_at(point, loan)`, `var_defined_at(variable)` a
/// `var_defined_at(variable, point)` and `var_used_at(variable)` a `var_used_at(variable,
/// point)`. Other effects state no fact of these relations.
pub open spec fn effect_held(f: AllFacts, t: Names, e: EffectV, point: Seq<char>) -> bool {
    match e {
        EffectV::Fact(FactV::BorrowRegionAt { origin, loan }) => exists|j: int|
            0 <= j < f.loan_issued_at@.len() && t.origins[(#[trigger] f.loan_issued_at@[j]).0 as int] == origin
                && t.loans[f.loan_issued_at@[j].1 as int] == loan && t.points[f.loan_issued_at@[j].2 as int] == point,
        EffectV::Fact(FactV::Outlives { a, b }) => exists|j: int|
            0 <= j < f.subset_base@.len() && t.origins[(#[trigger] f.subset_base@[j]).0 as int] == a
                && t.origins[f.subset_base@[j].1 as int] == b && t.points[f.subset_base@[j].2 as int] == point,
        EffectV::Fact(FactV::Kill { loan }) => exists|j: int|
            0 <= j < f.loan_killed_at@.len() && t.loans[(#[trigger] f.loan_killed_at@[j]).0 as int] == loan
                && t.points[f.loan_killed_at@[j].1 as int] == point,
        EffectV::Fact(FactV::Invalidates { loan }) => exists|j: int|
            0 <= j < f.loan_invalidated_at@.len() && t.points[(#[trigger] f.loan_invalidated_at@[j]).0 as int] == point
                && t.loans[f.loan_invalidated_at@[j].1 as int] == loan,
        EffectV::Fact(FactV::DefineVariable { variable }) => exists|j: int|
            0 <= j < f.var_defined_at@.len() && t.variables[(#[trigger] f.var_defined_at@[j]).0 as int] == variable
                && t.points[f.var_defined_at@[j].1 as int] == point,
        EffectV::Fact(FactV::UseVariable { variable }) => exists|j: int|
            0 <= j < f.var_used_at@.len() && t.variables[(#[trigger] f.var_used_at@[j]).0 as int] == variable
                && t.points[f.var_used_at@[j].1 as int] == point,
        _ => true,
    }
}

/// Whether the facts `f`, read through the tables `t`, hold a control-flow edge from the
/// point named `p` to the point named `q`.
pub open spec fn edge_held(f: AllFacts, t: Names, p: Seq<char>, q: Seq<char>) -> bool {
    exists|j: int|
        0 <= j < f.cfg_edge@.len() && t.points[(#[trigger] f.cfg_edge@[j]).0 as int] == p && t.points[f.cfg_edge@[j].1 as int] == q
}

/// A fact of the program, where it is among the facts read back, is held by them.
proof fn lemma_effect_held(f: AllFacts, t: Names, e: EffectV, point: Seq<char>)
    requires
        effect_fact(e, point) is Some ==> named_facts(f, t).contains(effect_fact(e, point)->0),
    ensures
        effect_held(f, t, e, point),
{
    if let Some(nf) = effect_fact(e, point) {
        match nf {
            NamedFact::LoanIssuedAt(..) => {
                let x = choose|x: (u32, u32, u32)| f.loan_issued_at@.to_set().contains(x) && lia_name(t)(x) == nf;
                let j = choose|j: int| 0 <= j < f.loan_issued_at@.len() && f.loan_issued_at@[j] == x;
                assert(f.loan_issued_at@[j] == x);
            },
            NamedFact::SubsetBase(..) => {
                let x = choose|x: (u32, u32, u32)| f.subset_base@.to_set().contains(x) && subset_name(t)(x) == nf;
                let j = choose|j: int| 0 <= j < f.subset_base@.len() && f.subset_base@[j] == x;
                assert(f.subset_base@[j] == x);
            },
            NamedFact::LoanKilledAt(..) => {
                let x = choose|x: (u32, u32)| f.loan_killed_at@.to_set().contains(x) && killed_name(t)(x) == nf;
                let j = choose|j: int| 0 <= j < f.loan_killed_at@.len() && f.loan_killed_at@[j] == x;
                assert(f.loan_killed_at@[j] == x);
            },
            NamedFact::LoanInvalidatedAt(..) => {
                let x = choose|x: (u32, u32)| f.loan_invalidated_at@.to_set().contains(x) && invalidated_name(t)(x) == nf;
                let j = choose|j: int| 0 <= j < f.loan_invalidated_at@.len() && f.loan_invalidated_at@[j] == x;
                assert(f.loan_invalidated_at@[j] == x);
            },
            NamedFact::VarDefinedAt(..) => {
                let x = choose|x: (u32, u32)| f.var_defined_at@.to_set().contains(x) && defined_name(t)(x) == nf;
                let j = choose|j: int| 0 <= j < f.var_defined_at@.len() && f.var_defined_at@[j] == x;
                assert(f.var_defined_at@[j] == x);
            },
            NamedFact::VarUsedAt(..) => {
                let x = choose|x: (u32, u32)| f.var_used_at@.to_set().contains(x) && used_name(t)(x) == nf;
                let j = choose|j: int| 0 <= j < f.var_used_at@.len() && f.var_used_at@[j] == x;
                assert(f.var_used_at@[j] == x);
            },
            _ => {},
        }
    }
}

/// An edge of the program, where it is among the facts read back, is held by them.
proof fn lemma_edge_held(f: AllFacts, t: Names, p: Seq<char>, q: Seq<char>)
    requires
        named_facts(f, t).contains(NamedFact::CfgEdge(p, q)),
    ensures
        edge_held(f, t, p, q),
{
    let nf = NamedFact::CfgEdge(p, q);
    let x = choose|x: (u32, u32)| f.cfg_edge@.to_set().contains(x) && edge_name(t)(x) == nf;
    let j = choose|j: int| 0 <= j < f.cfg_edge@.len() && f.cfg_edge@[j] == x;
    assert(f.cfg_edge@[j] == x);
}

/// The facts of a parsed program (see [`parse_from_program`]) hold, for statement `i` of a
/// block `B`, the edge from `"Start(B[i])"` to `"Mid(B[i])"`, the edge from `"Mid(B[i-1])"`
/// to it where `i > 0`, and from the mid point of the block's last statement the edge to
/// `"Start(G[0])"` for each block `G` it jumps to; and each fact that an effect of the
/// statement states, at its mid point for its effects and at its start point for its start
/// effects.
pub proof fn lemma_program_facts_hold_each_statement(input: InputV, f: AllFacts, t: Names)
    requires
        named_facts(f, t) == stated_facts(input),
    ensures
        forall|b: int, i: int, k: int|
            0 <= b < input.blocks.len() && 0 <= i < input.blocks[b].statements.len() && 0 <= k
                < input.blocks[b].statements[i].effects.len() ==> effect_held(
                f,
                t,
                #[trigger] input.blocks[b].statements[i].effects[k],
                mid_point(input.blocks[b].name, i),
            ),
        forall|b: int, i: int, k: int|
            0 <= b < input.blocks.len() && 0 <= i < input.blocks[b].statements.len() && 0 <= k
                < input.blocks[b].statements[i].effects_start.len() ==> effect_held(
                f,
                t,
                #[trigger] input.blocks[b].statements[i].effects_start[k],
                start_point(input.blocks[b].name, i),
            ),
        forall|b: int, i: int|
            #![trigger start_point(input.blocks[b].name, i)]
            0 <= b < input.blocks.len() && 0 <= i < input.blocks[b].statements.len() ==> {
                &&& edge_held(f, t, start_point(input.blocks[b].name, i), mid_point(input.blocks[b].name, i))
                &&& i > 0 ==> edge_held(f, t, mid_point(input.blocks[b].name, i - 1), start_point(input.blocks[b].name, i))
            },
        forall|b: int, g: int|
            0 <= b < input.blocks.len() && input.blocks[b].statements.len() > 0 && 0 <= g < input.blocks[b].goto.len()
                ==> edge_held(
                f,
                t,
                mid_point(input.blocks[b].name, input.blocks[b].statements.len() - 1),
                start_point(#[trigger] input.blocks[b].goto[g], 0),
            ),
{
    let bs = input.blocks;
    let n = bs.len() as int;
    assert forall|b: int, i: int, k: int|
        0 <= b < bs.len() && 0 <= i < bs[b].statements.len() && 0 <= k < bs[b].statements[i].effects.len() implies effect_held(
        f,
        t,
        #[trigger] bs[b].statements[i].effects[k],
        mid_point(bs[b].name, i),
    ) by {
        let e = bs[b].statements[i].effects[k];
        let point = mid_point(bs[b].name, i);
        if let Some(nf) = effect_fact(e, point) {
            let es = bs[b].statements[i].effects;
            assert(effects_facts(es, es.len() as int, point).contains(nf));
            assert(statement_facts(bs[b], i).contains(nf));
            assert(blocks_facts(bs, n, 0).contains(nf));
            assert(stated_facts(input).contains(nf));
        }
        lemma_effect_held(f, t, e, point);
    }
    assert forall|b: int, i: int, k: int|
        0 <= b < bs.len() && 0 <= i < bs[b].statements.len() && 0 <= k < bs[b].statements[i].effects_start.len() implies effect_held(
        f,
        t,
        #[trigger] bs[b].statements[i].effects_start[k],
        start_point(bs[b].name, i),
    ) by {
        let e = bs[b].statements[i].effects_start[k];
        let point = start_point(bs[b].name, i);
        if let Some(nf) = effect_fact(e, point) {
            let es = bs[b].statements[i].effects_start;
            assert(effects_facts(es, es.len() as int, point).contains(nf));
            assert(statement_facts(bs[b], i).contains(nf));
            assert(blocks_facts(bs, n, 0).contains(nf));
            assert(stated_facts(input).contains(nf));
        }
        lemma_effect_held(f, t, e, point);
    }
    assert forall|b: int, i: int|
        #![trigger start_point(bs[b].name, i)]
        0 <= b < bs.len() && 0 <= i < bs[b].statements.len() implies {
        &&& edge_held(f, t, start_point(bs[b].name, i), mid_point(bs[b].name, i))
        &&& i > 0 ==> edge_held(f, t, mid_point(bs[b].name, i - 1), start_point(bs[b].name, i))
    } by {
        let e1 = NamedFact::CfgEdge(start_point(bs[b].name, i), mid_point(bs[b].name, i));
        assert(statement_edges(bs[b], i).contains(e1));
        assert(statement_facts(bs[b], i).contains(e1));
        assert(blocks_facts(bs, n, 0).contains(e1));
        assert(stated_facts(input).contains(e1));
        lemma_edge_held(f, t, start_point(bs[b].name, i), mid_point(bs[b].name, i));
        if i > 0 {
            let e2 = NamedFact::CfgEdge(mid_point(bs[b].name, i - 1), start_point(bs[b].name, i));
            assert(statement_edges(bs[b], i).contains(e2));
            assert(statement_facts(bs[b], i).contains(e2));
            assert(blocks_facts(bs, n, 0).contains(e2));
            assert(stated_facts(input).contains(e2));
            lemma_edge_held(f, t, mid_point(bs[b].name, i - 1), start_point(bs[b].name, i));
        }
    }
    assert forall|b: int, g: int|
        0 <= b < bs.len() && bs[b].statements.len() > 0 && 0 <= g < bs[b].goto.len() implies edge_held(
        f,
        t,
        mid_point(bs[b].name, bs[b].statements.len() - 1),
        start_point(#[trigger] bs[b].goto[g], 0),
    ) by {
        let last = bs[b].statements.len() - 1;
        let e3 = NamedFact::CfgEdge(mid_point(bs[b].name, last), start_point(bs[b].goto[g], 0));
        assert(statement_edges(bs[b], 0).contains(e3));
        assert(statement_facts(bs[b], 0).contains(e3));
        assert(blocks_facts(bs, n, 0).contains(e3));
        assert(stated_facts(input).contains(e3));
        lemma_edge_held(f, t, mid_point(bs[b].name, last), start_point(bs[b].goto[g], 0));
    }
}

} // verus!
