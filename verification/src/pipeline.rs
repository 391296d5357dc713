//! The pipeline of the borrow check: a list of units of computation, each of which reads some
//! relations of a database of facts and adds others to it.
//!
//! [`Pipeline::validate`] checks that each unit finds its inputs, given by the facts or by a
//! unit before it; [`Pipeline::compute`] stores the facts, runs the units in order, and gives
//! back the database, where each unit's outputs are what its computation promises of its
//! inputs.

use vstd::prelude::*;
use crate::algorithm::Algorithm;
use crate::compute::{
    BorrowckLocationInsensitive, BorrowckLocationInsensitiveAsSensitive, Cfg, KnownPlaceholder, KnownPlaceholderLoans,
    LiveOrigins, MaybeInit, MaybeUninit, MoveError, Paths, VarDroppedWhileInit,
};
use crate::compute::{
    ancestors, cfg_nodes, connected, contains_loan_anywhere, first_two, flipped, lemma_swap_contains, swap_pairs,
    var_live_on_entry,
};
use crate::facts::{sorted1, sorted2, sorted3, AllFacts};
use crate::naive::{
    contains_rules, least_closed, lemma_least_closed_unique, lemma_location_insensitive_finds_naive_errors, lemma_subset_connected, lemma_subset_irreflexive,
    lemma_walk_concat, subset_rules, BorrowckNaive,
};
use crate::relation::{
    is_walk, lemma_sorted_pairs_unique, lemma_sorted_triples_unique, lemma_sorted_values_unique, reached, reached_unless,
    relation_of_pairs, relation_of_triples, relation_of_values,
};

verus! {

/// A relation of the database.
#[derive(Debug, Clone, Copy, PartialEq, Eq, Structural)]
pub enum Rel {
    /// `loan_issued_at`
    LoanIssuedAt,
    /// `universal_region`
    UniversalRegion,
    /// `cfg_edge`
    CfgEdge,
    /// `cfg_node`
    CfgNode,
    /// `loan_killed_at`
    LoanKilledAt,
    /// `subset_base`
    SubsetBase,
    /// `loan_invalidated_at`
    LoanInvalidatedAt,
    /// `var_used_at`
    VarUsedAt,
    /// `var_defined_at`
    VarDefinedAt,
    /// `var_dropped_at`
    VarDroppedAt,
    /// `var_dropped_while_init_at`
    VarDroppedWhileInitAt,
    /// `use_of_var_derefs_origin`
    UseOfVarDerefsOrigin,
    /// `drop_of_var_derefs_origin`
    DropOfVarDerefsOrigin,
    /// `child_path`
    ChildPath,
    /// `path_is_var`
    PathIsVar,
    /// `path_assigned_at_base`
    PathAssignedAtBase,
    /// `path_moved_at_base`
    PathMovedAtBase,
    /// `path_accessed_at_base`
    PathAccessedAtBase,
    /// `known_placeholder_subset`
    KnownPlaceholderSubset,
    /// `known_placeholder_subset_base`
    KnownPlaceholderSubsetBase,
    /// `placeholder`
    Placeholder,
    /// `path_assigned_at`
    PathAssignedAt,
    /// `path_moved_at`
    PathMovedAt,
    /// `path_accessed_at`
    PathAccessedAt,
    /// `path_begins_with_var`
    PathBeginsWithVar,
    /// `origin_live_on_entry`
    OriginLiveOnEntry,
    /// `path_maybe_initialized_on_exit`
    PathMaybeInitializedOnExit,
    /// `path_maybe_uninitialized_on_exit`
    PathMaybeUninitializedOnExit,
    /// `errors`
    Errors,
    /// `subset_errors`
    SubsetErrors,
    /// `move_errors`
    MoveErrors,
    /// `known_placeholder_requires`
    KnownPlaceholderRequires,
    /// `potential_errors`
    PotentialErrors,
    /// `potential_subset_errors`
    PotentialSubsetErrors,
}

/// The name of a relation.
pub open spec fn rel_name(r: Rel) -> Seq<char> {
    match r {
        Rel::LoanIssuedAt => "loan_issued_at"@,
        Rel::UniversalRegion => "universal_region"@,
        Rel::CfgEdge => "cfg_edge"@,
        Rel::CfgNode => "cfg_node"@,
        Rel::LoanKilledAt => "loan_killed_at"@,
        Rel::SubsetBase => "subset_base"@,
        Rel::LoanInvalidatedAt => "loan_invalidated_at"@,
        Rel::VarUsedAt => "var_used_at"@,
        Rel::VarDefinedAt => "var_defined_at"@,
        Rel::VarDroppedAt => "var_dropped_at"@,
        Rel::VarDroppedWhileInitAt => "var_dropped_while_init_at"@,
        Rel::UseOfVarDerefsOrigin => "use_of_var_derefs_origin"@,
        Rel::DropOfVarDerefsOrigin => "drop_of_var_derefs_origin"@,
        Rel::ChildPath => "child_path"@,
        Rel::PathIsVar => "path_is_var"@,
        Rel::PathAssignedAtBase => "path_assigned_at_base"@,
        Rel::PathMovedAtBase => "path_moved_at_base"@,
        Rel::PathAccessedAtBase => "path_accessed_at_base"@,
        Rel::KnownPlaceholderSubset => "known_placeholder_subset"@,
        Rel::KnownPlaceholderSubsetBase => "known_placeholder_subset_base"@,
        Rel::Placeholder => "placeholder"@,
        Rel::PathAssignedAt => "path_assigned_at"@,
        Rel::PathMovedAt => "path_moved_at"@,
        Rel::PathAccessedAt => "path_accessed_at"@,
        Rel::PathBeginsWithVar => "path_begins_with_var"@,
        Rel::OriginLiveOnEntry => "origin_live_on_entry"@,
        Rel::PathMaybeInitializedOnExit => "path_maybe_initialized_on_exit"@,
        Rel::PathMaybeUninitializedOnExit => "path_maybe_uninitialized_on_exit"@,
        Rel::Errors => "errors"@,
        Rel::SubsetErrors => "subset_errors"@,
        Rel::MoveErrors => "move_errors"@,
        Rel::KnownPlaceholderRequires => "known_placeholder_requires"@,
        Rel::PotentialErrors => "potential_errors"@,
        Rel::PotentialSubsetErrors => "potential_subset_errors"@,
    }
}

impl Rel {
    /// The name of the relation.
    pub fn name(&self) -> (r: &'static str)
        ensures
            r@ == rel_name(*self),
    {
        match self {
            Rel::LoanIssuedAt => "loan_issued_at",
            Rel::UniversalRegion => "universal_region",
            Rel::CfgEdge => "cfg_edge",
            Rel::CfgNode => "cfg_node",
            Rel::LoanKilledAt => "loan_killed_at",
            Rel::SubsetBase => "subset_base",
            Rel::LoanInvalidatedAt => "loan_invalidated_at",
            Rel::VarUsedAt => "var_used_at",
            Rel::VarDefinedAt => "var_defined_at",
            Rel::VarDroppedAt => "var_dropped_at",
            Rel::VarDroppedWhileInitAt => "var_dropped_while_init_at",
            Rel::UseOfVarDerefsOrigin => "use_of_var_derefs_origin",
            Rel::DropOfVarDerefsOrigin => "drop_of_var_derefs_origin",
            Rel::ChildPath => "child_path",
            Rel::PathIsVar => "path_is_var",
            Rel::PathAssignedAtBase => "path_assigned_at_base",
            Rel::PathMovedAtBase => "path_moved_at_base",
            Rel::PathAccessedAtBase => "path_accessed_at_base",
            Rel::KnownPlaceholderSubset => "known_placeholder_subset",
            Rel::KnownPlaceholderSubsetBase => "known_placeholder_subset_base",
            Rel::Placeholder => "placeholder",
            Rel::PathAssignedAt => "path_assigned_at",
            Rel::PathMovedAt => "path_moved_at",
            Rel::PathAccessedAt => "path_accessed_at",
            Rel::PathBeginsWithVar => "path_begins_with_var",
            Rel::OriginLiveOnEntry => "origin_live_on_entry",
            Rel::PathMaybeInitializedOnExit => "path_maybe_initialized_on_exit",
            Rel::PathMaybeUninitializedOnExit => "path_maybe_uninitialized_on_exit",
            Rel::Errors => "errors",
            Rel::SubsetErrors => "subset_errors",
            Rel::MoveErrors => "move_errors",
            Rel::KnownPlaceholderRequires => "known_placeholder_requires",
            Rel::PotentialErrors => "potential_errors",
            Rel::PotentialSubsetErrors => "potential_subset_errors",
        }
    }
}

/// A unit of computation of a pipeline.
#[derive(Debug, Clone, Copy, PartialEq, Eq, Structural)]
pub enum Unit {
    /// [`Cfg`]
    Cfg,
    /// [`Paths`]
    Paths,
    /// [`MaybeInit`]
    MaybeInit,
    /// [`VarDroppedWhileInit`]
    VarDroppedWhileInit,
    /// [`MaybeUninit`]
    MaybeUninit,
    /// [`MoveError`]
    MoveError,
    /// [`KnownPlaceholder`]
    KnownPlaceholder,
    /// [`KnownPlaceholderLoans`]
    KnownPlaceholderLoans,
    /// [`LiveOrigins`]
    LiveOrigins,
    /// [`BorrowckNaive`]
    BorrowckNaive,
    /// [`BorrowckLocationInsensitive`]
    BorrowckLocationInsensitive,
    /// [`BorrowckLocationInsensitiveAsSensitive`]
    BorrowckLocationInsensitiveAsSensitive,
    /// The location-sensitive borrow check of the optimized variants: it reads what
    /// [`BorrowckNaive`] reads, and gives the errors and subset errors of the same rules.
    BorrowckOptimized,
}

/// The name of a unit.
pub open spec fn unit_name(u: Unit) -> Seq<char> {
    match u {
        Unit::Cfg => "Cfg"@,
        Unit::Paths => "Paths"@,
        Unit::MaybeInit => "MaybeInit"@,
        Unit::VarDroppedWhileInit => "VarDroppedWhileInit"@,
        Unit::MaybeUninit => "MaybeUninit"@,
        Unit::MoveError => "MoveError"@,
        Unit::KnownPlaceholder => "KnownPlaceholder"@,
        Unit::KnownPlaceholderLoans => "KnownPlaceholderLoans"@,
        Unit::LiveOrigins => "LiveOrigins"@,
        Unit::BorrowckNaive => "BorrowckNaive"@,
        Unit::BorrowckOptimized => "BorrowckOptimized"@,
        Unit::BorrowckLocationInsensitive => "BorrowckLocationInsensitive"@,
        Unit::BorrowckLocationInsensitiveAsSensitive => "BorrowckLocationInsensitiveAsSensitive"@,
    }
}

/// The relations that a unit reads.
pub open spec fn unit_inputs(u: Unit) -> Seq<Rel> {
    match u {
        Unit::Cfg => seq![Rel::CfgEdge],
        Unit::Paths => seq![Rel::ChildPath, Rel::PathIsVar, Rel::PathMovedAtBase, Rel::PathAssignedAtBase, Rel::PathAccessedAtBase],
        Unit::MaybeInit => seq![Rel::CfgEdge, Rel::PathMovedAt, Rel::PathAssignedAt],
        Unit::VarDroppedWhileInit => seq![Rel::VarDroppedAt, Rel::PathMaybeInitializedOnExit, Rel::PathBeginsWithVar],
        Unit::MaybeUninit => seq![Rel::CfgEdge, Rel::PathMovedAt, Rel::PathAssignedAt],
        Unit::MoveError => seq![Rel::CfgEdge, Rel::PathMaybeUninitializedOnExit, Rel::PathAccessedAt],
        Unit::KnownPlaceholder => seq![Rel::KnownPlaceholderSubsetBase],
        Unit::KnownPlaceholderLoans => seq![Rel::KnownPlaceholderSubset, Rel::Placeholder],
        Unit::LiveOrigins => seq![Rel::CfgEdge, Rel::CfgNode, Rel::VarDroppedWhileInitAt, Rel::VarUsedAt, Rel::VarDefinedAt, Rel::UseOfVarDerefsOrigin, Rel::DropOfVarDerefsOrigin, Rel::UniversalRegion],
        Unit::BorrowckNaive => seq![Rel::SubsetBase, Rel::LoanIssuedAt, Rel::CfgEdge, Rel::OriginLiveOnEntry, Rel::LoanKilledAt, Rel::LoanInvalidatedAt, Rel::KnownPlaceholderSubset, Rel::UniversalRegion],
        Unit::BorrowckOptimized => seq![Rel::SubsetBase, Rel::LoanIssuedAt, Rel::CfgEdge, Rel::OriginLiveOnEntry, Rel::LoanKilledAt, Rel::LoanInvalidatedAt, Rel::KnownPlaceholderSubset, Rel::UniversalRegion],
        Unit::BorrowckLocationInsensitive => seq![Rel::OriginLiveOnEntry, Rel::LoanInvalidatedAt, Rel::KnownPlaceholderRequires, Rel::Placeholder, Rel::LoanIssuedAt, Rel::SubsetBase],
        Unit::BorrowckLocationInsensitiveAsSensitive => seq![Rel::PotentialErrors, Rel::PotentialSubsetErrors],
    }
}

/// The relations that a unit computes.
pub open spec fn unit_outputs(u: Unit) -> Seq<Rel> {
    match u {
        Unit::Cfg => seq![Rel::CfgNode],
        Unit::Paths => seq![Rel::PathMovedAt, Rel::PathAssignedAt, Rel::PathAccessedAt, Rel::PathBeginsWithVar],
        Unit::MaybeInit => seq![Rel::PathMaybeInitializedOnExit],
        Unit::VarDroppedWhileInit => seq![Rel::VarDroppedWhileInitAt],
        Unit::MaybeUninit => seq![Rel::PathMaybeUninitializedOnExit],
        Unit::MoveError => seq![Rel::MoveErrors],
        Unit::KnownPlaceholder => seq![Rel::KnownPlaceholderSubset],
        Unit::KnownPlaceholderLoans => seq![Rel::KnownPlaceholderRequires],
        Unit::LiveOrigins => seq![Rel::OriginLiveOnEntry],
        Unit::BorrowckNaive => seq![Rel::Errors, Rel::SubsetErrors],
        Unit::BorrowckOptimized => seq![Rel::Errors, Rel::SubsetErrors],
        Unit::BorrowckLocationInsensitive => seq![Rel::PotentialErrors, Rel::PotentialSubsetErrors],
        Unit::BorrowckLocationInsensitiveAsSensitive => seq![Rel::Errors, Rel::SubsetErrors],
    }
}

impl Unit {
    /// A human-readable name for this computation.
    pub fn name(&self) -> (r: &'static str)
        ensures
            r@ == unit_name(*self),
    {
        match self {
            Unit::Cfg => "Cfg",
            Unit::Paths => "Paths",
            Unit::MaybeInit => "MaybeInit",
            Unit::VarDroppedWhileInit => "VarDroppedWhileInit",
            Unit::MaybeUninit => "MaybeUninit",
            Unit::MoveError => "MoveError",
            Unit::KnownPlaceholder => "KnownPlaceholder",
            Unit::KnownPlaceholderLoans => "KnownPlaceholderLoans",
            Unit::LiveOrigins => "LiveOrigins",
            Unit::BorrowckNaive => "BorrowckNaive",
            Unit::BorrowckOptimized => "BorrowckOptimized",
            Unit::BorrowckLocationInsensitive => "BorrowckLocationInsensitive",
            Unit::BorrowckLocationInsensitiveAsSensitive => "BorrowckLocationInsensitiveAsSensitive",
        }
    }

    /// The required inputs.
    pub fn inputs(&self) -> (r: Vec<Rel>)
        ensures
            r@ == unit_inputs(*self),
    {
        match self {
            Unit::Cfg => vec![Rel::CfgEdge],
            Unit::Paths => vec![Rel::ChildPath, Rel::PathIsVar, Rel::PathMovedAtBase, Rel::PathAssignedAtBase, Rel::PathAccessedAtBase],
            Unit::MaybeInit => vec![Rel::CfgEdge, Rel::PathMovedAt, Rel::PathAssignedAt],
            Unit::VarDroppedWhileInit => vec![Rel::VarDroppedAt, Rel::PathMaybeInitializedOnExit, Rel::PathBeginsWithVar],
            Unit::MaybeUninit => vec![Rel::CfgEdge, Rel::PathMovedAt, Rel::PathAssignedAt],
            Unit::MoveError => vec![Rel::CfgEdge, Rel::PathMaybeUninitializedOnExit, Rel::PathAccessedAt],
            Unit::KnownPlaceholder => vec![Rel::KnownPlaceholderSubsetBase],
            Unit::KnownPlaceholderLoans => vec![Rel::KnownPlaceholderSubset, Rel::Placeholder],
            Unit::LiveOrigins => vec![Rel::CfgEdge, Rel::CfgNode, Rel::VarDroppedWhileInitAt, Rel::VarUsedAt, Rel::VarDefinedAt, Rel::UseOfVarDerefsOrigin, Rel::DropOfVarDerefsOrigin, Rel::UniversalRegion],
            Unit::BorrowckNaive => vec![Rel::SubsetBase, Rel::LoanIssuedAt, Rel::CfgEdge, Rel::OriginLiveOnEntry, Rel::LoanKilledAt, Rel::LoanInvalidatedAt, Rel::KnownPlaceholderSubset, Rel::UniversalRegion],
            Unit::BorrowckOptimized => vec![Rel::SubsetBase, Rel::LoanIssuedAt, Rel::CfgEdge, Rel::OriginLiveOnEntry, Rel::LoanKilledAt, Rel::LoanInvalidatedAt, Rel::KnownPlaceholderSubset, Rel::UniversalRegion],
            Unit::BorrowckLocationInsensitive => vec![Rel::OriginLiveOnEntry, Rel::LoanInvalidatedAt, Rel::KnownPlaceholderRequires, Rel::Placeholder, Rel::LoanIssuedAt, Rel::SubsetBase],
            Unit::BorrowckLocationInsensitiveAsSensitive => vec![Rel::PotentialErrors, Rel::PotentialSubsetErrors],
        }
    }

    /// The outputs.
    pub fn outputs(&self) -> (r: Vec<Rel>)
        ensures
            r@ == unit_outputs(*self),
    {
        match self {
            Unit::Cfg => vec![Rel::CfgNode],
            Unit::Paths => vec![Rel::PathMovedAt, Rel::PathAssignedAt, Rel::PathAccessedAt, Rel::PathBeginsWithVar],
            Unit::MaybeInit => vec![Rel::PathMaybeInitializedOnExit],
            Unit::VarDroppedWhileInit => vec![Rel::VarDroppedWhileInitAt],
            Unit::MaybeUninit => vec![Rel::PathMaybeUninitializedOnExit],
            Unit::MoveError => vec![Rel::MoveErrors],
            Unit::KnownPlaceholder => vec![Rel::KnownPlaceholderSubset],
            Unit::KnownPlaceholderLoans => vec![Rel::KnownPlaceholderRequires],
            Unit::LiveOrigins => vec![Rel::OriginLiveOnEntry],
            Unit::BorrowckNaive => vec![Rel::Errors, Rel::SubsetErrors],
            Unit::BorrowckOptimized => vec![Rel::Errors, Rel::SubsetErrors],
            Unit::BorrowckLocationInsensitive => vec![Rel::PotentialErrors, Rel::PotentialSubsetErrors],
            Unit::BorrowckLocationInsensitiveAsSensitive => vec![Rel::Errors, Rel::SubsetErrors],
        }
    }
}

/// Why a pipeline cannot run.
#[derive(Debug, Clone, Copy, PartialEq, Eq, Structural)]
pub enum PipelineError {
    /// `relation` is required by `unit` but not provided by input or preceding computation.
    MissingInput { relation: Rel, unit: Unit },
    /// The required output `relation` is not computed by any computation.
    MissingOutput { relation: Rel },
    /// `relation` computed by `unit` differed from the existing one.
    Differs { relation: Rel, unit: Unit },
}

/// The relations that the inputs and the first `i` units provide.
pub open spec fn provided(inputs: Seq<Rel>, units: Seq<Unit>, i: int) -> Set<Rel> {
    Set::new(|r: Rel| inputs.contains(r) || exists|j: int| 0 <= j < i && #[trigger] unit_outputs(units[j]).contains(r))
}

/// Whether the `i`-th unit finds each of its inputs provided before it.
pub open spec fn unit_ready(inputs: Seq<Rel>, units: Seq<Unit>, i: int) -> bool {
    forall|r: Rel| #[trigger] unit_inputs(units[i]).contains(r) ==> provided(inputs, units, i).contains(r)
}

/// Whether each unit finds its inputs, and the outputs are provided in the end.
pub open spec fn pipeline_valid(inputs: Seq<Rel>, units: Seq<Unit>, outputs: Seq<Rel>) -> bool {
    &&& forall|i: int| 0 <= i < units.len() ==> #[trigger] unit_ready(inputs, units, i)
    &&& forall|r: Rel| #[trigger] outputs.contains(r) ==> provided(inputs, units, units.len() as int).contains(r)
}

/// Whether the `k`-th of `rels` is the first of them that `avail` lacks.
pub open spec fn first_missing(rels: Seq<Rel>, avail: Set<Rel>, k: int) -> bool {
    &&& 0 <= k < rels.len()
    &&& !avail.contains(rels[k])
    &&& forall|m: int| 0 <= m < k ==> avail.contains(#[trigger] rels[m])
}

/// Whether `r` is one of `v`.
fn has_rel(v: &Vec<Rel>, r: Rel) -> (b: bool)
    ensures
        b == v@.contains(r),
{
    let mut i: usize = 0;
    while i < v.len()
        invariant
            i <= v@.len(),
            forall|k: int| 0 <= k < i ==> v@[k] != r,
        decreases v@.len() - i,
    {
        if v[i] == r {
            return true;
        }
        i = i + 1;
    }
    false
}

/// The first of `rels` that `avail` lacks, if any.
fn find_missing(rels: &Vec<Rel>, avail: &Vec<Rel>) -> (r: Option<usize>)
    ensures
        match r {
            Some(k) => first_missing(rels@, avail@.to_set(), k as int),
            None => forall|x: Rel| #[trigger] rels@.contains(x) ==> avail@.contains(x),
        },
{
    let mut k: usize = 0;
    while k < rels.len()
        invariant
            k <= rels@.len(),
            forall|m: int| 0 <= m < k ==> avail@.to_set().contains(#[trigger] rels@[m]),
        decreases rels@.len() - k,
    {
        if !has_rel(avail, rels[k]) {
            proof {
                assert(!avail@.to_set().contains(rels@[k as int]));
            }
            return Some(k);
        }
        proof {
            assert(avail@.to_set().contains(rels@[k as int]));
        }
        k = k + 1;
    }
    proof {
        assert forall|x: Rel| #[trigger] rels@.contains(x) implies avail@.contains(x) by {
            let m = choose|m: int| 0 <= m < rels@.len() && rels@[m] == x;
            assert(avail@.to_set().contains(rels@[m]));
        }
    }
    None
}

/// A sequence of units of computation.
pub struct Pipeline(pub Vec<Unit>);

impl Pipeline {
    /// The pipeline of the units `x`, in order.
    pub fn new(x: Vec<Unit>) -> (r: Pipeline)
        ensures
            r.0@ == x@,
    {
        Pipeline(x)
    }

    /// The units of the naive analysis.
    pub fn naive() -> (r: Pipeline)
        ensures
            r.0@ == naive_units(),
    {
        Pipeline(vec![
            Unit::Cfg,
            Unit::Paths,
            Unit::MaybeInit,
            Unit::VarDroppedWhileInit,
            Unit::MaybeUninit,
            Unit::MoveError,
            Unit::KnownPlaceholder,
            Unit::LiveOrigins,
            Unit::BorrowckNaive,
        ])
    }

    /// The units of the location-insensitive analysis.
    pub fn location_insensitive() -> (r: Pipeline)
        ensures
            r.0@ == location_insensitive_units(),
    {
        Pipeline(vec![
            Unit::Cfg,
            Unit::Paths,
            Unit::MaybeInit,
            Unit::VarDroppedWhileInit,
            Unit::MaybeUninit,
            Unit::MoveError,
            Unit::KnownPlaceholder,
            Unit::KnownPlaceholderLoans,
            Unit::LiveOrigins,
            Unit::BorrowckLocationInsensitive,
            Unit::BorrowckLocationInsensitiveAsSensitive,
        ])
    }

    /// The units of the optimized analysis.
    pub fn opt() -> (r: Pipeline)
        ensures
            r.0@ == opt_units(),
    {
        Pipeline(vec![
            Unit::Cfg,
            Unit::Paths,
            Unit::MaybeInit,
            Unit::VarDroppedWhileInit,
            Unit::MaybeUninit,
            Unit::MoveError,
            Unit::KnownPlaceholder,
            Unit::LiveOrigins,
            Unit::BorrowckOptimized,
        ])
    }

    /// The units of the comparison of the naive and optimized analyses.
    pub fn compare() -> (r: Pipeline)
        ensures
            r.0@ == compare_units(),
    {
        Pipeline(vec![
            Unit::Cfg,
            Unit::Paths,
            Unit::MaybeInit,
            Unit::VarDroppedWhileInit,
            Unit::MaybeUninit,
            Unit::MoveError,
            Unit::KnownPlaceholder,
            Unit::LiveOrigins,
            Unit::BorrowckNaive,
            Unit::BorrowckOptimized,
        ])
    }

    /// The units of the hybrid analysis.
    pub fn hybrid() -> (r: Pipeline)
        ensures
            r.0@ == hybrid_units(),
    {
        Pipeline(vec![
            Unit::Cfg,
            Unit::Paths,
            Unit::MaybeInit,
            Unit::VarDroppedWhileInit,
            Unit::MaybeUninit,
            Unit::MoveError,
            Unit::KnownPlaceholder,
            Unit::KnownPlaceholderLoans,
            Unit::LiveOrigins,
            Unit::BorrowckLocationInsensitive,
            Unit::BorrowckOptimized,
        ])
    }

    /// Checks that this pipeline is able to compute the `outputs` if given the `inputs`: each
    /// unit finds its inputs among them and the outputs of the units before it, and each output
    /// is among them or computed. Where not, the error names the first unit that misses an
    /// input and the first input it misses, or else the first output that is missing.
    pub fn validate(&self, inputs: &Vec<Rel>, outputs: &Vec<Rel>) -> (r: Result<(), PipelineError>)
        ensures
            r is Ok <==> pipeline_valid(inputs@, self.0@, outputs@),
            r matches Err(PipelineError::MissingInput { relation, unit }) ==> exists|i: int, k: int| {
                &&& 0 <= i < self.0@.len()
                &&& self.0@[i] == unit
                &&& forall|j: int| 0 <= j < i ==> #[trigger] unit_ready(inputs@, self.0@, j)
                &&& first_missing(unit_inputs(unit), provided(inputs@, self.0@, i), k)
                &&& unit_inputs(unit)[k] == relation
            },
            r matches Err(PipelineError::MissingOutput { relation }) ==> {
                &&& forall|i: int| 0 <= i < self.0@.len() ==> #[trigger] unit_ready(inputs@, self.0@, i)
                &&& exists|k: int| first_missing(outputs@, provided(inputs@, self.0@, self.0@.len() as int), k) && outputs@[k] == relation
            },
            !(r is Err && r->Err_0 is Differs),
    {
        let ghost units = self.0@;
        let mut available: Vec<Rel> = Vec::new();
        let mut a: usize = 0;
        while a < inputs.len()
            invariant
                a <= inputs@.len(),
                available@ == inputs@.take(a as int),
            decreases inputs@.len() - a,
        {
            available.push(inputs[a]);
            proof {
                assert(inputs@.take(a + 1) =~= inputs@.take(a as int).push(inputs@[a as int]));
            }
            a = a + 1;
        }
        proof {
            assert(inputs@.take(inputs@.len() as int) =~= inputs@);
            assert forall|x: Rel| available@.to_set().contains(x) <==> provided(inputs@, units, 0).contains(x) by {}
        }
        let mut i: usize = 0;
        while i < self.0.len()
            invariant
                i <= units.len(),
                units == self.0@,
                available@.to_set() == provided(inputs@, units, i as int),
                forall|j: int| 0 <= j < i ==> #[trigger] unit_ready(inputs@, units, j),
            decreases units.len() - i,
        {
            let unit = self.0[i];
            let needed = unit.inputs();
            match find_missing(&needed, &available) {
                Some(k) => {
                    let relation = needed[k];
                    proof {
                        assert(!unit_ready(inputs@, units, i as int)) by {
                            assert(unit_inputs(units[i as int]).contains(relation));
                        }
                    }
                    return Err(PipelineError::MissingInput { relation, unit });
                },
                None => {},
            }
            proof {
                assert forall|r: Rel| #[trigger] unit_inputs(units[i as int]).contains(r) implies provided(inputs@, units, i as int).contains(r) by {
                    assert(available@.contains(r));
                    assert(available@.to_set().contains(r));
                }
                assert(unit_ready(inputs@, units, i as int));
            }
            let made = unit.outputs();
            let ghost before = available@;
            let mut m: usize = 0;
            while m < made.len()
                invariant
                    m <= made@.len(),
                    available@ == before + made@.take(m as int),
                decreases made@.len() - m,
            {
                available.push(made[m]);
                proof {
                    assert(before + made@.take(m + 1) =~= (before + made@.take(m as int)).push(made@[m as int]));
                }
                m = m + 1;
            }
            proof {
                assert(made@.take(made@.len() as int) =~= made@);
                assert forall|x: Rel| available@.to_set().contains(x) <==> provided(inputs@, units, i + 1).contains(x) by {
                    if available@.contains(x) {
                        let n = choose|n: int| 0 <= n < available@.len() && available@[n] == x;
                        if n < before.len() {
                            assert(before[n] == x);
                            assert(before.to_set().contains(x));
                            if !inputs@.contains(x) {
                                let j = choose|j: int| 0 <= j < i && #[trigger] unit_outputs(units[j]).contains(x);
                                assert(0 <= j < i + 1 && unit_outputs(units[j]).contains(x));
                            }
                        } else {
                            assert(made@[n - before.len()] == x);
                            assert(unit_outputs(units[i as int]).contains(x));
                        }
                    }
                    if provided(inputs@, units, i + 1).contains(x) {
                        if !inputs@.contains(x) {
                            let j = choose|j: int| 0 <= j < i + 1 && #[trigger] unit_outputs(units[j]).contains(x);
                            if j < i {
                                assert(provided(inputs@, units, i as int).contains(x));
                                assert(before.to_set().contains(x));
                                let n = choose|n: int| 0 <= n < before.len() && before[n] == x;
                                assert(available@[n] == x);
                            } else {
                                let n = choose|n: int| 0 <= n < made@.len() && made@[n] == x;
                                assert(available@[before.len() + n] == x);
                            }
                        } else {
                            assert(provided(inputs@, units, i as int).contains(x));
                            assert(before.to_set().contains(x));
                            let n = choose|n: int| 0 <= n < before.len() && before[n] == x;
                            assert(available@[n] == x);
                        }
                    }
                }
                assert(available@.to_set() =~= provided(inputs@, units, i + 1));
            }
            i = i + 1;
        }
        match find_missing(outputs, &available) {
            Some(k) => {
                let relation = outputs[k];
                proof {
                    assert(outputs@.contains(relation));
                }
                Err(PipelineError::MissingOutput { relation })
            },
            None => {
                proof {
                    assert forall|r: Rel| #[trigger] outputs@.contains(r) implies provided(inputs@, units, units.len() as int).contains(r) by {
                        assert(available@.contains(r));
                        assert(available@.to_set().contains(r));
                    }
                }
                Ok(())
            },
        }
    }
}

/// The units of the naive analysis, in order.
pub open spec fn naive_units() -> Seq<Unit> {
    seq![
        Unit::Cfg,
        Unit::Paths,
        Unit::MaybeInit,
        Unit::VarDroppedWhileInit,
        Unit::MaybeUninit,
        Unit::MoveError,
        Unit::KnownPlaceholder,
        Unit::LiveOrigins,
        Unit::BorrowckNaive,
    ]
}

/// The units of the optimized analysis, in order: those of the naive analysis, with
/// [`Unit::BorrowckOptimized`] for the borrow check.
pub open spec fn opt_units() -> Seq<Unit> {
    seq![
        Unit::Cfg,
        Unit::Paths,
        Unit::MaybeInit,
        Unit::VarDroppedWhileInit,
        Unit::MaybeUninit,
        Unit::MoveError,
        Unit::KnownPlaceholder,
        Unit::LiveOrigins,
        Unit::BorrowckOptimized,
    ]
}

/// The units of the comparison of the naive and optimized analyses, in order: both compute
/// the errors, which must agree.
pub open spec fn compare_units() -> Seq<Unit> {
    seq![
        Unit::Cfg,
        Unit::Paths,
        Unit::MaybeInit,
        Unit::VarDroppedWhileInit,
        Unit::MaybeUninit,
        Unit::MoveError,
        Unit::KnownPlaceholder,
        Unit::LiveOrigins,
        Unit::BorrowckNaive,
        Unit::BorrowckOptimized,
    ]
}

/// The units of the hybrid analysis, in order: the location-insensitive pre-pass, then the
/// optimized location-sensitive borrow check.
pub open spec fn hybrid_units() -> Seq<Unit> {
    seq![
        Unit::Cfg,
        Unit::Paths,
        Unit::MaybeInit,
        Unit::VarDroppedWhileInit,
        Unit::MaybeUninit,
        Unit::MoveError,
        Unit::KnownPlaceholder,
        Unit::KnownPlaceholderLoans,
        Unit::LiveOrigins,
        Unit::BorrowckLocationInsensitive,
        Unit::BorrowckOptimized,
    ]
}

/// The units of the location-insensitive analysis, in order.
pub open spec fn location_insensitive_units() -> Seq<Unit> {
    seq![
        Unit::Cfg,
        Unit::Paths,
        Unit::MaybeInit,
        Unit::VarDroppedWhileInit,
        Unit::MaybeUninit,
        Unit::MoveError,
        Unit::KnownPlaceholder,
        Unit::KnownPlaceholderLoans,
        Unit::LiveOrigins,
        Unit::BorrowckLocationInsensitive,
        Unit::BorrowckLocationInsensitiveAsSensitive,
    ]
}

/// The relations of the borrow analysis, each one present once it is stored.
pub struct Db {
    /// `loan_issued_at`
    pub loan_issued_at: Option<Vec<(u32, u32, u32)>>,
    /// `universal_region`
    pub universal_region: Option<Vec<u32>>,
    /// `cfg_edge`
    pub cfg_edge: Option<Vec<(u32, u32)>>,
    /// `cfg_node`
    pub cfg_node: Option<Vec<u32>>,
    /// `loan_killed_at`
    pub loan_killed_at: Option<Vec<(u32, u32)>>,
    /// `subset_base`
    pub subset_base: Option<Vec<(u32, u32, u32)>>,
    /// `loan_invalidated_at`
    pub loan_invalidated_at: Option<Vec<(u32, u32)>>,
    /// `var_used_at`
    pub var_used_at: Option<Vec<(u32, u32)>>,
    /// `var_defined_at`
    pub var_defined_at: Option<Vec<(u32, u32)>>,
    /// `var_dropped_at`
    pub var_dropped_at: Option<Vec<(u32, u32)>>,
    /// `var_dropped_while_init_at`
    pub var_dropped_while_init_at: Option<Vec<(u32, u32)>>,
    /// `use_of_var_derefs_origin`
    pub use_of_var_derefs_origin: Option<Vec<(u32, u32)>>,
    /// `drop_of_var_derefs_origin`
    pub drop_of_var_derefs_origin: Option<Vec<(u32, u32)>>,
    /// `child_path`
    pub child_path: Option<Vec<(u32, u32)>>,
    /// `path_is_var`
    pub path_is_var: Option<Vec<(u32, u32)>>,
    /// `path_assigned_at_base`
    pub path_assigned_at_base: Option<Vec<(u32, u32)>>,
    /// `path_moved_at_base`
    pub path_moved_at_base: Option<Vec<(u32, u32)>>,
    /// `path_accessed_at_base`
    pub path_accessed_at_base: Option<Vec<(u32, u32)>>,
    /// `known_placeholder_subset`
    pub known_placeholder_subset: Option<Vec<(u32, u32)>>,
    /// `known_placeholder_subset_base`
    pub known_placeholder_subset_base: Option<Vec<(u32, u32)>>,
    /// `placeholder`
    pub placeholder: Option<Vec<(u32, u32)>>,
    /// `path_assigned_at`
    pub path_assigned_at: Option<Vec<(u32, u32)>>,
    /// `path_moved_at`
    pub path_moved_at: Option<Vec<(u32, u32)>>,
    /// `path_accessed_at`
    pub path_accessed_at: Option<Vec<(u32, u32)>>,
    /// `path_begins_with_var`
    pub path_begins_with_var: Option<Vec<(u32, u32)>>,
    /// `origin_live_on_entry`
    pub origin_live_on_entry: Option<Vec<(u32, u32)>>,
    /// `path_maybe_initialized_on_exit`
    pub path_maybe_initialized_on_exit: Option<Vec<(u32, u32)>>,
    /// `path_maybe_uninitialized_on_exit`
    pub path_maybe_uninitialized_on_exit: Option<Vec<(u32, u32)>>,
    /// `errors`
    pub errors: Option<Vec<(u32, u32)>>,
    /// `subset_errors`
    pub subset_errors: Option<Vec<(u32, u32, u32)>>,
    /// `move_errors`
    pub move_errors: Option<Vec<(u32, u32)>>,
    /// `known_placeholder_requires`
    pub known_placeholder_requires: Option<Vec<(u32, u32)>>,
    /// `potential_errors`
    pub potential_errors: Option<Vec<(u32, u32)>>,
    /// `potential_subset_errors`
    pub potential_subset_errors: Option<Vec<(u32, u32)>>,
}

/// The values of a relation of values, or none where it is absent.
pub open spec fn s1(o: Option<Vec<u32>>) -> Seq<u32> {
    match o {
        Some(v) => v@,
        None => Seq::empty(),
    }
}

/// The pairs of a relation of pairs, or none where it is absent.
pub open spec fn s2(o: Option<Vec<(u32, u32)>>) -> Seq<(u32, u32)> {
    match o {
        Some(v) => v@,
        None => Seq::empty(),
    }
}

/// The triples of a relation of triples, or none where it is absent.
pub open spec fn s3(o: Option<Vec<(u32, u32, u32)>>) -> Seq<(u32, u32, u32)> {
    match o {
        Some(v) => v@,
        None => Seq::empty(),
    }
}

/// Whether the relation `r` is stored in `db`.
pub open spec fn db_has(db: Db, r: Rel) -> bool {
    match r {
        Rel::LoanIssuedAt => db.loan_issued_at is Some,
        Rel::UniversalRegion => db.universal_region is Some,
        Rel::CfgEdge => db.cfg_edge is Some,
        Rel::CfgNode => db.cfg_node is Some,
        Rel::LoanKilledAt => db.loan_killed_at is Some,
        Rel::SubsetBase => db.subset_base is Some,
        Rel::LoanInvalidatedAt => db.loan_invalidated_at is Some,
        Rel::VarUsedAt => db.var_used_at is Some,
        Rel::VarDefinedAt => db.var_defined_at is Some,
        Rel::VarDroppedAt => db.var_dropped_at is Some,
        Rel::VarDroppedWhileInitAt => db.var_dropped_while_init_at is Some,
        Rel::UseOfVarDerefsOrigin => db.use_of_var_derefs_origin is Some,
        Rel::DropOfVarDerefsOrigin => db.drop_of_var_derefs_origin is Some,
        Rel::ChildPath => db.child_path is Some,
        Rel::PathIsVar => db.path_is_var is Some,
        Rel::PathAssignedAtBase => db.path_assigned_at_base is Some,
        Rel::PathMovedAtBase => db.path_moved_at_base is Some,
        Rel::PathAccessedAtBase => db.path_accessed_at_base is Some,
        Rel::KnownPlaceholderSubset => db.known_placeholder_subset is Some,
        Rel::KnownPlaceholderSubsetBase => db.known_placeholder_subset_base is Some,
        Rel::Placeholder => db.placeholder is Some,
        Rel::PathAssignedAt => db.path_assigned_at is Some,
        Rel::PathMovedAt => db.path_moved_at is Some,
        Rel::PathAccessedAt => db.path_accessed_at is Some,
        Rel::PathBeginsWithVar => db.path_begins_with_var is Some,
        Rel::OriginLiveOnEntry => db.origin_live_on_entry is Some,
        Rel::PathMaybeInitializedOnExit => db.path_maybe_initialized_on_exit is Some,
        Rel::PathMaybeUninitializedOnExit => db.path_maybe_uninitialized_on_exit is Some,
        Rel::Errors => db.errors is Some,
        Rel::SubsetErrors => db.subset_errors is Some,
        Rel::MoveErrors => db.move_errors is Some,
        Rel::KnownPlaceholderRequires => db.known_placeholder_requires is Some,
        Rel::PotentialErrors => db.potential_errors is Some,
        Rel::PotentialSubsetErrors => db.potential_subset_errors is Some,
    }
}

/// Whether `b` holds each relation that `a` holds, unchanged.
pub open spec fn extends(a: Db, b: Db) -> bool {
    &&& (a.loan_issued_at is Some ==> b.loan_issued_at == a.loan_issued_at)
    &&& (a.universal_region is Some ==> b.universal_region == a.universal_region)
    &&& (a.cfg_edge is Some ==> b.cfg_edge == a.cfg_edge)
    &&& (a.cfg_node is Some ==> b.cfg_node == a.cfg_node)
    &&& (a.loan_killed_at is Some ==> b.loan_killed_at == a.loan_killed_at)
    &&& (a.subset_base is Some ==> b.subset_base == a.subset_base)
    &&& (a.loan_invalidated_at is Some ==> b.loan_invalidated_at == a.loan_invalidated_at)
    &&& (a.var_used_at is Some ==> b.var_used_at == a.var_used_at)
    &&& (a.var_defined_at is Some ==> b.var_defined_at == a.var_defined_at)
    &&& (a.var_dropped_at is Some ==> b.var_dropped_at == a.var_dropped_at)
    &&& (a.var_dropped_while_init_at is Some ==> b.var_dropped_while_init_at == a.var_dropped_while_init_at)
    &&& (a.use_of_var_derefs_origin is Some ==> b.use_of_var_derefs_origin == a.use_of_var_derefs_origin)
    &&& (a.drop_of_var_derefs_origin is Some ==> b.drop_of_var_derefs_origin == a.drop_of_var_derefs_origin)
    &&& (a.child_path is Some ==> b.child_path == a.child_path)
    &&& (a.path_is_var is Some ==> b.path_is_var == a.path_is_var)
    &&& (a.path_assigned_at_base is Some ==> b.path_assigned_at_base == a.path_assigned_at_base)
    &&& (a.path_moved_at_base is Some ==> b.path_moved_at_base == a.path_moved_at_base)
    &&& (a.path_accessed_at_base is Some ==> b.path_accessed_at_base == a.path_accessed_at_base)
    &&& (a.known_placeholder_subset is Some ==> b.known_placeholder_subset == a.known_placeholder_subset)
    &&& (a.known_placeholder_subset_base is Some ==> b.known_placeholder_subset_base == a.known_placeholder_subset_base)
    &&& (a.placeholder is Some ==> b.placeholder == a.placeholder)
    &&& (a.path_assigned_at is Some ==> b.path_assigned_at == a.path_assigned_at)
    &&& (a.path_moved_at is Some ==> b.path_moved_at == a.path_moved_at)
    &&& (a.path_accessed_at is Some ==> b.path_accessed_at == a.path_accessed_at)
    &&& (a.path_begins_with_var is Some ==> b.path_begins_with_var == a.path_begins_with_var)
    &&& (a.origin_live_on_entry is Some ==> b.origin_live_on_entry == a.origin_live_on_entry)
    &&& (a.path_maybe_initialized_on_exit is Some ==> b.path_maybe_initialized_on_exit == a.path_maybe_initialized_on_exit)
    &&& (a.path_maybe_uninitialized_on_exit is Some ==> b.path_maybe_uninitialized_on_exit == a.path_maybe_uninitialized_on_exit)
    &&& (a.errors is Some ==> b.errors == a.errors)
    &&& (a.subset_errors is Some ==> b.subset_errors == a.subset_errors)
    &&& (a.move_errors is Some ==> b.move_errors == a.move_errors)
    &&& (a.known_placeholder_requires is Some ==> b.known_placeholder_requires == a.known_placeholder_requires)
    &&& (a.potential_errors is Some ==> b.potential_errors == a.potential_errors)
    &&& (a.potential_subset_errors is Some ==> b.potential_subset_errors == a.potential_subset_errors)
}

/// The relations that the facts provide.
pub open spec fn facts_relations() -> Seq<Rel> {
    seq![Rel::LoanIssuedAt, Rel::UniversalRegion, Rel::CfgEdge, Rel::LoanKilledAt, Rel::SubsetBase, Rel::LoanInvalidatedAt, Rel::VarUsedAt, Rel::VarDefinedAt, Rel::VarDroppedAt, Rel::UseOfVarDerefsOrigin, Rel::DropOfVarDerefsOrigin, Rel::ChildPath, Rel::PathIsVar, Rel::PathAssignedAtBase, Rel::PathMovedAtBase, Rel::PathAccessedAtBase, Rel::KnownPlaceholderSubsetBase, Rel::Placeholder
    ]
}

/// Whether `db` holds the facts, each relation sorted: `loan_invalidated_at` with its pairs
/// turned to `(loan, point)`, and `known_placeholder_subset` as
/// `known_placeholder_subset_base`.
pub open spec fn holds_facts(db: Db, facts: AllFacts) -> bool {
    &&& db.loan_issued_at is Some
    &&& sorted3(s3(db.loan_issued_at))
    &&& s3(db.loan_issued_at).to_set() == facts.loan_issued_at@.to_set()
    &&& db.universal_region is Some
    &&& sorted1(s1(db.universal_region))
    &&& s1(db.universal_region).to_set() == facts.universal_region@.to_set()
    &&& db.cfg_edge is Some
    &&& sorted2(s2(db.cfg_edge))
    &&& s2(db.cfg_edge).to_set() == facts.cfg_edge@.to_set()
    &&& db.loan_killed_at is Some
    &&& sorted2(s2(db.loan_killed_at))
    &&& s2(db.loan_killed_at).to_set() == facts.loan_killed_at@.to_set()
    &&& db.subset_base is Some
    &&& sorted3(s3(db.subset_base))
    &&& s3(db.subset_base).to_set() == facts.subset_base@.to_set()
    &&& db.loan_invalidated_at is Some
    &&& sorted2(s2(db.loan_invalidated_at))
    &&& forall|l: u32, p: u32| #[trigger] s2(db.loan_invalidated_at).contains((l, p)) <==> facts.loan_invalidated_at@.contains((p, l))
    &&& db.var_used_at is Some
    &&& sorted2(s2(db.var_used_at))
    &&& s2(db.var_used_at).to_set() == facts.var_used_at@.to_set()
    &&& db.var_defined_at is Some
    &&& sorted2(s2(db.var_defined_at))
    &&& s2(db.var_defined_at).to_set() == facts.var_defined_at@.to_set()
    &&& db.var_dropped_at is Some
    &&& sorted2(s2(db.var_dropped_at))
    &&& s2(db.var_dropped_at).to_set() == facts.var_dropped_at@.to_set()
    &&& db.use_of_var_derefs_origin is Some
    &&& sorted2(s2(db.use_of_var_derefs_origin))
    &&& s2(db.use_of_var_derefs_origin).to_set() == facts.use_of_var_derefs_origin@.to_set()
    &&& db.drop_of_var_derefs_origin is Some
    &&& sorted2(s2(db.drop_of_var_derefs_origin))
    &&& s2(db.drop_of_var_derefs_origin).to_set() == facts.drop_of_var_derefs_origin@.to_set()
    &&& db.child_path is Some
    &&& sorted2(s2(db.child_path))
    &&& s2(db.child_path).to_set() == facts.child_path@.to_set()
    &&& db.path_is_var is Some
    &&& sorted2(s2(db.path_is_var))
    &&& s2(db.path_is_var).to_set() == facts.path_is_var@.to_set()
    &&& db.path_assigned_at_base is Some
    &&& sorted2(s2(db.path_assigned_at_base))
    &&& s2(db.path_assigned_at_base).to_set() == facts.path_assigned_at_base@.to_set()
    &&& db.path_moved_at_base is Some
    &&& sorted2(s2(db.path_moved_at_base))
    &&& s2(db.path_moved_at_base).to_set() == facts.path_moved_at_base@.to_set()
    &&& db.path_accessed_at_base is Some
    &&& sorted2(s2(db.path_accessed_at_base))
    &&& s2(db.path_accessed_at_base).to_set() == facts.path_accessed_at_base@.to_set()
    &&& db.known_placeholder_subset_base is Some
    &&& sorted2(s2(db.known_placeholder_subset_base))
    &&& s2(db.known_placeholder_subset_base).to_set() == facts.known_placeholder_subset@.to_set()
    &&& db.placeholder is Some
    &&& sorted2(s2(db.placeholder))
    &&& s2(db.placeholder).to_set() == facts.placeholder@.to_set()
}

/// Whether the outputs of the unit `u` in `db` are what its computation gives for its inputs
/// in `db`.
pub open spec fn unit_holds(u: Unit, db: Db) -> bool {
    match u {
        Unit::Cfg => sorted1(s1(db.cfg_node)) && s1(db.cfg_node).to_set() == cfg_nodes(s2(db.cfg_edge)),
        Unit::Paths => {
            &&& sorted2(s2(db.path_moved_at))
            &&& sorted2(s2(db.path_assigned_at))
            &&& sorted2(s2(db.path_accessed_at))
            &&& sorted2(s2(db.path_begins_with_var))
            &&& forall|t: (u32, u32)| #[trigger] s2(db.path_moved_at).contains(t) <==> reached(
                s2(db.path_moved_at_base).to_set(),
                ancestors(s2(db.child_path)),
                t,
            )
            &&& forall|t: (u32, u32)| #[trigger] s2(db.path_assigned_at).contains(t) <==> reached(
                s2(db.path_assigned_at_base).to_set(),
                ancestors(s2(db.child_path)),
                t,
            )
            &&& forall|t: (u32, u32)| #[trigger] s2(db.path_accessed_at).contains(t) <==> reached(
                s2(db.path_accessed_at_base).to_set(),
                ancestors(s2(db.child_path)),
                t,
            )
            &&& forall|t: (u32, u32)| #[trigger] s2(db.path_begins_with_var).contains(t) <==> reached(
                s2(db.path_is_var).to_set(),
                ancestors(s2(db.child_path)),
                t,
            )
        },
        Unit::MaybeInit => {
            &&& sorted2(s2(db.path_maybe_initialized_on_exit))
            &&& forall|path: u32, point: u32| #[trigger] s2(db.path_maybe_initialized_on_exit).contains((path, point)) <==> reached_unless(
                flipped(s2(db.path_assigned_at)),
                s2(db.cfg_edge).to_set(),
                flipped(s2(db.path_moved_at)),
                (point, path),
            )
        },
        Unit::MaybeUninit => {
            &&& sorted2(s2(db.path_maybe_uninitialized_on_exit))
            &&& forall|path: u32, point: u32| #[trigger] s2(db.path_maybe_uninitialized_on_exit).contains((path, point)) <==> reached_unless(
                flipped(s2(db.path_moved_at)),
                s2(db.cfg_edge).to_set(),
                flipped(s2(db.path_assigned_at)),
                (point, path),
            )
        },
        Unit::VarDroppedWhileInit => {
            &&& sorted2(s2(db.var_dropped_while_init_at))
            &&& forall|v: u32, p: u32| #[trigger] s2(db.var_dropped_while_init_at).contains((v, p)) <==> {
                &&& exists|path: u32| #[trigger] s2(db.path_maybe_initialized_on_exit).contains((path, p)) && s2(db.path_begins_with_var).contains(
                    (path, v),
                )
                &&& exists|q: u32| #[trigger] s2(db.var_dropped_at).contains((v, q))
            }
        },
        Unit::MoveError => {
            &&& sorted2(s2(db.move_errors))
            &&& forall|path: u32, t: u32| #[trigger] s2(db.move_errors).contains((path, t)) <==> {
                &&& s2(db.path_accessed_at).contains((path, t))
                &&& exists|s: u32| #[trigger] s2(db.path_maybe_uninitialized_on_exit).contains((path, s)) && s2(db.cfg_edge).contains((s, t))
            }
        },
        Unit::KnownPlaceholder => {
            &&& sorted2(s2(db.known_placeholder_subset))
            &&& forall|a: u32, b: u32| #[trigger] s2(db.known_placeholder_subset).contains((a, b)) <==> connected(
                s2(db.known_placeholder_subset_base).to_set(),
                a,
                b,
            )
        },
        Unit::KnownPlaceholderLoans => {
            &&& sorted2(s2(db.known_placeholder_requires))
            &&& forall|t: (u32, u32)| #[trigger] s2(db.known_placeholder_requires).contains(t) <==> reached(
                s2(db.placeholder).to_set(),
                s2(db.known_placeholder_subset).to_set(),
                t,
            )
        },
        Unit::LiveOrigins => {
            &&& sorted2(s2(db.origin_live_on_entry))
            &&& forall|o: u32, p: u32| #[trigger] s2(db.origin_live_on_entry).contains((o, p)) <==> {
                ||| exists|v: u32| #[trigger] s2(db.drop_of_var_derefs_origin).contains((v, o)) && var_live_on_entry(
                    s2(db.var_dropped_while_init_at),
                    s2(db.var_defined_at),
                    s2(db.cfg_edge),
                    v,
                    p,
                )
                ||| exists|v: u32| #[trigger] s2(db.use_of_var_derefs_origin).contains((v, o)) && var_live_on_entry(
                    s2(db.var_used_at),
                    s2(db.var_defined_at),
                    s2(db.cfg_edge),
                    v,
                    p,
                )
                ||| s1(db.universal_region).contains(o) && s1(db.cfg_node).contains(p)
            }
        },
        Unit::BorrowckNaive | Unit::BorrowckOptimized => exists|s: Set<(u32, u32, u32)>, c: Set<(u32, u32, u32)>|
            #![trigger least_closed(subset_rules(s3(db.subset_base).to_set(), s2(db.cfg_edge).to_set(), s2(db.origin_live_on_entry).to_set()), s), least_closed(contains_rules(s3(db.loan_issued_at).to_set(), s2(db.loan_killed_at).to_set(), s2(db.cfg_edge).to_set(), s2(db.origin_live_on_entry).to_set(), s), c)]
            {
            &&& least_closed(
                subset_rules(s3(db.subset_base).to_set(), s2(db.cfg_edge).to_set(), s2(db.origin_live_on_entry).to_set()),
                s,
            )
            &&& least_closed(
                contains_rules(
                    s3(db.loan_issued_at).to_set(),
                    s2(db.loan_killed_at).to_set(),
                    s2(db.cfg_edge).to_set(),
                    s2(db.origin_live_on_entry).to_set(),
                    s,
                ),
                c,
            )
            &&& sorted2(s2(db.errors))
            &&& forall|l: u32, p: u32| #[trigger] s2(db.errors).contains((l, p)) <==> {
                &&& s2(db.loan_invalidated_at).contains((l, p))
                &&& exists|o: u32| #[trigger] c.contains((o, l, p)) && s2(db.origin_live_on_entry).contains((o, p))
            }
            &&& sorted3(s3(db.subset_errors))
            &&& forall|a: u32, b: u32, p: u32| #[trigger] s3(db.subset_errors).contains((a, b, p)) <==> {
                &&& s.contains((a, b, p))
                &&& s1(db.universal_region).contains(a)
                &&& s1(db.universal_region).contains(b)
                &&& !s2(db.known_placeholder_subset).contains((a, b))
            }
        },
        Unit::BorrowckLocationInsensitive => {
            &&& sorted2(s2(db.potential_errors))
            &&& forall|l: u32, p: u32| #[trigger] s2(db.potential_errors).contains((l, p)) <==> {
                &&& s2(db.loan_invalidated_at).contains((l, p))
                &&& exists|o: u32| #[trigger] s2(db.origin_live_on_entry).contains((o, p)) && contains_loan_anywhere(
                    s3(db.loan_issued_at),
                    s2(db.placeholder),
                    s3(db.subset_base),
                    o,
                    l,
                )
            }
            &&& sorted2(s2(db.potential_subset_errors))
            &&& forall|o1: u32, o2: u32| #[trigger] s2(db.potential_subset_errors).contains((o1, o2)) <==> {
                &&& o1 != o2
                &&& exists|l1: u32, l2: u32| {
                    &&& #[trigger] s2(db.placeholder).contains((o1, l1))
                    &&& #[trigger] s2(db.placeholder).contains((o2, l2))
                    &&& contains_loan_anywhere(s3(db.loan_issued_at), s2(db.placeholder), s3(db.subset_base), o2, l1)
                    &&& !s2(db.known_placeholder_requires).contains((o2, l1))
                }
            }
        },
        Unit::BorrowckLocationInsensitiveAsSensitive => {
            &&& s2(db.errors) == s2(db.potential_errors)
            &&& sorted3(s3(db.subset_errors))
            &&& forall|a: u32, b: u32, c: u32| #[trigger] s3(db.subset_errors).contains((a, b, c)) <==> c == 0 && s2(
                db.potential_subset_errors,
            ).contains((a, b))
        },
    }
}

/// The relations that a location-sensitive borrow check reads and those it computes.
proof fn lemma_borrowck_relations(u: Unit)
    requires
        u == Unit::BorrowckNaive || u == Unit::BorrowckOptimized,
    ensures
        unit_inputs(u)[0] == Rel::SubsetBase,
        unit_inputs(u).contains(Rel::SubsetBase),
        unit_inputs(u)[1] == Rel::LoanIssuedAt,
        unit_inputs(u).contains(Rel::LoanIssuedAt),
        unit_inputs(u)[2] == Rel::CfgEdge,
        unit_inputs(u).contains(Rel::CfgEdge),
        unit_inputs(u)[3] == Rel::OriginLiveOnEntry,
        unit_inputs(u).contains(Rel::OriginLiveOnEntry),
        unit_inputs(u)[4] == Rel::LoanKilledAt,
        unit_inputs(u).contains(Rel::LoanKilledAt),
        unit_inputs(u)[5] == Rel::LoanInvalidatedAt,
        unit_inputs(u).contains(Rel::LoanInvalidatedAt),
        unit_inputs(u)[6] == Rel::KnownPlaceholderSubset,
        unit_inputs(u).contains(Rel::KnownPlaceholderSubset),
        unit_inputs(u)[7] == Rel::UniversalRegion,
        unit_inputs(u).contains(Rel::UniversalRegion),
        unit_outputs(u)[0] == Rel::Errors,
        unit_outputs(u).contains(Rel::Errors),
        unit_outputs(u)[1] == Rel::SubsetErrors,
        unit_outputs(u).contains(Rel::SubsetErrors),
{
    assert(unit_inputs(u)[0] == Rel::SubsetBase);
    assert(unit_inputs(u).contains(Rel::SubsetBase));
    assert(unit_inputs(u)[1] == Rel::LoanIssuedAt);
    assert(unit_inputs(u).contains(Rel::LoanIssuedAt));
    assert(unit_inputs(u)[2] == Rel::CfgEdge);
    assert(unit_inputs(u).contains(Rel::CfgEdge));
    assert(unit_inputs(u)[3] == Rel::OriginLiveOnEntry);
    assert(unit_inputs(u).contains(Rel::OriginLiveOnEntry));
    assert(unit_inputs(u)[4] == Rel::LoanKilledAt);
    assert(unit_inputs(u).contains(Rel::LoanKilledAt));
    assert(unit_inputs(u)[5] == Rel::LoanInvalidatedAt);
    assert(unit_inputs(u).contains(Rel::LoanInvalidatedAt));
    assert(unit_inputs(u)[6] == Rel::KnownPlaceholderSubset);
    assert(unit_inputs(u).contains(Rel::KnownPlaceholderSubset));
    assert(unit_inputs(u)[7] == Rel::UniversalRegion);
    assert(unit_inputs(u).contains(Rel::UniversalRegion));
    assert(unit_outputs(u)[0] == Rel::Errors);
    assert(unit_outputs(u).contains(Rel::Errors));
    assert(unit_outputs(u)[1] == Rel::SubsetErrors);
    assert(unit_outputs(u).contains(Rel::SubsetErrors));
}

/// What a unit promises of `a` it promises of each database that holds `a`'s relations
/// unchanged.
proof fn lemma_unit_holds_extends(u: Unit, a: Db, b: Db)
    requires
        extends(a, b),
        unit_holds(u, a),
        forall|x: Rel| #[trigger] unit_inputs(u).contains(x) ==> db_has(a, x),
        forall|x: Rel| #[trigger] unit_outputs(u).contains(x) ==> db_has(a, x),
    ensures
        unit_holds(u, b),
{
    match u {
        Unit::Cfg => {
            assert(unit_inputs(u)[0] == Rel::CfgEdge);
            assert(unit_inputs(u).contains(Rel::CfgEdge));
            assert(unit_outputs(u)[0] == Rel::CfgNode);
            assert(unit_outputs(u).contains(Rel::CfgNode));
        },
        Unit::Paths => {
            assert(unit_inputs(u)[0] == Rel::ChildPath);
            assert(unit_inputs(u).contains(Rel::ChildPath));
            assert(unit_inputs(u)[1] == Rel::PathIsVar);
            assert(unit_inputs(u).contains(Rel::PathIsVar));
            assert(unit_inputs(u)[2] == Rel::PathMovedAtBase);
            assert(unit_inputs(u).contains(Rel::PathMovedAtBase));
            assert(unit_inputs(u)[3] == Rel::PathAssignedAtBase);
            assert(unit_inputs(u).contains(Rel::PathAssignedAtBase));
            assert(unit_inputs(u)[4] == Rel::PathAccessedAtBase);
            assert(unit_inputs(u).contains(Rel::PathAccessedAtBase));
            assert(unit_outputs(u)[0] == Rel::PathMovedAt);
            assert(unit_outputs(u).contains(Rel::PathMovedAt));
            assert(unit_outputs(u)[1] == Rel::PathAssignedAt);
            assert(unit_outputs(u).contains(Rel::PathAssignedAt));
            assert(unit_outputs(u)[2] == Rel::PathAccessedAt);
            assert(unit_outputs(u).contains(Rel::PathAccessedAt));
            assert(unit_outputs(u)[3] == Rel::PathBeginsWithVar);
            assert(unit_outputs(u).contains(Rel::PathBeginsWithVar));
        },
        Unit::MaybeInit => {
            assert(unit_inputs(u)[0] == Rel::CfgEdge);
            assert(unit_inputs(u).contains(Rel::CfgEdge));
            assert(unit_inputs(u)[1] == Rel::PathMovedAt);
            assert(unit_inputs(u).contains(Rel::PathMovedAt));
            assert(unit_inputs(u)[2] == Rel::PathAssignedAt);
            assert(unit_inputs(u).contains(Rel::PathAssignedAt));
            assert(unit_outputs(u)[0] == Rel::PathMaybeInitializedOnExit);
            assert(unit_outputs(u).contains(Rel::PathMaybeInitializedOnExit));
        },
        Unit::VarDroppedWhileInit => {
            assert(unit_inputs(u)[0] == Rel::VarDroppedAt);
            assert(unit_inputs(u).contains(Rel::VarDroppedAt));
            assert(unit_inputs(u)[1] == Rel::PathMaybeInitializedOnExit);
            assert(unit_inputs(u).contains(Rel::PathMaybeInitializedOnExit));
            assert(unit_inputs(u)[2] == Rel::PathBeginsWithVar);
            assert(unit_inputs(u).contains(Rel::PathBeginsWithVar));
            assert(unit_outputs(u)[0] == Rel::VarDroppedWhileInitAt);
            assert(unit_outputs(u).contains(Rel::VarDroppedWhileInitAt));
        },
        Unit::MaybeUninit => {
            assert(unit_inputs(u)[0] == Rel::CfgEdge);
            assert(unit_inputs(u).contains(Rel::CfgEdge));
            assert(unit_inputs(u)[1] == Rel::PathMovedAt);
            assert(unit_inputs(u).contains(Rel::PathMovedAt));
            assert(unit_inputs(u)[2] == Rel::PathAssignedAt);
            assert(unit_inputs(u).contains(Rel::PathAssignedAt));
            assert(unit_outputs(u)[0] == Rel::PathMaybeUninitializedOnExit);
            assert(unit_outputs(u).contains(Rel::PathMaybeUninitializedOnExit));
        },
        Unit::MoveError => {
            assert(unit_inputs(u)[0] == Rel::CfgEdge);
            assert(unit_inputs(u).contains(Rel::CfgEdge));
            assert(unit_inputs(u)[1] == Rel::PathMaybeUninitializedOnExit);
            assert(unit_inputs(u).contains(Rel::PathMaybeUninitializedOnExit));
            assert(unit_inputs(u)[2] == Rel::PathAccessedAt);
            assert(unit_inputs(u).contains(Rel::PathAccessedAt));
            assert(unit_outputs(u)[0] == Rel::MoveErrors);
            assert(unit_outputs(u).contains(Rel::MoveErrors));
        },
        Unit::KnownPlaceholder => {
            assert(unit_inputs(u)[0] == Rel::KnownPlaceholderSubsetBase);
            assert(unit_inputs(u).contains(Rel::KnownPlaceholderSubsetBase));
            assert(unit_outputs(u)[0] == Rel::KnownPlaceholderSubset);
            assert(unit_outputs(u).contains(Rel::KnownPlaceholderSubset));
        },
        Unit::KnownPlaceholderLoans => {
            assert(unit_inputs(u)[0] == Rel::KnownPlaceholderSubset);
            assert(unit_inputs(u).contains(Rel::KnownPlaceholderSubset));
            assert(unit_inputs(u)[1] == Rel::Placeholder);
            assert(unit_inputs(u).contains(Rel::Placeholder));
            assert(unit_outputs(u)[0] == Rel::KnownPlaceholderRequires);
            assert(unit_outputs(u).contains(Rel::KnownPlaceholderRequires));
        },
        Unit::LiveOrigins => {
            assert(unit_inputs(u)[0] == Rel::CfgEdge);
            assert(unit_inputs(u).contains(Rel::CfgEdge));
            assert(unit_inputs(u)[1] == Rel::CfgNode);
            assert(unit_inputs(u).contains(Rel::CfgNode));
            assert(unit_inputs(u)[2] == Rel::VarDroppedWhileInitAt);
            assert(unit_inputs(u).contains(Rel::VarDroppedWhileInitAt));
            assert(unit_inputs(u)[3] == Rel::VarUsedAt);
            assert(unit_inputs(u).contains(Rel::VarUsedAt));
            assert(unit_inputs(u)[4] == Rel::VarDefinedAt);
            assert(unit_inputs(u).contains(Rel::VarDefinedAt));
            assert(unit_inputs(u)[5] == Rel::UseOfVarDerefsOrigin);
            assert(unit_inputs(u).contains(Rel::UseOfVarDerefsOrigin));
            assert(unit_inputs(u)[6] == Rel::DropOfVarDerefsOrigin);
            assert(unit_inputs(u).contains(Rel::DropOfVarDerefsOrigin));
            assert(unit_inputs(u)[7] == Rel::UniversalRegion);
            assert(unit_inputs(u).contains(Rel::UniversalRegion));
            assert(unit_outputs(u)[0] == Rel::OriginLiveOnEntry);
            assert(unit_outputs(u).contains(Rel::OriginLiveOnEntry));
        },
        Unit::BorrowckNaive | Unit::BorrowckOptimized => {
            lemma_borrowck_relations(u);
        },
        Unit::BorrowckLocationInsensitive => {
            assert(unit_inputs(u)[0] == Rel::OriginLiveOnEntry);
            assert(unit_inputs(u).contains(Rel::OriginLiveOnEntry));
            assert(unit_inputs(u)[1] == Rel::LoanInvalidatedAt);
            assert(unit_inputs(u).contains(Rel::LoanInvalidatedAt));
            assert(unit_inputs(u)[2] == Rel::KnownPlaceholderRequires);
            assert(unit_inputs(u).contains(Rel::KnownPlaceholderRequires));
            assert(unit_inputs(u)[3] == Rel::Placeholder);
            assert(unit_inputs(u).contains(Rel::Placeholder));
            assert(unit_inputs(u)[4] == Rel::LoanIssuedAt);
            assert(unit_inputs(u).contains(Rel::LoanIssuedAt));
            assert(unit_inputs(u)[5] == Rel::SubsetBase);
            assert(unit_inputs(u).contains(Rel::SubsetBase));
            assert(unit_outputs(u)[0] == Rel::PotentialErrors);
            assert(unit_outputs(u).contains(Rel::PotentialErrors));
            assert(unit_outputs(u)[1] == Rel::PotentialSubsetErrors);
            assert(unit_outputs(u).contains(Rel::PotentialSubsetErrors));
        },
        Unit::BorrowckLocationInsensitiveAsSensitive => {
            assert(unit_inputs(u)[0] == Rel::PotentialErrors);
            assert(unit_inputs(u).contains(Rel::PotentialErrors));
            assert(unit_inputs(u)[1] == Rel::PotentialSubsetErrors);
            assert(unit_inputs(u).contains(Rel::PotentialSubsetErrors));
            assert(unit_outputs(u)[0] == Rel::Errors);
            assert(unit_outputs(u).contains(Rel::Errors));
            assert(unit_outputs(u)[1] == Rel::SubsetErrors);
            assert(unit_outputs(u).contains(Rel::SubsetErrors));
        },
    }
}

/// A copy of `v`.
fn copy_of<T: Copy>(v: &Vec<T>) -> (r: Vec<T>)
    ensures
        r@ == v@,
{
    let mut r: Vec<T> = Vec::new();
    let mut i: usize = 0;
    while i < v.len()
        invariant
            i <= v@.len(),
            r@ == v@.take(i as int),
        decreases v@.len() - i,
    {
        r.push(v[i]);
        proof {
            assert(v@.take(i + 1) =~= v@.take(i as int).push(v@[i as int]));
        }
        i = i + 1;
    }
    proof {
        assert(v@.take(v@.len() as int) =~= v@);
    }
    r
}

/// Whether `a` and `b` hold the same values in the same order.
fn same1(a: &Vec<u32>, b: &Vec<u32>) -> (r: bool)
    ensures
        r == (a@ == b@),
{
    if a.len() != b.len() {
        return false;
    }
    let mut i: usize = 0;
    while i < a.len()
        invariant
            i <= a@.len(),
            a@.len() == b@.len(),
            forall|k: int| 0 <= k < i ==> a@[k] == b@[k],
        decreases a@.len() - i,
    {
        let x = a[i];
        let y = b[i];
        if x != y {
            return false;
        }
        i = i + 1;
    }
    proof {
        assert(a@ =~= b@);
    }
    true
}

/// Stores `v` where nothing is stored yet; where the same values are stored, keeps them, and
/// where others are, reports it.
fn store1(slot: &mut Option<Vec<u32>>, v: Vec<u32>) -> (ok: bool)
    ensures
        *old(slot) is None ==> ok && *final(slot) == Some(v),
        *old(slot) is Some ==> *final(slot) == *old(slot) && (ok <==> (*old(slot))->0@ == v@),
{
    match slot {
        Some(existing) => same1(existing, &v),
        None => {
            *slot = Some(v);
            true
        },
    }
}

/// Whether `a` and `b` hold the same values in the same order.
fn same2(a: &Vec<(u32, u32)>, b: &Vec<(u32, u32)>) -> (r: bool)
    ensures
        r == (a@ == b@),
{
    if a.len() != b.len() {
        return false;
    }
    let mut i: usize = 0;
    while i < a.len()
        invariant
            i <= a@.len(),
            a@.len() == b@.len(),
            forall|k: int| 0 <= k < i ==> a@[k] == b@[k],
        decreases a@.len() - i,
    {
        let x = a[i];
        let y = b[i];
        if x.0 != y.0 || x.1 != y.1 {
            return false;
        }
        i = i + 1;
    }
    proof {
        assert(a@ =~= b@);
    }
    true
}

/// Stores `v` where nothing is stored yet; where the same values are stored, keeps them, and
/// where others are, reports it.
fn store2(slot: &mut Option<Vec<(u32, u32)>>, v: Vec<(u32, u32)>) -> (ok: bool)
    ensures
        *old(slot) is None ==> ok && *final(slot) == Some(v),
        *old(slot) is Some ==> *final(slot) == *old(slot) && (ok <==> (*old(slot))->0@ == v@),
{
    match slot {
        Some(existing) => same2(existing, &v),
        None => {
            *slot = Some(v);
            true
        },
    }
}

/// Whether `a` and `b` hold the same values in the same order.
fn same3(a: &Vec<(u32, u32, u32)>, b: &Vec<(u32, u32, u32)>) -> (r: bool)
    ensures
        r == (a@ == b@),
{
    if a.len() != b.len() {
        return false;
    }
    let mut i: usize = 0;
    while i < a.len()
        invariant
            i <= a@.len(),
            a@.len() == b@.len(),
            forall|k: int| 0 <= k < i ==> a@[k] == b@[k],
        decreases a@.len() - i,
    {
        let x = a[i];
        let y = b[i];
        if x.0 != y.0 || x.1 != y.1 || x.2 != y.2 {
            return false;
        }
        i = i + 1;
    }
    proof {
        assert(a@ =~= b@);
    }
    true
}

/// Stores `v` where nothing is stored yet; where the same values are stored, keeps them, and
/// where others are, reports it.
fn store3(slot: &mut Option<Vec<(u32, u32, u32)>>, v: Vec<(u32, u32, u32)>) -> (ok: bool)
    ensures
        *old(slot) is None ==> ok && *final(slot) == Some(v),
        *old(slot) is Some ==> *final(slot) == *old(slot) && (ok <==> (*old(slot))->0@ == v@),
{
    match slot {
        Some(existing) => same3(existing, &v),
        None => {
            *slot = Some(v);
            true
        },
    }
}

/// Two sorted lists with the same members are the same list.
proof fn lemma_same_members2(a: Seq<(u32, u32)>, b: Seq<(u32, u32)>)
    requires
        sorted2(a),
        sorted2(b),
        forall|x: u32, y: u32| #[trigger] a.contains((x, y)) <==> b.contains((x, y)),
    ensures
        a == b,
{
    assert forall|t: (u32, u32)| a.to_set().contains(t) <==> b.to_set().contains(t) by {
        assert(t == (t.0, t.1));
        assert(a.contains((t.0, t.1)) <==> b.contains((t.0, t.1)));
    }
    assert(a.to_set() =~= b.to_set());
    lemma_sorted_pairs_unique(a, b);
}

/// Two sorted lists with the same members are the same list.
proof fn lemma_same_members3(a: Seq<(u32, u32, u32)>, b: Seq<(u32, u32, u32)>)
    requires
        sorted3(a),
        sorted3(b),
        forall|x: u32, y: u32, z: u32| #[trigger] a.contains((x, y, z)) <==> b.contains((x, y, z)),
    ensures
        a == b,
{
    assert forall|t: (u32, u32, u32)| a.to_set().contains(t) <==> b.to_set().contains(t) by {
        assert(t == (t.0, t.1, t.2));
        assert(a.contains((t.0, t.1, t.2)) <==> b.contains((t.0, t.1, t.2)));
    }
    assert(a.to_set() =~= b.to_set());
    lemma_sorted_triples_unique(a, b);
}

impl Db {
    /// The database with no relation.
    pub fn new() -> (db: Db)
        ensures
            forall|r: Rel| !#[trigger] db_has(db, r),
    {
        Db {
            loan_issued_at: None,
            universal_region: None,
            cfg_edge: None,
            cfg_node: None,
            loan_killed_at: None,
            subset_base: None,
            loan_invalidated_at: None,
            var_used_at: None,
            var_defined_at: None,
            var_dropped_at: None,
            var_dropped_while_init_at: None,
            use_of_var_derefs_origin: None,
            drop_of_var_derefs_origin: None,
            child_path: None,
            path_is_var: None,
            path_assigned_at_base: None,
            path_moved_at_base: None,
            path_accessed_at_base: None,
            known_placeholder_subset: None,
            known_placeholder_subset_base: None,
            placeholder: None,
            path_assigned_at: None,
            path_moved_at: None,
            path_accessed_at: None,
            path_begins_with_var: None,
            origin_live_on_entry: None,
            path_maybe_initialized_on_exit: None,
            path_maybe_uninitialized_on_exit: None,
            errors: None,
            subset_errors: None,
            move_errors: None,
            known_placeholder_requires: None,
            potential_errors: None,
            potential_subset_errors: None,
        }
    }

    /// The database of the facts: each relation of them, sorted, and no other.
    pub fn from_facts(facts: &AllFacts) -> (db: Db)
        ensures
            holds_facts(db, *facts),
            forall|r: Rel| #[trigger] db_has(db, r) <==> facts_relations().contains(r),
    {
        let swapped = swap_pairs(&facts.loan_invalidated_at);
        let ghost sw = swapped@;
        let invalidated = relation_of_pairs(swapped);
        let db = Db {
            loan_issued_at: Some(relation_of_triples(copy_of(&facts.loan_issued_at))),
            universal_region: Some(relation_of_values(copy_of(&facts.universal_region))),
            cfg_edge: Some(relation_of_pairs(copy_of(&facts.cfg_edge))),
            cfg_node: None,
            loan_killed_at: Some(relation_of_pairs(copy_of(&facts.loan_killed_at))),
            subset_base: Some(relation_of_triples(copy_of(&facts.subset_base))),
            loan_invalidated_at: Some(invalidated),
            var_used_at: Some(relation_of_pairs(copy_of(&facts.var_used_at))),
            var_defined_at: Some(relation_of_pairs(copy_of(&facts.var_defined_at))),
            var_dropped_at: Some(relation_of_pairs(copy_of(&facts.var_dropped_at))),
            var_dropped_while_init_at: None,
            use_of_var_derefs_origin: Some(relation_of_pairs(copy_of(&facts.use_of_var_derefs_origin))),
            drop_of_var_derefs_origin: Some(relation_of_pairs(copy_of(&facts.drop_of_var_derefs_origin))),
            child_path: Some(relation_of_pairs(copy_of(&facts.child_path))),
            path_is_var: Some(relation_of_pairs(copy_of(&facts.path_is_var))),
            path_assigned_at_base: Some(relation_of_pairs(copy_of(&facts.path_assigned_at_base))),
            path_moved_at_base: Some(relation_of_pairs(copy_of(&facts.path_moved_at_base))),
            path_accessed_at_base: Some(relation_of_pairs(copy_of(&facts.path_accessed_at_base))),
            known_placeholder_subset: None,
            known_placeholder_subset_base: Some(relation_of_pairs(copy_of(&facts.known_placeholder_subset))),
            placeholder: Some(relation_of_pairs(copy_of(&facts.placeholder))),
            path_assigned_at: None,
            path_moved_at: None,
            path_accessed_at: None,
            path_begins_with_var: None,
            origin_live_on_entry: None,
            path_maybe_initialized_on_exit: None,
            path_maybe_uninitialized_on_exit: None,
            errors: None,
            subset_errors: None,
            move_errors: None,
            known_placeholder_requires: None,
            potential_errors: None,
            potential_subset_errors: None,
        };
        proof {
            assert forall|l: u32, p: u32| #[trigger] s2(db.loan_invalidated_at).contains((l, p)) <==> facts.loan_invalidated_at@.contains((p, l)) by {
                lemma_swap_contains(facts.loan_invalidated_at@, sw, l, p);
                assert(sw.to_set().contains((l, p)) == sw.contains((l, p)));
                assert(s2(db.loan_invalidated_at).to_set().contains((l, p)) == s2(db.loan_invalidated_at).contains((l, p)));
            }
            assert forall|r: Rel| #[trigger] db_has(db, r) <==> facts_relations().contains(r) by {
                lemma_facts_relations(r);
            }
        }
        db
    }
}

/// Whether the facts provide the relation `r`.
pub open spec fn is_fact_relation(r: Rel) -> bool {
    match r {
        Rel::LoanIssuedAt => true,
        Rel::UniversalRegion => true,
        Rel::CfgEdge => true,
        Rel::CfgNode => false,
        Rel::LoanKilledAt => true,
        Rel::SubsetBase => true,
        Rel::LoanInvalidatedAt => true,
        Rel::VarUsedAt => true,
        Rel::VarDefinedAt => true,
        Rel::VarDroppedAt => true,
        Rel::VarDroppedWhileInitAt => false,
        Rel::UseOfVarDerefsOrigin => true,
        Rel::DropOfVarDerefsOrigin => true,
        Rel::ChildPath => true,
        Rel::PathIsVar => true,
        Rel::PathAssignedAtBase => true,
        Rel::PathMovedAtBase => true,
        Rel::PathAccessedAtBase => true,
        Rel::KnownPlaceholderSubset => false,
        Rel::KnownPlaceholderSubsetBase => true,
        Rel::Placeholder => true,
        Rel::PathAssignedAt => false,
        Rel::PathMovedAt => false,
        Rel::PathAccessedAt => false,
        Rel::PathBeginsWithVar => false,
        Rel::OriginLiveOnEntry => false,
        Rel::PathMaybeInitializedOnExit => false,
        Rel::PathMaybeUninitializedOnExit => false,
        Rel::Errors => false,
        Rel::SubsetErrors => false,
        Rel::MoveErrors => false,
        Rel::KnownPlaceholderRequires => false,
        Rel::PotentialErrors => false,
        Rel::PotentialSubsetErrors => false,
    }
}

proof fn lemma_facts_relations(r: Rel)
    ensures
        facts_relations().contains(r) <==> is_fact_relation(r),
{
    let s = facts_relations();
    assert(s[0] == Rel::LoanIssuedAt);
    assert(s[1] == Rel::UniversalRegion);
    assert(s[2] == Rel::CfgEdge);
    assert(s[3] == Rel::LoanKilledAt);
    assert(s[4] == Rel::SubsetBase);
    assert(s[5] == Rel::LoanInvalidatedAt);
    assert(s[6] == Rel::VarUsedAt);
    assert(s[7] == Rel::VarDefinedAt);
    assert(s[8] == Rel::VarDroppedAt);
    assert(s[9] == Rel::UseOfVarDerefsOrigin);
    assert(s[10] == Rel::DropOfVarDerefsOrigin);
    assert(s[11] == Rel::ChildPath);
    assert(s[12] == Rel::PathIsVar);
    assert(s[13] == Rel::PathAssignedAtBase);
    assert(s[14] == Rel::PathMovedAtBase);
    assert(s[15] == Rel::PathAccessedAtBase);
    assert(s[16] == Rel::KnownPlaceholderSubsetBase);
    assert(s[17] == Rel::Placeholder);
    if s.contains(r) {
        let k = choose|k: int| 0 <= k < s.len() && s[k] == r;
    }
}

/// Runs [`Cfg`] on `db`.
fn run_cfg(db: &mut Db) -> (r: Result<(), PipelineError>)
    requires
        forall|x: Rel| #[trigger] unit_inputs(Unit::Cfg).contains(x) ==> db_has(*old(db), x),
    ensures
        r is Ok ==> {
            &&& extends(*old(db), *final(db))
            &&& unit_holds(Unit::Cfg, *final(db))
            &&& forall|x: Rel| #[trigger] db_has(*final(db), x) <==> db_has(*old(db), x) || unit_outputs(Unit::Cfg).contains(x)
        },
        r matches Err(e) ==> e matches PipelineError::Differs { relation, unit } && unit == Unit::Cfg && unit_outputs(Unit::Cfg).contains(
            relation,
        ) && db_has(*old(db), relation),
        (forall|x: Rel| #[trigger] unit_outputs(Unit::Cfg).contains(x) ==> !db_has(*old(db), x)) ==> r is Ok,
        unit_holds(Unit::Cfg, *old(db)) ==> r is Ok,
{
    assert(unit_inputs(Unit::Cfg)[0] == Rel::CfgEdge);
    assert(unit_inputs(Unit::Cfg).contains(Rel::CfgEdge));
    assert(unit_outputs(Unit::Cfg)[0] == Rel::CfgNode);
    assert(unit_outputs(Unit::Cfg).contains(Rel::CfgNode));
    let a0 = db.cfg_edge.as_ref().unwrap();
    let out = Cfg.compute(a0);
    proof {
        assert(s2(db.cfg_edge) == a0@);
    }
    let ghost before = *db;
    proof {
        if unit_holds(Unit::Cfg, *db) && db.cfg_node is Some {
            lemma_sorted_values_unique(s1(db.cfg_node), out@);
        }
    }
    if !store1(&mut db.cfg_node, out) {
        return Err(PipelineError::Differs { relation: Rel::CfgNode, unit: Unit::Cfg });
    }
    proof {
        assert(unit_holds(Unit::Cfg, *db));
        assert forall|x: Rel| #[trigger] db_has(*db, x) <==> db_has(before, x) || unit_outputs(Unit::Cfg).contains(x) by {
            if unit_outputs(Unit::Cfg).contains(x) {
                let k = choose|k: int| 0 <= k < unit_outputs(Unit::Cfg).len() && unit_outputs(Unit::Cfg)[k] == x;
            }
        }
    }
    Ok(())
}

/// Runs [`Paths`] on `db`.
fn run_paths(db: &mut Db) -> (r: Result<(), PipelineError>)
    requires
        forall|x: Rel| #[trigger] unit_inputs(Unit::Paths).contains(x) ==> db_has(*old(db), x),
    ensures
        r is Ok ==> {
            &&& extends(*old(db), *final(db))
            &&& unit_holds(Unit::Paths, *final(db))
            &&& forall|x: Rel| #[trigger] db_has(*final(db), x) <==> db_has(*old(db), x) || unit_outputs(Unit::Paths).contains(x)
        },
        r matches Err(e) ==> e matches PipelineError::Differs { relation, unit } && unit == Unit::Paths && unit_outputs(Unit::Paths).contains(
            relation,
        ) && db_has(*old(db), relation),
        (forall|x: Rel| #[trigger] unit_outputs(Unit::Paths).contains(x) ==> !db_has(*old(db), x)) ==> r is Ok,
        unit_holds(Unit::Paths, *old(db)) ==> r is Ok,
{
    assert(unit_inputs(Unit::Paths)[0] == Rel::ChildPath);
    assert(unit_inputs(Unit::Paths).contains(Rel::ChildPath));
    assert(unit_inputs(Unit::Paths)[1] == Rel::PathIsVar);
    assert(unit_inputs(Unit::Paths).contains(Rel::PathIsVar));
    assert(unit_inputs(Unit::Paths)[2] == Rel::PathMovedAtBase);
    assert(unit_inputs(Unit::Paths).contains(Rel::PathMovedAtBase));
    assert(unit_inputs(Unit::Paths)[3] == Rel::PathAssignedAtBase);
    assert(unit_inputs(Unit::Paths).contains(Rel::PathAssignedAtBase));
    assert(unit_inputs(Unit::Paths)[4] == Rel::PathAccessedAtBase);
    assert(unit_inputs(Unit::Paths).contains(Rel::PathAccessedAtBase));
    assert(unit_outputs(Unit::Paths)[0] == Rel::PathMovedAt);
    assert(unit_outputs(Unit::Paths).contains(Rel::PathMovedAt));
    assert(unit_outputs(Unit::Paths)[1] == Rel::PathAssignedAt);
    assert(unit_outputs(Unit::Paths).contains(Rel::PathAssignedAt));
    assert(unit_outputs(Unit::Paths)[2] == Rel::PathAccessedAt);
    assert(unit_outputs(Unit::Paths).contains(Rel::PathAccessedAt));
    assert(unit_outputs(Unit::Paths)[3] == Rel::PathBeginsWithVar);
    assert(unit_outputs(Unit::Paths).contains(Rel::PathBeginsWithVar));
    let a0 = db.child_path.as_ref().unwrap();
    let a1 = db.path_is_var.as_ref().unwrap();
    let a2 = db.path_moved_at_base.as_ref().unwrap();
    let a3 = db.path_assigned_at_base.as_ref().unwrap();
    let a4 = db.path_accessed_at_base.as_ref().unwrap();
    let out = Paths.compute(a0, a1, a2, a3, a4);
    proof {
        assert(s2(db.child_path) == a0@);
        assert(s2(db.path_is_var) == a1@);
        assert(s2(db.path_moved_at_base) == a2@);
        assert(s2(db.path_assigned_at_base) == a3@);
        assert(s2(db.path_accessed_at_base) == a4@);
    }
    let ghost before = *db;
    proof {
        if unit_holds(Unit::Paths, *db) {
            if db.path_moved_at is Some {
                lemma_same_members2(s2(db.path_moved_at), out.path_moved_at@);
            }
            if db.path_assigned_at is Some {
                lemma_same_members2(s2(db.path_assigned_at), out.path_assigned_at@);
            }
            if db.path_accessed_at is Some {
                lemma_same_members2(s2(db.path_accessed_at), out.path_accessed_at@);
            }
            if db.path_begins_with_var is Some {
                lemma_same_members2(s2(db.path_begins_with_var), out.path_begins_with_var@);
            }
        }
    }
    if !store2(&mut db.path_moved_at, out.path_moved_at) {
        return Err(PipelineError::Differs { relation: Rel::PathMovedAt, unit: Unit::Paths });
    }
    if !store2(&mut db.path_assigned_at, out.path_assigned_at) {
        return Err(PipelineError::Differs { relation: Rel::PathAssignedAt, unit: Unit::Paths });
    }
    if !store2(&mut db.path_accessed_at, out.path_accessed_at) {
        return Err(PipelineError::Differs { relation: Rel::PathAccessedAt, unit: Unit::Paths });
    }
    if !store2(&mut db.path_begins_with_var, out.path_begins_with_var) {
        return Err(PipelineError::Differs { relation: Rel::PathBeginsWithVar, unit: Unit::Paths });
    }
    proof {
        assert(unit_holds(Unit::Paths, *db));
        assert forall|x: Rel| #[trigger] db_has(*db, x) <==> db_has(before, x) || unit_outputs(Unit::Paths).contains(x) by {
            if unit_outputs(Unit::Paths).contains(x) {
                let k = choose|k: int| 0 <= k < unit_outputs(Unit::Paths).len() && unit_outputs(Unit::Paths)[k] == x;
            }
        }
    }
    Ok(())
}

/// Runs [`MaybeInit`] on `db`.
fn run_maybe_init(db: &mut Db) -> (r: Result<(), PipelineError>)
    requires
        forall|x: Rel| #[trigger] unit_inputs(Unit::MaybeInit).contains(x) ==> db_has(*old(db), x),
    ensures
        r is Ok ==> {
            &&& extends(*old(db), *final(db))
            &&& unit_holds(Unit::MaybeInit, *final(db))
            &&& forall|x: Rel| #[trigger] db_has(*final(db), x) <==> db_has(*old(db), x) || unit_outputs(Unit::MaybeInit).contains(x)
        },
        r matches Err(e) ==> e matches PipelineError::Differs { relation, unit } && unit == Unit::MaybeInit && unit_outputs(Unit::MaybeInit).contains(
            relation,
        ) && db_has(*old(db), relation),
        (forall|x: Rel| #[trigger] unit_outputs(Unit::MaybeInit).contains(x) ==> !db_has(*old(db), x)) ==> r is Ok,
        unit_holds(Unit::MaybeInit, *old(db)) ==> r is Ok,
{
    assert(unit_inputs(Unit::MaybeInit)[0] == Rel::CfgEdge);
    assert(unit_inputs(Unit::MaybeInit).contains(Rel::CfgEdge));
    assert(unit_inputs(Unit::MaybeInit)[1] == Rel::PathMovedAt);
    assert(unit_inputs(Unit::MaybeInit).contains(Rel::PathMovedAt));
    assert(unit_inputs(Unit::MaybeInit)[2] == Rel::PathAssignedAt);
    assert(unit_inputs(Unit::MaybeInit).contains(Rel::PathAssignedAt));
    assert(unit_outputs(Unit::MaybeInit)[0] == Rel::PathMaybeInitializedOnExit);
    assert(unit_outputs(Unit::MaybeInit).contains(Rel::PathMaybeInitializedOnExit));
    let a0 = db.cfg_edge.as_ref().unwrap();
    let a1 = db.path_moved_at.as_ref().unwrap();
    let a2 = db.path_assigned_at.as_ref().unwrap();
    let out = MaybeInit.compute(a0, a1, a2);
    proof {
        assert(s2(db.cfg_edge) == a0@);
        assert(s2(db.path_moved_at) == a1@);
        assert(s2(db.path_assigned_at) == a2@);
    }
    let ghost before = *db;
    proof {
        if unit_holds(Unit::MaybeInit, *db) && db.path_maybe_initialized_on_exit is Some {
            lemma_same_members2(s2(db.path_maybe_initialized_on_exit), out@);
        }
    }
    if !store2(&mut db.path_maybe_initialized_on_exit, out) {
        return Err(PipelineError::Differs { relation: Rel::PathMaybeInitializedOnExit, unit: Unit::MaybeInit });
    }
    proof {
        assert(unit_holds(Unit::MaybeInit, *db));
        assert forall|x: Rel| #[trigger] db_has(*db, x) <==> db_has(before, x) || unit_outputs(Unit::MaybeInit).contains(x) by {
            if unit_outputs(Unit::MaybeInit).contains(x) {
                let k = choose|k: int| 0 <= k < unit_outputs(Unit::MaybeInit).len() && unit_outputs(Unit::MaybeInit)[k] == x;
            }
        }
    }
    Ok(())
}

/// Runs [`VarDroppedWhileInit`] on `db`.
fn run_var_dropped_while_init(db: &mut Db) -> (r: Result<(), PipelineError>)
    requires
        forall|x: Rel| #[trigger] unit_inputs(Unit::VarDroppedWhileInit).contains(x) ==> db_has(*old(db), x),
    ensures
        r is Ok ==> {
            &&& extends(*old(db), *final(db))
            &&& unit_holds(Unit::VarDroppedWhileInit, *final(db))
            &&& forall|x: Rel| #[trigger] db_has(*final(db), x) <==> db_has(*old(db), x) || unit_outputs(Unit::VarDroppedWhileInit).contains(x)
        },
        r matches Err(e) ==> e matches PipelineError::Differs { relation, unit } && unit == Unit::VarDroppedWhileInit && unit_outputs(Unit::VarDroppedWhileInit).contains(
            relation,
        ) && db_has(*old(db), relation),
        (forall|x: Rel| #[trigger] unit_outputs(Unit::VarDroppedWhileInit).contains(x) ==> !db_has(*old(db), x)) ==> r is Ok,
        unit_holds(Unit::VarDroppedWhileInit, *old(db)) ==> r is Ok,
{
    assert(unit_inputs(Unit::VarDroppedWhileInit)[0] == Rel::VarDroppedAt);
    assert(unit_inputs(Unit::VarDroppedWhileInit).contains(Rel::VarDroppedAt));
    assert(unit_inputs(Unit::VarDroppedWhileInit)[1] == Rel::PathMaybeInitializedOnExit);
    assert(unit_inputs(Unit::VarDroppedWhileInit).contains(Rel::PathMaybeInitializedOnExit));
    assert(unit_inputs(Unit::VarDroppedWhileInit)[2] == Rel::PathBeginsWithVar);
    assert(unit_inputs(Unit::VarDroppedWhileInit).contains(Rel::PathBeginsWithVar));
    assert(unit_outputs(Unit::VarDroppedWhileInit)[0] == Rel::VarDroppedWhileInitAt);
    assert(unit_outputs(Unit::VarDroppedWhileInit).contains(Rel::VarDroppedWhileInitAt));
    let a0 = db.var_dropped_at.as_ref().unwrap();
    let a1 = db.path_maybe_initialized_on_exit.as_ref().unwrap();
    let a2 = db.path_begins_with_var.as_ref().unwrap();
    let out = VarDroppedWhileInit.compute(a0, a1, a2);
    proof {
        assert(s2(db.var_dropped_at) == a0@);
        assert(s2(db.path_maybe_initialized_on_exit) == a1@);
        assert(s2(db.path_begins_with_var) == a2@);
    }
    let ghost before = *db;
    proof {
        if unit_holds(Unit::VarDroppedWhileInit, *db) && db.var_dropped_while_init_at is Some {
            lemma_same_members2(s2(db.var_dropped_while_init_at), out@);
        }
    }
    if !store2(&mut db.var_dropped_while_init_at, out) {
        return Err(PipelineError::Differs { relation: Rel::VarDroppedWhileInitAt, unit: Unit::VarDroppedWhileInit });
    }
    proof {
        assert(unit_holds(Unit::VarDroppedWhileInit, *db));
        assert forall|x: Rel| #[trigger] db_has(*db, x) <==> db_has(before, x) || unit_outputs(Unit::VarDroppedWhileInit).contains(x) by {
            if unit_outputs(Unit::VarDroppedWhileInit).contains(x) {
                let k = choose|k: int| 0 <= k < unit_outputs(Unit::VarDroppedWhileInit).len() && unit_outputs(Unit::VarDroppedWhileInit)[k] == x;
            }
        }
    }
    Ok(())
}

/// Runs [`MaybeUninit`] on `db`.
fn run_maybe_uninit(db: &mut Db) -> (r: Result<(), PipelineError>)
    requires
        forall|x: Rel| #[trigger] unit_inputs(Unit::MaybeUninit).contains(x) ==> db_has(*old(db), x),
    ensures
        r is Ok ==> {
            &&& extends(*old(db), *final(db))
            &&& unit_holds(Unit::MaybeUninit, *final(db))
            &&& forall|x: Rel| #[trigger] db_has(*final(db), x) <==> db_has(*old(db), x) || unit_outputs(Unit::MaybeUninit).contains(x)
        },
        r matches Err(e) ==> e matches PipelineError::Differs { relation, unit } && unit == Unit::MaybeUninit && unit_outputs(Unit::MaybeUninit).contains(
            relation,
        ) && db_has(*old(db), relation),
        (forall|x: Rel| #[trigger] unit_outputs(Unit::MaybeUninit).contains(x) ==> !db_has(*old(db), x)) ==> r is Ok,
        unit_holds(Unit::MaybeUninit, *old(db)) ==> r is Ok,
{
    assert(unit_inputs(Unit::MaybeUninit)[0] == Rel::CfgEdge);
    assert(unit_inputs(Unit::MaybeUninit).contains(Rel::CfgEdge));
    assert(unit_inputs(Unit::MaybeUninit)[1] == Rel::PathMovedAt);
    assert(unit_inputs(Unit::MaybeUninit).contains(Rel::PathMovedAt));
    assert(unit_inputs(Unit::MaybeUninit)[2] == Rel::PathAssignedAt);
    assert(unit_inputs(Unit::MaybeUninit).contains(Rel::PathAssignedAt));
    assert(unit_outputs(Unit::MaybeUninit)[0] == Rel::PathMaybeUninitializedOnExit);
    assert(unit_outputs(Unit::MaybeUninit).contains(Rel::PathMaybeUninitializedOnExit));
    let a0 = db.cfg_edge.as_ref().unwrap();
    let a1 = db.path_moved_at.as_ref().unwrap();
    let a2 = db.path_assigned_at.as_ref().unwrap();
    let out = MaybeUninit.compute(a0, a1, a2);
    proof {
        assert(s2(db.cfg_edge) == a0@);
        assert(s2(db.path_moved_at) == a1@);
        assert(s2(db.path_assigned_at) == a2@);
    }
    let ghost before = *db;
    proof {
        if unit_holds(Unit::MaybeUninit, *db) && db.path_maybe_uninitialized_on_exit is Some {
            lemma_same_members2(s2(db.path_maybe_uninitialized_on_exit), out@);
        }
    }
    if !store2(&mut db.path_maybe_uninitialized_on_exit, out) {
        return Err(PipelineError::Differs { relation: Rel::PathMaybeUninitializedOnExit, unit: Unit::MaybeUninit });
    }
    proof {
        assert(unit_holds(Unit::MaybeUninit, *db));
        assert forall|x: Rel| #[trigger] db_has(*db, x) <==> db_has(before, x) || unit_outputs(Unit::MaybeUninit).contains(x) by {
            if unit_outputs(Unit::MaybeUninit).contains(x) {
                let k = choose|k: int| 0 <= k < unit_outputs(Unit::MaybeUninit).len() && unit_outputs(Unit::MaybeUninit)[k] == x;
            }
        }
    }
    Ok(())
}

/// Runs [`MoveError`] on `db`.
fn run_move_error(db: &mut Db) -> (r: Result<(), PipelineError>)
    requires
        forall|x: Rel| #[trigger] unit_inputs(Unit::MoveError).contains(x) ==> db_has(*old(db), x),
    ensures
        r is Ok ==> {
            &&& extends(*old(db), *final(db))
            &&& unit_holds(Unit::MoveError, *final(db))
            &&& forall|x: Rel| #[trigger] db_has(*final(db), x) <==> db_has(*old(db), x) || unit_outputs(Unit::MoveError).contains(x)
        },
        r matches Err(e) ==> e matches PipelineError::Differs { relation, unit } && unit == Unit::MoveError && unit_outputs(Unit::MoveError).contains(
            relation,
        ) && db_has(*old(db), relation),
        (forall|x: Rel| #[trigger] unit_outputs(Unit::MoveError).contains(x) ==> !db_has(*old(db), x)) ==> r is Ok,
        unit_holds(Unit::MoveError, *old(db)) ==> r is Ok,
{
    assert(unit_inputs(Unit::MoveError)[0] == Rel::CfgEdge);
    assert(unit_inputs(Unit::MoveError).contains(Rel::CfgEdge));
    assert(unit_inputs(Unit::MoveError)[1] == Rel::PathMaybeUninitializedOnExit);
    assert(unit_inputs(Unit::MoveError).contains(Rel::PathMaybeUninitializedOnExit));
    assert(unit_inputs(Unit::MoveError)[2] == Rel::PathAccessedAt);
    assert(unit_inputs(Unit::MoveError).contains(Rel::PathAccessedAt));
    assert(unit_outputs(Unit::MoveError)[0] == Rel::MoveErrors);
    assert(unit_outputs(Unit::MoveError).contains(Rel::MoveErrors));
    let a0 = db.cfg_edge.as_ref().unwrap();
    let a1 = db.path_maybe_uninitialized_on_exit.as_ref().unwrap();
    let a2 = db.path_accessed_at.as_ref().unwrap();
    let out = MoveError.compute(a0, a1, a2);
    proof {
        assert(s2(db.cfg_edge) == a0@);
        assert(s2(db.path_maybe_uninitialized_on_exit) == a1@);
        assert(s2(db.path_accessed_at) == a2@);
    }
    let ghost before = *db;
    proof {
        if unit_holds(Unit::MoveError, *db) && db.move_errors is Some {
            lemma_same_members2(s2(db.move_errors), out@);
        }
    }
    if !store2(&mut db.move_errors, out) {
        return Err(PipelineError::Differs { relation: Rel::MoveErrors, unit: Unit::MoveError });
    }
    proof {
        assert(unit_holds(Unit::MoveError, *db));
        assert forall|x: Rel| #[trigger] db_has(*db, x) <==> db_has(before, x) || unit_outputs(Unit::MoveError).contains(x) by {
            if unit_outputs(Unit::MoveError).contains(x) {
                let k = choose|k: int| 0 <= k < unit_outputs(Unit::MoveError).len() && unit_outputs(Unit::MoveError)[k] == x;
            }
        }
    }
    Ok(())
}

/// Runs [`KnownPlaceholder`] on `db`.
fn run_known_placeholder(db: &mut Db) -> (r: Result<(), PipelineError>)
    requires
        forall|x: Rel| #[trigger] unit_inputs(Unit::KnownPlaceholder).contains(x) ==> db_has(*old(db), x),
    ensures
        r is Ok ==> {
            &&& extends(*old(db), *final(db))
            &&& unit_holds(Unit::KnownPlaceholder, *final(db))
            &&& forall|x: Rel| #[trigger] db_has(*final(db), x) <==> db_has(*old(db), x) || unit_outputs(Unit::KnownPlaceholder).contains(x)
        },
        r matches Err(e) ==> e matches PipelineError::Differs { relation, unit } && unit == Unit::KnownPlaceholder && unit_outputs(Unit::KnownPlaceholder).contains(
            relation,
        ) && db_has(*old(db), relation),
        (forall|x: Rel| #[trigger] unit_outputs(Unit::KnownPlaceholder).contains(x) ==> !db_has(*old(db), x)) ==> r is Ok,
        unit_holds(Unit::KnownPlaceholder, *old(db)) ==> r is Ok,
{
    assert(unit_inputs(Unit::KnownPlaceholder)[0] == Rel::KnownPlaceholderSubsetBase);
    assert(unit_inputs(Unit::KnownPlaceholder).contains(Rel::KnownPlaceholderSubsetBase));
    assert(unit_outputs(Unit::KnownPlaceholder)[0] == Rel::KnownPlaceholderSubset);
    assert(unit_outputs(Unit::KnownPlaceholder).contains(Rel::KnownPlaceholderSubset));
    let a0 = db.known_placeholder_subset_base.as_ref().unwrap();
    let out = KnownPlaceholder.compute(a0);
    proof {
        assert(s2(db.known_placeholder_subset_base) == a0@);
    }
    let ghost before = *db;
    proof {
        if unit_holds(Unit::KnownPlaceholder, *db) && db.known_placeholder_subset is Some {
            lemma_same_members2(s2(db.known_placeholder_subset), out@);
        }
    }
    if !store2(&mut db.known_placeholder_subset, out) {
        return Err(PipelineError::Differs { relation: Rel::KnownPlaceholderSubset, unit: Unit::KnownPlaceholder });
    }
    proof {
        assert(unit_holds(Unit::KnownPlaceholder, *db));
        assert forall|x: Rel| #[trigger] db_has(*db, x) <==> db_has(before, x) || unit_outputs(Unit::KnownPlaceholder).contains(x) by {
            if unit_outputs(Unit::KnownPlaceholder).contains(x) {
                let k = choose|k: int| 0 <= k < unit_outputs(Unit::KnownPlaceholder).len() && unit_outputs(Unit::KnownPlaceholder)[k] == x;
            }
        }
    }
    Ok(())
}

/// Runs [`KnownPlaceholderLoans`] on `db`.
fn run_known_placeholder_loans(db: &mut Db) -> (r: Result<(), PipelineError>)
    requires
        forall|x: Rel| #[trigger] unit_inputs(Unit::KnownPlaceholderLoans).contains(x) ==> db_has(*old(db), x),
    ensures
        r is Ok ==> {
            &&& extends(*old(db), *final(db))
            &&& unit_holds(Unit::KnownPlaceholderLoans, *final(db))
            &&& forall|x: Rel| #[trigger] db_has(*final(db), x) <==> db_has(*old(db), x) || unit_outputs(Unit::KnownPlaceholderLoans).contains(x)
        },
        r matches Err(e) ==> e matches PipelineError::Differs { relation, unit } && unit == Unit::KnownPlaceholderLoans && unit_outputs(Unit::KnownPlaceholderLoans).contains(
            relation,
        ) && db_has(*old(db), relation),
        (forall|x: Rel| #[trigger] unit_outputs(Unit::KnownPlaceholderLoans).contains(x) ==> !db_has(*old(db), x)) ==> r is Ok,
        unit_holds(Unit::KnownPlaceholderLoans, *old(db)) ==> r is Ok,
{
    assert(unit_inputs(Unit::KnownPlaceholderLoans)[0] == Rel::KnownPlaceholderSubset);
    assert(unit_inputs(Unit::KnownPlaceholderLoans).contains(Rel::KnownPlaceholderSubset));
    assert(unit_inputs(Unit::KnownPlaceholderLoans)[1] == Rel::Placeholder);
    assert(unit_inputs(Unit::KnownPlaceholderLoans).contains(Rel::Placeholder));
    assert(unit_outputs(Unit::KnownPlaceholderLoans)[0] == Rel::KnownPlaceholderRequires);
    assert(unit_outputs(Unit::KnownPlaceholderLoans).contains(Rel::KnownPlaceholderRequires));
    let a0 = db.known_placeholder_subset.as_ref().unwrap();
    let a1 = db.placeholder.as_ref().unwrap();
    let out = KnownPlaceholderLoans.compute(a0, a1);
    proof {
        assert(s2(db.known_placeholder_subset) == a0@);
        assert(s2(db.placeholder) == a1@);
    }
    let ghost before = *db;
    proof {
        if unit_holds(Unit::KnownPlaceholderLoans, *db) && db.known_placeholder_requires is Some {
            lemma_same_members2(s2(db.known_placeholder_requires), out@);
        }
    }
    if !store2(&mut db.known_placeholder_requires, out) {
        return Err(PipelineError::Differs { relation: Rel::KnownPlaceholderRequires, unit: Unit::KnownPlaceholderLoans });
    }
    proof {
        assert(unit_holds(Unit::KnownPlaceholderLoans, *db));
        assert forall|x: Rel| #[trigger] db_has(*db, x) <==> db_has(before, x) || unit_outputs(Unit::KnownPlaceholderLoans).contains(x) by {
            if unit_outputs(Unit::KnownPlaceholderLoans).contains(x) {
                let k = choose|k: int| 0 <= k < unit_outputs(Unit::KnownPlaceholderLoans).len() && unit_outputs(Unit::KnownPlaceholderLoans)[k] == x;
            }
        }
    }
    Ok(())
}

/// Runs [`LiveOrigins`] on `db`.
fn run_live_origins(db: &mut Db) -> (r: Result<(), PipelineError>)
    requires
        forall|x: Rel| #[trigger] unit_inputs(Unit::LiveOrigins).contains(x) ==> db_has(*old(db), x),
    ensures
        r is Ok ==> {
            &&& extends(*old(db), *final(db))
            &&& unit_holds(Unit::LiveOrigins, *final(db))
            &&& forall|x: Rel| #[trigger] db_has(*final(db), x) <==> db_has(*old(db), x) || unit_outputs(Unit::LiveOrigins).contains(x)
        },
        r matches Err(e) ==> e matches PipelineError::Differs { relation, unit } && unit == Unit::LiveOrigins && unit_outputs(Unit::LiveOrigins).contains(
            relation,
        ) && db_has(*old(db), relation),
        (forall|x: Rel| #[trigger] unit_outputs(Unit::LiveOrigins).contains(x) ==> !db_has(*old(db), x)) ==> r is Ok,
        unit_holds(Unit::LiveOrigins, *old(db)) ==> r is Ok,
{
    assert(unit_inputs(Unit::LiveOrigins)[0] == Rel::CfgEdge);
    assert(unit_inputs(Unit::LiveOrigins).contains(Rel::CfgEdge));
    assert(unit_inputs(Unit::LiveOrigins)[1] == Rel::CfgNode);
    assert(unit_inputs(Unit::LiveOrigins).contains(Rel::CfgNode));
    assert(unit_inputs(Unit::LiveOrigins)[2] == Rel::VarDroppedWhileInitAt);
    assert(unit_inputs(Unit::LiveOrigins).contains(Rel::VarDroppedWhileInitAt));
    assert(unit_inputs(Unit::LiveOrigins)[3] == Rel::VarUsedAt);
    assert(unit_inputs(Unit::LiveOrigins).contains(Rel::VarUsedAt));
    assert(unit_inputs(Unit::LiveOrigins)[4] == Rel::VarDefinedAt);
    assert(unit_inputs(Unit::LiveOrigins).contains(Rel::VarDefinedAt));
    assert(unit_inputs(Unit::LiveOrigins)[5] == Rel::UseOfVarDerefsOrigin);
    assert(unit_inputs(Unit::LiveOrigins).contains(Rel::UseOfVarDerefsOrigin));
    assert(unit_inputs(Unit::LiveOrigins)[6] == Rel::DropOfVarDerefsOrigin);
    assert(unit_inputs(Unit::LiveOrigins).contains(Rel::DropOfVarDerefsOrigin));
    assert(unit_inputs(Unit::LiveOrigins)[7] == Rel::UniversalRegion);
    assert(unit_inputs(Unit::LiveOrigins).contains(Rel::UniversalRegion));
    assert(unit_outputs(Unit::LiveOrigins)[0] == Rel::OriginLiveOnEntry);
    assert(unit_outputs(Unit::LiveOrigins).contains(Rel::OriginLiveOnEntry));
    let a0 = db.cfg_edge.as_ref().unwrap();
    let a1 = db.cfg_node.as_ref().unwrap();
    let a2 = db.var_dropped_while_init_at.as_ref().unwrap();
    let a3 = db.var_used_at.as_ref().unwrap();
    let a4 = db.var_defined_at.as_ref().unwrap();
    let a5 = db.use_of_var_derefs_origin.as_ref().unwrap();
    let a6 = db.drop_of_var_derefs_origin.as_ref().unwrap();
    let a7 = db.universal_region.as_ref().unwrap();
    let out = LiveOrigins.compute(a0, a1, a2, a3, a4, a5, a6, a7);
    proof {
        assert(s2(db.cfg_edge) == a0@);
        assert(s1(db.cfg_node) == a1@);
        assert(s2(db.var_dropped_while_init_at) == a2@);
        assert(s2(db.var_used_at) == a3@);
        assert(s2(db.var_defined_at) == a4@);
        assert(s2(db.use_of_var_derefs_origin) == a5@);
        assert(s2(db.drop_of_var_derefs_origin) == a6@);
        assert(s1(db.universal_region) == a7@);
    }
    let ghost before = *db;
    proof {
        if unit_holds(Unit::LiveOrigins, *db) && db.origin_live_on_entry is Some {
            lemma_same_members2(s2(db.origin_live_on_entry), out@);
        }
    }
    if !store2(&mut db.origin_live_on_entry, out) {
        return Err(PipelineError::Differs { relation: Rel::OriginLiveOnEntry, unit: Unit::LiveOrigins });
    }
    proof {
        assert(unit_holds(Unit::LiveOrigins, *db));
        assert forall|x: Rel| #[trigger] db_has(*db, x) <==> db_has(before, x) || unit_outputs(Unit::LiveOrigins).contains(x) by {
            if unit_outputs(Unit::LiveOrigins).contains(x) {
                let k = choose|k: int| 0 <= k < unit_outputs(Unit::LiveOrigins).len() && unit_outputs(Unit::LiveOrigins)[k] == x;
            }
        }
    }
    Ok(())
}

/// Runs the location-sensitive borrow check `u` ([`BorrowckNaive`] or the unit of the optimized
/// variants) on `db`.
fn run_borrowck(u: Unit, db: &mut Db) -> (r: Result<(), PipelineError>)
    requires
        u == Unit::BorrowckNaive || u == Unit::BorrowckOptimized,
        forall|x: Rel| #[trigger] unit_inputs(u).contains(x) ==> db_has(*old(db), x),
    ensures
        r is Ok ==> {
            &&& extends(*old(db), *final(db))
            &&& unit_holds(u, *final(db))
            &&& forall|x: Rel| #[trigger] db_has(*final(db), x) <==> db_has(*old(db), x) || unit_outputs(u).contains(x)
        },
        r matches Err(e) ==> e matches PipelineError::Differs { relation, unit } && unit == u && unit_outputs(u).contains(
            relation,
        ) && db_has(*old(db), relation),
        (forall|x: Rel| #[trigger] unit_outputs(u).contains(x) ==> !db_has(*old(db), x)) ==> r is Ok,
        unit_holds(u, *old(db)) ==> r is Ok,
{
    proof {
        lemma_borrowck_relations(u);
    }
    let a0 = db.subset_base.as_ref().unwrap();
    let a1 = db.loan_issued_at.as_ref().unwrap();
    let a2 = db.cfg_edge.as_ref().unwrap();
    let a3 = db.origin_live_on_entry.as_ref().unwrap();
    let a4 = db.loan_killed_at.as_ref().unwrap();
    let a5 = db.loan_invalidated_at.as_ref().unwrap();
    let a6 = db.known_placeholder_subset.as_ref().unwrap();
    let a7 = db.universal_region.as_ref().unwrap();
    let out = BorrowckNaive.compute(a0, a1, a2, a3, a4, a5, a6, a7);
    proof {
        assert(s3(db.subset_base) == a0@);
        assert(s3(db.loan_issued_at) == a1@);
        assert(s2(db.cfg_edge) == a2@);
        assert(s2(db.origin_live_on_entry) == a3@);
        assert(s2(db.loan_killed_at) == a4@);
        assert(s2(db.loan_invalidated_at) == a5@);
        assert(s2(db.known_placeholder_subset) == a6@);
        assert(s1(db.universal_region) == a7@);
    }
    let ghost s = out.subset@.to_set();
    let ghost c = out.origin_contains_loan_on_entry@.to_set();
    let ghost live_at = out.loan_live_at@;
    let ghost before = *db;
    proof {
        if unit_holds(u, *db) {
            let sr = subset_rules(s3(db.subset_base).to_set(), s2(db.cfg_edge).to_set(), s2(db.origin_live_on_entry).to_set());
            let (s0, c0) = choose|s0: Set<(u32, u32, u32)>, c0: Set<(u32, u32, u32)>| {
                &&& least_closed(sr, s0)
                &&& least_closed(
                    contains_rules(
                        s3(db.loan_issued_at).to_set(),
                        s2(db.loan_killed_at).to_set(),
                        s2(db.cfg_edge).to_set(),
                        s2(db.origin_live_on_entry).to_set(),
                        s0,
                    ),
                    c0,
                )
                &&& forall|l: u32, p: u32| #[trigger] s2(db.errors).contains((l, p)) <==> {
                    &&& s2(db.loan_invalidated_at).contains((l, p))
                    &&& exists|o: u32| #[trigger] c0.contains((o, l, p)) && s2(db.origin_live_on_entry).contains((o, p))
                }
                &&& forall|a: u32, b: u32, p: u32| #[trigger] s3(db.subset_errors).contains((a, b, p)) <==> {
                    &&& s0.contains((a, b, p))
                    &&& s1(db.universal_region).contains(a)
                    &&& s1(db.universal_region).contains(b)
                    &&& !s2(db.known_placeholder_subset).contains((a, b))
                }
            };
            lemma_least_closed_unique(sr, s0, s);
            lemma_least_closed_unique(
                contains_rules(
                    s3(db.loan_issued_at).to_set(),
                    s2(db.loan_killed_at).to_set(),
                    s2(db.cfg_edge).to_set(),
                    s2(db.origin_live_on_entry).to_set(),
                    s,
                ),
                c0,
                c,
            );
            assert forall|l: u32, p: u32| #[trigger] s2(db.errors).contains((l, p)) <==> out.errors@.contains((l, p)) by {
                if live_at.contains((l, p)) {
                    let o = choose|o: u32| out.origin_contains_loan_on_entry@.contains((o, l, p)) && s2(db.origin_live_on_entry).contains((o, p));
                    assert(c.contains((o, l, p)));
                }
                if exists|o: u32| c.contains((o, l, p)) && s2(db.origin_live_on_entry).contains((o, p)) {
                    let o = choose|o: u32| c.contains((o, l, p)) && s2(db.origin_live_on_entry).contains((o, p));
                    assert(out.origin_contains_loan_on_entry@.contains((o, l, p)));
                }
            }
            assert forall|a: u32, b: u32, p: u32| #[trigger] s3(db.subset_errors).contains((a, b, p)) <==> out.subset_errors@.contains((a, b, p)) by {
                assert(s.contains((a, b, p)) == out.subset@.contains((a, b, p)));
            }
            if db.errors is Some {
                lemma_same_members2(s2(db.errors), out.errors@);
            }
            if db.subset_errors is Some {
                lemma_same_members3(s3(db.subset_errors), out.subset_errors@);
            }
        }
    }
    if !store2(&mut db.errors, out.errors) {
        return Err(PipelineError::Differs { relation: Rel::Errors, unit: u });
    }
    if !store3(&mut db.subset_errors, out.subset_errors) {
        return Err(PipelineError::Differs { relation: Rel::SubsetErrors, unit: u });
    }
    proof {
        assert forall|l: u32, p: u32| #[trigger] s2(db.errors).contains((l, p)) <==> {
            &&& s2(db.loan_invalidated_at).contains((l, p))
            &&& exists|o: u32| #[trigger] c.contains((o, l, p)) && s2(db.origin_live_on_entry).contains((o, p))
        } by {
            if live_at.contains((l, p)) {
                let o = choose|o: u32| out.origin_contains_loan_on_entry@.contains((o, l, p)) && s2(db.origin_live_on_entry).contains((o, p));
                assert(c.contains((o, l, p)));
            }
            if exists|o: u32| c.contains((o, l, p)) && s2(db.origin_live_on_entry).contains((o, p)) {
                let o = choose|o: u32| c.contains((o, l, p)) && s2(db.origin_live_on_entry).contains((o, p));
                assert(out.origin_contains_loan_on_entry@.contains((o, l, p)));
            }
        }
        assert forall|a: u32, b: u32, p: u32| #[trigger] s3(db.subset_errors).contains((a, b, p)) <==> {
            &&& s.contains((a, b, p))
            &&& s1(db.universal_region).contains(a)
            &&& s1(db.universal_region).contains(b)
            &&& !s2(db.known_placeholder_subset).contains((a, b))
        } by {
            assert(s.contains((a, b, p)) == out.subset@.contains((a, b, p)));
        }
        assert(least_closed(subset_rules(s3(db.subset_base).to_set(), s2(db.cfg_edge).to_set(), s2(db.origin_live_on_entry).to_set()), s));
        assert(least_closed(contains_rules(s3(db.loan_issued_at).to_set(), s2(db.loan_killed_at).to_set(), s2(db.cfg_edge).to_set(), s2(db.origin_live_on_entry).to_set(), s), c));
        assert(unit_holds(u, *db));
        assert forall|x: Rel| #[trigger] db_has(*db, x) <==> db_has(before, x) || unit_outputs(u).contains(x) by {
            if unit_outputs(u).contains(x) {
                let k = choose|k: int| 0 <= k < unit_outputs(u).len() && unit_outputs(u)[k] == x;
            }
        }
    }
    Ok(())
}

/// Runs [`BorrowckLocationInsensitive`] on `db`.
fn run_borrowck_location_insensitive(db: &mut Db) -> (r: Result<(), PipelineError>)
    requires
        forall|x: Rel| #[trigger] unit_inputs(Unit::BorrowckLocationInsensitive).contains(x) ==> db_has(*old(db), x),
    ensures
        r is Ok ==> {
            &&& extends(*old(db), *final(db))
            &&& unit_holds(Unit::BorrowckLocationInsensitive, *final(db))
            &&& forall|x: Rel| #[trigger] db_has(*final(db), x) <==> db_has(*old(db), x) || unit_outputs(Unit::BorrowckLocationInsensitive).contains(x)
        },
        r matches Err(e) ==> e matches PipelineError::Differs { relation, unit } && unit == Unit::BorrowckLocationInsensitive && unit_outputs(Unit::BorrowckLocationInsensitive).contains(
            relation,
        ) && db_has(*old(db), relation),
        (forall|x: Rel| #[trigger] unit_outputs(Unit::BorrowckLocationInsensitive).contains(x) ==> !db_has(*old(db), x)) ==> r is Ok,
        unit_holds(Unit::BorrowckLocationInsensitive, *old(db)) ==> r is Ok,
{
    assert(unit_inputs(Unit::BorrowckLocationInsensitive)[0] == Rel::OriginLiveOnEntry);
    assert(unit_inputs(Unit::BorrowckLocationInsensitive).contains(Rel::OriginLiveOnEntry));
    assert(unit_inputs(Unit::BorrowckLocationInsensitive)[1] == Rel::LoanInvalidatedAt);
    assert(unit_inputs(Unit::BorrowckLocationInsensitive).contains(Rel::LoanInvalidatedAt));
    assert(unit_inputs(Unit::BorrowckLocationInsensitive)[2] == Rel::KnownPlaceholderRequires);
    assert(unit_inputs(Unit::BorrowckLocationInsensitive).contains(Rel::KnownPlaceholderRequires));
    assert(unit_inputs(Unit::BorrowckLocationInsensitive)[3] == Rel::Placeholder);
    assert(unit_inputs(Unit::BorrowckLocationInsensitive).contains(Rel::Placeholder));
    assert(unit_inputs(Unit::BorrowckLocationInsensitive)[4] == Rel::LoanIssuedAt);
    assert(unit_inputs(Unit::BorrowckLocationInsensitive).contains(Rel::LoanIssuedAt));
    assert(unit_inputs(Unit::BorrowckLocationInsensitive)[5] == Rel::SubsetBase);
    assert(unit_inputs(Unit::BorrowckLocationInsensitive).contains(Rel::SubsetBase));
    assert(unit_outputs(Unit::BorrowckLocationInsensitive)[0] == Rel::PotentialErrors);
    assert(unit_outputs(Unit::BorrowckLocationInsensitive).contains(Rel::PotentialErrors));
    assert(unit_outputs(Unit::BorrowckLocationInsensitive)[1] == Rel::PotentialSubsetErrors);
    assert(unit_outputs(Unit::BorrowckLocationInsensitive).contains(Rel::PotentialSubsetErrors));
    let a0 = db.origin_live_on_entry.as_ref().unwrap();
    let a1 = db.loan_invalidated_at.as_ref().unwrap();
    let a2 = db.known_placeholder_requires.as_ref().unwrap();
    let a3 = db.placeholder.as_ref().unwrap();
    let a4 = db.loan_issued_at.as_ref().unwrap();
    let a5 = db.subset_base.as_ref().unwrap();
    let out = BorrowckLocationInsensitive.compute(a0, a1, a2, a3, a4, a5);
    proof {
        assert(s2(db.origin_live_on_entry) == a0@);
        assert(s2(db.loan_invalidated_at) == a1@);
        assert(s2(db.known_placeholder_requires) == a2@);
        assert(s2(db.placeholder) == a3@);
        assert(s3(db.loan_issued_at) == a4@);
        assert(s3(db.subset_base) == a5@);
    }
    let ghost before = *db;
    proof {
        if unit_holds(Unit::BorrowckLocationInsensitive, *db) {
            if db.potential_errors is Some {
                lemma_same_members2(s2(db.potential_errors), out.potential_errors@);
            }
            if db.potential_subset_errors is Some {
                lemma_same_members2(s2(db.potential_subset_errors), out.potential_subset_errors@);
            }
        }
    }
    if !store2(&mut db.potential_errors, out.potential_errors) {
        return Err(PipelineError::Differs { relation: Rel::PotentialErrors, unit: Unit::BorrowckLocationInsensitive });
    }
    if !store2(&mut db.potential_subset_errors, out.potential_subset_errors) {
        return Err(PipelineError::Differs { relation: Rel::PotentialSubsetErrors, unit: Unit::BorrowckLocationInsensitive });
    }
    proof {
        assert(unit_holds(Unit::BorrowckLocationInsensitive, *db));
        assert forall|x: Rel| #[trigger] db_has(*db, x) <==> db_has(before, x) || unit_outputs(Unit::BorrowckLocationInsensitive).contains(x) by {
            if unit_outputs(Unit::BorrowckLocationInsensitive).contains(x) {
                let k = choose|k: int| 0 <= k < unit_outputs(Unit::BorrowckLocationInsensitive).len() && unit_outputs(Unit::BorrowckLocationInsensitive)[k] == x;
            }
        }
    }
    Ok(())
}

/// Runs [`BorrowckLocationInsensitiveAsSensitive`] on `db`.
fn run_borrowck_location_insensitive_as_sensitive(db: &mut Db) -> (r: Result<(), PipelineError>)
    requires
        forall|x: Rel| #[trigger] unit_inputs(Unit::BorrowckLocationInsensitiveAsSensitive).contains(x) ==> db_has(*old(db), x),
    ensures
        r is Ok ==> {
            &&& extends(*old(db), *final(db))
            &&& unit_holds(Unit::BorrowckLocationInsensitiveAsSensitive, *final(db))
            &&& forall|x: Rel| #[trigger] db_has(*final(db), x) <==> db_has(*old(db), x) || unit_outputs(Unit::BorrowckLocationInsensitiveAsSensitive).contains(x)
        },
        r matches Err(e) ==> e matches PipelineError::Differs { relation, unit } && unit == Unit::BorrowckLocationInsensitiveAsSensitive && unit_outputs(Unit::BorrowckLocationInsensitiveAsSensitive).contains(
            relation,
        ) && db_has(*old(db), relation),
        (forall|x: Rel| #[trigger] unit_outputs(Unit::BorrowckLocationInsensitiveAsSensitive).contains(x) ==> !db_has(*old(db), x)) ==> r is Ok,
        unit_holds(Unit::BorrowckLocationInsensitiveAsSensitive, *old(db)) ==> r is Ok,
{
    assert(unit_inputs(Unit::BorrowckLocationInsensitiveAsSensitive)[0] == Rel::PotentialErrors);
    assert(unit_inputs(Unit::BorrowckLocationInsensitiveAsSensitive).contains(Rel::PotentialErrors));
    assert(unit_inputs(Unit::BorrowckLocationInsensitiveAsSensitive)[1] == Rel::PotentialSubsetErrors);
    assert(unit_inputs(Unit::BorrowckLocationInsensitiveAsSensitive).contains(Rel::PotentialSubsetErrors));
    assert(unit_outputs(Unit::BorrowckLocationInsensitiveAsSensitive)[0] == Rel::Errors);
    assert(unit_outputs(Unit::BorrowckLocationInsensitiveAsSensitive).contains(Rel::Errors));
    assert(unit_outputs(Unit::BorrowckLocationInsensitiveAsSensitive)[1] == Rel::SubsetErrors);
    assert(unit_outputs(Unit::BorrowckLocationInsensitiveAsSensitive).contains(Rel::SubsetErrors));
    let a0 = db.potential_errors.as_ref().unwrap();
    let a1 = db.potential_subset_errors.as_ref().unwrap();
    let out = BorrowckLocationInsensitiveAsSensitive.compute(a0, a1);
    proof {
        assert(s2(db.potential_errors) == a0@);
        assert(s2(db.potential_subset_errors) == a1@);
    }
    let ghost before = *db;
    proof {
        if unit_holds(Unit::BorrowckLocationInsensitiveAsSensitive, *db) && db.subset_errors is Some {
            lemma_same_members3(s3(db.subset_errors), out.subset_errors@);
        }
    }
    if !store2(&mut db.errors, out.errors) {
        return Err(PipelineError::Differs { relation: Rel::Errors, unit: Unit::BorrowckLocationInsensitiveAsSensitive });
    }
    if !store3(&mut db.subset_errors, out.subset_errors) {
        return Err(PipelineError::Differs { relation: Rel::SubsetErrors, unit: Unit::BorrowckLocationInsensitiveAsSensitive });
    }
    proof {
        assert(unit_holds(Unit::BorrowckLocationInsensitiveAsSensitive, *db));
        assert forall|x: Rel| #[trigger] db_has(*db, x) <==> db_has(before, x) || unit_outputs(Unit::BorrowckLocationInsensitiveAsSensitive).contains(x) by {
            if unit_outputs(Unit::BorrowckLocationInsensitiveAsSensitive).contains(x) {
                let k = choose|k: int| 0 <= k < unit_outputs(Unit::BorrowckLocationInsensitiveAsSensitive).len() && unit_outputs(Unit::BorrowckLocationInsensitiveAsSensitive)[k] == x;
            }
        }
    }
    Ok(())
}

/// Runs the unit `u` on `db`: loads its inputs, runs its computation, and stores its outputs.
fn run_unit(u: Unit, db: &mut Db) -> (r: Result<(), PipelineError>)
    requires
        forall|x: Rel| #[trigger] unit_inputs(u).contains(x) ==> db_has(*old(db), x),
    ensures
        r is Ok ==> {
            &&& extends(*old(db), *final(db))
            &&& unit_holds(u, *final(db))
            &&& forall|x: Rel| #[trigger] db_has(*final(db), x) <==> db_has(*old(db), x) || unit_outputs(u).contains(x)
        },
        r matches Err(e) ==> e matches PipelineError::Differs { relation, unit } && unit == u && unit_outputs(u).contains(relation)
            && db_has(*old(db), relation),
        (forall|x: Rel| #[trigger] unit_outputs(u).contains(x) ==> !db_has(*old(db), x)) ==> r is Ok,
        unit_holds(u, *old(db)) ==> r is Ok,
{
    match u {
        Unit::Cfg => run_cfg(db),
        Unit::Paths => run_paths(db),
        Unit::MaybeInit => run_maybe_init(db),
        Unit::VarDroppedWhileInit => run_var_dropped_while_init(db),
        Unit::MaybeUninit => run_maybe_uninit(db),
        Unit::MoveError => run_move_error(db),
        Unit::KnownPlaceholder => run_known_placeholder(db),
        Unit::KnownPlaceholderLoans => run_known_placeholder_loans(db),
        Unit::LiveOrigins => run_live_origins(db),
        Unit::BorrowckNaive | Unit::BorrowckOptimized => run_borrowck(u, db),
        Unit::BorrowckLocationInsensitive => run_borrowck_location_insensitive(db),
        Unit::BorrowckLocationInsensitiveAsSensitive => run_borrowck_location_insensitive_as_sensitive(db),
    }
}

/// The relations that the facts provide.
fn facts_relation_list() -> (r: Vec<Rel>)
    ensures
        r@ == facts_relations(),
{
    vec![Rel::LoanIssuedAt, Rel::UniversalRegion, Rel::CfgEdge, Rel::LoanKilledAt, Rel::SubsetBase, Rel::LoanInvalidatedAt, Rel::VarUsedAt, Rel::VarDefinedAt, Rel::VarDroppedAt, Rel::UseOfVarDerefsOrigin, Rel::DropOfVarDerefsOrigin, Rel::ChildPath, Rel::PathIsVar, Rel::PathAssignedAtBase, Rel::PathMovedAtBase, Rel::PathAccessedAtBase, Rel::KnownPlaceholderSubsetBase, Rel::Placeholder]
}

/// Whether no unit computes a relation that the inputs or a unit before it provide.
pub open spec fn computes_once(inputs: Seq<Rel>, units: Seq<Unit>) -> bool {
    forall|i: int, r: Rel| 0 <= i < units.len() && #[trigger] unit_outputs(units[i]).contains(r) ==> !provided(inputs, units, i).contains(r)
}

/// The relations that the first `i + 1` units provide are those the first `i` provide and
/// the outputs of the `i`-th.
proof fn lemma_provided_next(inputs: Seq<Rel>, units: Seq<Unit>, i: int)
    requires
        0 <= i < units.len(),
    ensures
        forall|r: Rel| #[trigger] provided(inputs, units, i + 1).contains(r) <==> provided(inputs, units, i).contains(r) || unit_outputs(
            units[i],
        ).contains(r),
{
    assert forall|r: Rel| #[trigger] provided(inputs, units, i + 1).contains(r) <==> provided(inputs, units, i).contains(r) || unit_outputs(
        units[i],
    ).contains(r) by {
        if provided(inputs, units, i + 1).contains(r) && !inputs.contains(r) {
            let j = choose|j: int| 0 <= j < i + 1 && #[trigger] unit_outputs(units[j]).contains(r);
            if j < i {
                assert(provided(inputs, units, i).contains(r));
            }
        }
        if provided(inputs, units, i).contains(r) && !inputs.contains(r) {
            let j = choose|j: int| 0 <= j < i && #[trigger] unit_outputs(units[j]).contains(r);
            assert(0 <= j < i + 1);
        }
        if unit_outputs(units[i]).contains(r) {
            assert(0 <= i < i + 1 && unit_outputs(units[i]).contains(r));
        }
    }
}

/// What the relations provided before a unit hold, those provided later hold too.
proof fn lemma_provided_grows(inputs: Seq<Rel>, units: Seq<Unit>, i: int, j: int, r: Rel)
    requires
        0 <= i <= j <= units.len(),
        provided(inputs, units, i).contains(r),
    ensures
        provided(inputs, units, j).contains(r),
{
    if !inputs.contains(r) {
        let k = choose|k: int| 0 <= k < i && #[trigger] unit_outputs(units[k]).contains(r);
        assert(0 <= k < j);
    }
}

impl Pipeline {
    /// Stores the facts and runs each unit in order. The database holds in the end the facts, and for each unit, the
    /// outputs that its computation gives for its inputs; it holds those relations and no
    /// others. A relation that a unit computes where it is already held must come out the
    /// same: the pipeline stops with [`PipelineError::Differs`] where, and only where, a unit
    /// finds held outputs that are not what it computes from the relations held before it.
    /// The pipeline must be valid for the facts and the `outputs`: [`Pipeline::validate`]
    /// tells whether it is.
    pub fn compute(&self, facts: &AllFacts, outputs: &Vec<Rel>) -> (r: Result<Db, PipelineError>)
        requires
            pipeline_valid(facts_relations(), self.0@, outputs@),
        ensures
            r matches Ok(db) ==> {
                &&& holds_facts(db, *facts)
                &&& forall|i: int| 0 <= i < self.0@.len() ==> #[trigger] unit_holds(self.0@[i], db)
                &&& forall|x: Rel| #[trigger] db_has(db, x) <==> provided(facts_relations(), self.0@, self.0@.len() as int).contains(x)
            },
            r is Err ==> r->Err_0 is Differs,
            r matches Err(PipelineError::Differs { relation, unit }) ==> exists|i: int, db: Db|
                #![trigger runs(*facts, self.0@.take(i), db)]
                {
                &&& 0 <= i < self.0@.len()
                &&& self.0@[i] == unit
                &&& unit_outputs(unit).contains(relation)
                &&& provided(facts_relations(), self.0@, i).contains(relation)
                &&& runs(*facts, self.0@.take(i), db)
                &&& forall|x: Rel| #[trigger] db_has(db, x) <==> provided(facts_relations(), self.0@, i).contains(x)
                &&& !unit_holds(unit, db)
            },
            computes_once(facts_relations(), self.0@) ==> r is Ok,
    {
        let ghost units = self.0@;
        let inputs = facts_relation_list();
        match self.validate(&inputs, outputs) {
            Err(e) => {
                return Err(e);
            },
            Ok(()) => {},
        }
        let mut db = Db::from_facts(facts);
        let mut i: usize = 0;
        while i < self.0.len()
            invariant
                i <= units.len(),
                units == self.0@,
                pipeline_valid(facts_relations(), units, outputs@),
                holds_facts(db, *facts),
                forall|x: Rel| #[trigger] db_has(db, x) <==> provided(facts_relations(), units, i as int).contains(x),
                forall|j: int| 0 <= j < i ==> #[trigger] unit_holds(units[j], db),
                computes_once(facts_relations(), units) ==> forall|j: int, x: Rel|
                    i <= j < units.len() && #[trigger] unit_outputs(units[j]).contains(x) ==> !provided(facts_relations(), units, j).contains(x),
            decreases units.len() - i,
        {
            let unit = self.0[i];
            let ghost before = db;
            proof {
                assert(unit_ready(facts_relations(), units, i as int));
            }
            match run_unit(unit, &mut db) {
                Err(e) => {
                    proof {
                        let relation = e->Differs_relation;
                        assert(unit_outputs(unit).contains(relation));
                        assert(provided(facts_relations(), units, i as int).contains(relation));
                        assert forall|j: int| 0 <= j < units.take(i as int).len() implies #[trigger] unit_holds(units.take(i as int)[j], before) by {
                            assert(units.take(i as int)[j] == units[j]);
                        }
                        assert(runs(*facts, units.take(i as int), before));
                    }
                    return Err(e);
                },
                Ok(()) => {},
            }
            proof {
                lemma_provided_next(facts_relations(), units, i as int);
                assert forall|j: int| 0 <= j < i + 1 implies #[trigger] unit_holds(units[j], db) by {
                    if j < i {
                        assert(unit_ready(facts_relations(), units, j));
                        lemma_provided_next(facts_relations(), units, j);
                        assert forall|x: Rel| #[trigger] unit_inputs(units[j]).contains(x) implies db_has(before, x) by {
                            lemma_provided_grows(facts_relations(), units, j, i as int, x);
                        }
                        assert forall|x: Rel| #[trigger] unit_outputs(units[j]).contains(x) implies db_has(before, x) by {
                            assert(provided(facts_relations(), units, j + 1).contains(x));
                            lemma_provided_grows(facts_relations(), units, j + 1, i as int, x);
                        }
                        lemma_unit_holds_extends(units[j], before, db);
                    }
                }
            }
            i = i + 1;
        }
        Ok(db)
    }
}

/// Whether the unit `u` computes the relation `r`.
pub open spec fn produces(u: Unit, r: Rel) -> bool {
    match u {
        Unit::Cfg => r == Rel::CfgNode,
        Unit::Paths => r == Rel::PathMovedAt || r == Rel::PathAssignedAt || r == Rel::PathAccessedAt || r == Rel::PathBeginsWithVar,
        Unit::MaybeInit => r == Rel::PathMaybeInitializedOnExit,
        Unit::VarDroppedWhileInit => r == Rel::VarDroppedWhileInitAt,
        Unit::MaybeUninit => r == Rel::PathMaybeUninitializedOnExit,
        Unit::MoveError => r == Rel::MoveErrors,
        Unit::KnownPlaceholder => r == Rel::KnownPlaceholderSubset,
        Unit::KnownPlaceholderLoans => r == Rel::KnownPlaceholderRequires,
        Unit::LiveOrigins => r == Rel::OriginLiveOnEntry,
        Unit::BorrowckNaive => r == Rel::Errors || r == Rel::SubsetErrors,
        Unit::BorrowckOptimized => r == Rel::Errors || r == Rel::SubsetErrors,
        Unit::BorrowckLocationInsensitive => r == Rel::PotentialErrors || r == Rel::PotentialSubsetErrors,
        Unit::BorrowckLocationInsensitiveAsSensitive => r == Rel::Errors || r == Rel::SubsetErrors,
    }
}

/// Whether the unit `u` reads the relation `r`.
pub open spec fn consumes(u: Unit, r: Rel) -> bool {
    match u {
        Unit::Cfg => r == Rel::CfgEdge,
        Unit::Paths => r == Rel::ChildPath || r == Rel::PathIsVar || r == Rel::PathMovedAtBase || r == Rel::PathAssignedAtBase || r == Rel::PathAccessedAtBase,
        Unit::MaybeInit => r == Rel::CfgEdge || r == Rel::PathMovedAt || r == Rel::PathAssignedAt,
        Unit::VarDroppedWhileInit => r == Rel::VarDroppedAt || r == Rel::PathMaybeInitializedOnExit || r == Rel::PathBeginsWithVar,
        Unit::MaybeUninit => r == Rel::CfgEdge || r == Rel::PathMovedAt || r == Rel::PathAssignedAt,
        Unit::MoveError => r == Rel::CfgEdge || r == Rel::PathMaybeUninitializedOnExit || r == Rel::PathAccessedAt,
        Unit::KnownPlaceholder => r == Rel::KnownPlaceholderSubsetBase,
        Unit::KnownPlaceholderLoans => r == Rel::KnownPlaceholderSubset || r == Rel::Placeholder,
        Unit::LiveOrigins => r == Rel::CfgEdge || r == Rel::CfgNode || r == Rel::VarDroppedWhileInitAt || r == Rel::VarUsedAt || r == Rel::VarDefinedAt || r == Rel::UseOfVarDerefsOrigin || r == Rel::DropOfVarDerefsOrigin || r == Rel::UniversalRegion,
        Unit::BorrowckNaive => r == Rel::SubsetBase || r == Rel::LoanIssuedAt || r == Rel::CfgEdge || r == Rel::OriginLiveOnEntry || r == Rel::LoanKilledAt || r == Rel::LoanInvalidatedAt || r == Rel::KnownPlaceholderSubset || r == Rel::UniversalRegion,
        Unit::BorrowckOptimized => r == Rel::SubsetBase || r == Rel::LoanIssuedAt || r == Rel::CfgEdge || r == Rel::OriginLiveOnEntry || r == Rel::LoanKilledAt || r == Rel::LoanInvalidatedAt || r == Rel::KnownPlaceholderSubset || r == Rel::UniversalRegion,
        Unit::BorrowckLocationInsensitive => r == Rel::OriginLiveOnEntry || r == Rel::LoanInvalidatedAt || r == Rel::KnownPlaceholderRequires || r == Rel::Placeholder || r == Rel::LoanIssuedAt || r == Rel::SubsetBase,
        Unit::BorrowckLocationInsensitiveAsSensitive => r == Rel::PotentialErrors || r == Rel::PotentialSubsetErrors,
    }
}

proof fn lemma_unit_relations(u: Unit, r: Rel)
    ensures
        unit_outputs(u).contains(r) <==> produces(u, r),
        unit_inputs(u).contains(r) <==> consumes(u, r),
{
    match u {
        Unit::Cfg => {
            assert(unit_inputs(u)[0] == Rel::CfgEdge);
            assert(unit_outputs(u)[0] == Rel::CfgNode);
        },
        Unit::Paths => {
            assert(unit_inputs(u)[0] == Rel::ChildPath);
            assert(unit_inputs(u)[1] == Rel::PathIsVar);
            assert(unit_inputs(u)[2] == Rel::PathMovedAtBase);
            assert(unit_inputs(u)[3] == Rel::PathAssignedAtBase);
            assert(unit_inputs(u)[4] == Rel::PathAccessedAtBase);
            assert(unit_outputs(u)[0] == Rel::PathMovedAt);
            assert(unit_outputs(u)[1] == Rel::PathAssignedAt);
            assert(unit_outputs(u)[2] == Rel::PathAccessedAt);
            assert(unit_outputs(u)[3] == Rel::PathBeginsWithVar);
        },
        Unit::MaybeInit => {
            assert(unit_inputs(u)[0] == Rel::CfgEdge);
            assert(unit_inputs(u)[1] == Rel::PathMovedAt);
            assert(unit_inputs(u)[2] == Rel::PathAssignedAt);
            assert(unit_outputs(u)[0] == Rel::PathMaybeInitializedOnExit);
        },
        Unit::VarDroppedWhileInit => {
            assert(unit_inputs(u)[0] == Rel::VarDroppedAt);
            assert(unit_inputs(u)[1] == Rel::PathMaybeInitializedOnExit);
            assert(unit_inputs(u)[2] == Rel::PathBeginsWithVar);
            assert(unit_outputs(u)[0] == Rel::VarDroppedWhileInitAt);
        },
        Unit::MaybeUninit => {
            assert(unit_inputs(u)[0] == Rel::CfgEdge);
            assert(unit_inputs(u)[1] == Rel::PathMovedAt);
            assert(unit_inputs(u)[2] == Rel::PathAssignedAt);
            assert(unit_outputs(u)[0] == Rel::PathMaybeUninitializedOnExit);
        },
        Unit::MoveError => {
            assert(unit_inputs(u)[0] == Rel::CfgEdge);
            assert(unit_inputs(u)[1] == Rel::PathMaybeUninitializedOnExit);
            assert(unit_inputs(u)[2] == Rel::PathAccessedAt);
            assert(unit_outputs(u)[0] == Rel::MoveErrors);
        },
        Unit::KnownPlaceholder => {
            assert(unit_inputs(u)[0] == Rel::KnownPlaceholderSubsetBase);
            assert(unit_outputs(u)[0] == Rel::KnownPlaceholderSubset);
        },
        Unit::KnownPlaceholderLoans => {
            assert(unit_inputs(u)[0] == Rel::KnownPlaceholderSubset);
            assert(unit_inputs(u)[1] == Rel::Placeholder);
            assert(unit_outputs(u)[0] == Rel::KnownPlaceholderRequires);
        },
        Unit::LiveOrigins => {
            assert(unit_inputs(u)[0] == Rel::CfgEdge);
            assert(unit_inputs(u)[1] == Rel::CfgNode);
            assert(unit_inputs(u)[2] == Rel::VarDroppedWhileInitAt);
            assert(unit_inputs(u)[3] == Rel::VarUsedAt);
            assert(unit_inputs(u)[4] == Rel::VarDefinedAt);
            assert(unit_inputs(u)[5] == Rel::UseOfVarDerefsOrigin);
            assert(unit_inputs(u)[6] == Rel::DropOfVarDerefsOrigin);
            assert(unit_inputs(u)[7] == Rel::UniversalRegion);
            assert(unit_outputs(u)[0] == Rel::OriginLiveOnEntry);
        },
        Unit::BorrowckNaive | Unit::BorrowckOptimized => {
            lemma_borrowck_relations(u);
        },
        Unit::BorrowckLocationInsensitive => {
            assert(unit_inputs(u)[0] == Rel::OriginLiveOnEntry);
            assert(unit_inputs(u)[1] == Rel::LoanInvalidatedAt);
            assert(unit_inputs(u)[2] == Rel::KnownPlaceholderRequires);
            assert(unit_inputs(u)[3] == Rel::Placeholder);
            assert(unit_inputs(u)[4] == Rel::LoanIssuedAt);
            assert(unit_inputs(u)[5] == Rel::SubsetBase);
            assert(unit_outputs(u)[0] == Rel::PotentialErrors);
            assert(unit_outputs(u)[1] == Rel::PotentialSubsetErrors);
        },
        Unit::BorrowckLocationInsensitiveAsSensitive => {
            assert(unit_inputs(u)[0] == Rel::PotentialErrors);
            assert(unit_inputs(u)[1] == Rel::PotentialSubsetErrors);
            assert(unit_outputs(u)[0] == Rel::Errors);
            assert(unit_outputs(u)[1] == Rel::SubsetErrors);
        },
    }
    if unit_outputs(u).contains(r) {
        let k = choose|k: int| 0 <= k < unit_outputs(u).len() && unit_outputs(u)[k] == r;
    }
    if unit_inputs(u).contains(r) {
        let k = choose|k: int| 0 <= k < unit_inputs(u).len() && unit_inputs(u)[k] == r;
    }
}

/// The relations that the borrow check gives: its errors.
pub open spec fn output_relations() -> Seq<Rel> {
    seq![Rel::Errors, Rel::SubsetErrors, Rel::MoveErrors]
}

fn output_relation_list() -> (r: Vec<Rel>)
    ensures
        r@ == output_relations(),
{
    vec![Rel::Errors, Rel::SubsetErrors, Rel::MoveErrors]
}

/// The units of `naive_units` find their inputs among the facts and the outputs of the
/// units before them, give the errors, and compute each relation once.
proof fn lemma_naive_pipeline()
    ensures
        pipeline_valid(facts_relations(), naive_units(), output_relations()),
        computes_once(facts_relations(), naive_units()),
{
    let units = naive_units();
    let inputs = facts_relations();
    assert forall|r: Rel| #[trigger] inputs.contains(r) <==> is_fact_relation(r) by {
        lemma_facts_relations(r);
    }
    assert forall|u: Unit, r: Rel| #[trigger] unit_outputs(u).contains(r) <==> produces(u, r) by {
        lemma_unit_relations(u, r);
    }
    assert forall|u: Unit, r: Rel| #[trigger] unit_inputs(u).contains(r) <==> consumes(u, r) by {
        lemma_unit_relations(u, r);
    }
    assert(units[0] == Unit::Cfg);
    assert(units[1] == Unit::Paths);
    assert(units[2] == Unit::MaybeInit);
    assert(units[3] == Unit::VarDroppedWhileInit);
    assert(units[4] == Unit::MaybeUninit);
    assert(units[5] == Unit::MoveError);
    assert(units[6] == Unit::KnownPlaceholder);
    assert(units[7] == Unit::LiveOrigins);
    assert(units[8] == Unit::BorrowckNaive);
    assert forall|i: int| 0 <= i < units.len() implies #[trigger] unit_ready(inputs, units, i) by {
        assert forall|r: Rel| #[trigger] unit_inputs(units[i]).contains(r) implies provided(inputs, units, i).contains(r) by {
            if i == 2 && r == Rel::PathMovedAt {
                assert(unit_outputs(units[1]).contains(r));
            }
            if i == 2 && r == Rel::PathAssignedAt {
                assert(unit_outputs(units[1]).contains(r));
            }
            if i == 3 && r == Rel::PathMaybeInitializedOnExit {
                assert(unit_outputs(units[2]).contains(r));
            }
            if i == 3 && r == Rel::PathBeginsWithVar {
                assert(unit_outputs(units[1]).contains(r));
            }
            if i == 4 && r == Rel::PathMovedAt {
                assert(unit_outputs(units[1]).contains(r));
            }
            if i == 4 && r == Rel::PathAssignedAt {
                assert(unit_outputs(units[1]).contains(r));
            }
            if i == 5 && r == Rel::PathMaybeUninitializedOnExit {
                assert(unit_outputs(units[4]).contains(r));
            }
            if i == 5 && r == Rel::PathAccessedAt {
                assert(unit_outputs(units[1]).contains(r));
            }
            if i == 7 && r == Rel::CfgNode {
                assert(unit_outputs(units[0]).contains(r));
            }
            if i == 7 && r == Rel::VarDroppedWhileInitAt {
                assert(unit_outputs(units[3]).contains(r));
            }
            if i == 8 && r == Rel::OriginLiveOnEntry {
                assert(unit_outputs(units[7]).contains(r));
            }
            if i == 8 && r == Rel::KnownPlaceholderSubset {
                assert(unit_outputs(units[6]).contains(r));
            }
        }
    }
    assert forall|r: Rel| #[trigger] output_relations().contains(r) implies provided(inputs, units, units.len() as int).contains(r) by {
        assert(output_relations()[0] == Rel::Errors);
        assert(output_relations()[1] == Rel::SubsetErrors);
        assert(output_relations()[2] == Rel::MoveErrors);
        let k = choose|k: int| 0 <= k < output_relations().len() && output_relations()[k] == r;
        if r == Rel::Errors {
            assert(unit_outputs(units[8]).contains(r));
        }
        if r == Rel::SubsetErrors {
            assert(unit_outputs(units[8]).contains(r));
        }
        if r == Rel::MoveErrors {
            assert(unit_outputs(units[5]).contains(r));
        }
    }
    assert forall|i: int, r: Rel| 0 <= i < units.len() && #[trigger] unit_outputs(units[i]).contains(r) implies !provided(inputs, units, i).contains(r) by {
        if provided(inputs, units, i).contains(r) && !inputs.contains(r) {
            let j = choose|j: int| 0 <= j < i && #[trigger] unit_outputs(units[j]).contains(r);
        }
    }
}

/// The units of `location_insensitive_units` find their inputs among the facts and the outputs of the
/// units before them, give the errors, and compute each relation once.
proof fn lemma_location_insensitive_pipeline()
    ensures
        pipeline_valid(facts_relations(), location_insensitive_units(), output_relations()),
        computes_once(facts_relations(), location_insensitive_units()),
{
    let units = location_insensitive_units();
    let inputs = facts_relations();
    assert forall|r: Rel| #[trigger] inputs.contains(r) <==> is_fact_relation(r) by {
        lemma_facts_relations(r);
    }
    assert forall|u: Unit, r: Rel| #[trigger] unit_outputs(u).contains(r) <==> produces(u, r) by {
        lemma_unit_relations(u, r);
    }
    assert forall|u: Unit, r: Rel| #[trigger] unit_inputs(u).contains(r) <==> consumes(u, r) by {
        lemma_unit_relations(u, r);
    }
    assert(units[0] == Unit::Cfg);
    assert(units[1] == Unit::Paths);
    assert(units[2] == Unit::MaybeInit);
    assert(units[3] == Unit::VarDroppedWhileInit);
    assert(units[4] == Unit::MaybeUninit);
    assert(units[5] == Unit::MoveError);
    assert(units[6] == Unit::KnownPlaceholder);
    assert(units[7] == Unit::KnownPlaceholderLoans);
    assert(units[8] == Unit::LiveOrigins);
    assert(units[9] == Unit::BorrowckLocationInsensitive);
    assert(units[10] == Unit::BorrowckLocationInsensitiveAsSensitive);
    assert forall|i: int| 0 <= i < units.len() implies #[trigger] unit_ready(inputs, units, i) by {
        assert forall|r: Rel| #[trigger] unit_inputs(units[i]).contains(r) implies provided(inputs, units, i).contains(r) by {
            if i == 2 && r == Rel::PathMovedAt {
                assert(unit_outputs(units[1]).contains(r));
            }
            if i == 2 && r == Rel::PathAssignedAt {
                assert(unit_outputs(units[1]).contains(r));
            }
            if i == 3 && r == Rel::PathMaybeInitializedOnExit {
                assert(unit_outputs(units[2]).contains(r));
            }
            if i == 3 && r == Rel::PathBeginsWithVar {
                assert(unit_outputs(units[1]).contains(r));
            }
            if i == 4 && r == Rel::PathMovedAt {
                assert(unit_outputs(units[1]).contains(r));
            }
            if i == 4 && r == Rel::PathAssignedAt {
                assert(unit_outputs(units[1]).contains(r));
            }
            if i == 5 && r == Rel::PathMaybeUninitializedOnExit {
                assert(unit_outputs(units[4]).contains(r));
            }
            if i == 5 && r == Rel::PathAccessedAt {
                assert(unit_outputs(units[1]).contains(r));
            }
            if i == 7 && r == Rel::KnownPlaceholderSubset {
                assert(unit_outputs(units[6]).contains(r));
            }
            if i == 8 && r == Rel::CfgNode {
                assert(unit_outputs(units[0]).contains(r));
            }
            if i == 8 && r == Rel::VarDroppedWhileInitAt {
                assert(unit_outputs(units[3]).contains(r));
            }
            if i == 9 && r == Rel::OriginLiveOnEntry {
                assert(unit_outputs(units[8]).contains(r));
            }
            if i == 9 && r == Rel::KnownPlaceholderRequires {
                assert(unit_outputs(units[7]).contains(r));
            }
            if i == 10 && r == Rel::PotentialErrors {
                assert(unit_outputs(units[9]).contains(r));
            }
            if i == 10 && r == Rel::PotentialSubsetErrors {
                assert(unit_outputs(units[9]).contains(r));
            }
        }
    }
    assert forall|r: Rel| #[trigger] output_relations().contains(r) implies provided(inputs, units, units.len() as int).contains(r) by {
        assert(output_relations()[0] == Rel::Errors);
        assert(output_relations()[1] == Rel::SubsetErrors);
        assert(output_relations()[2] == Rel::MoveErrors);
        let k = choose|k: int| 0 <= k < output_relations().len() && output_relations()[k] == r;
        if r == Rel::Errors {
            assert(unit_outputs(units[10]).contains(r));
        }
        if r == Rel::SubsetErrors {
            assert(unit_outputs(units[10]).contains(r));
        }
        if r == Rel::MoveErrors {
            assert(unit_outputs(units[5]).contains(r));
        }
    }
    assert forall|i: int, r: Rel| 0 <= i < units.len() && #[trigger] unit_outputs(units[i]).contains(r) implies !provided(inputs, units, i).contains(r) by {
        if provided(inputs, units, i).contains(r) && !inputs.contains(r) {
            let j = choose|j: int| 0 <= j < i && #[trigger] unit_outputs(units[j]).contains(r);
        }
    }
}

/// The units of `opt_units` find their inputs among the facts and the outputs of the units
/// before them, give the errors, and compute each relation once.
proof fn lemma_opt_pipeline()
    ensures
        pipeline_valid(facts_relations(), opt_units(), output_relations()),
        computes_once(facts_relations(), opt_units()),
{
    let units = opt_units();
    let inputs = facts_relations();
    assert forall|r: Rel| #[trigger] inputs.contains(r) <==> is_fact_relation(r) by {
        lemma_facts_relations(r);
    }
    assert forall|u: Unit, r: Rel| #[trigger] unit_outputs(u).contains(r) <==> produces(u, r) by {
        lemma_unit_relations(u, r);
    }
    assert forall|u: Unit, r: Rel| #[trigger] unit_inputs(u).contains(r) <==> consumes(u, r) by {
        lemma_unit_relations(u, r);
    }
    assert(units[0] == Unit::Cfg);
    assert(units[1] == Unit::Paths);
    assert(units[2] == Unit::MaybeInit);
    assert(units[3] == Unit::VarDroppedWhileInit);
    assert(units[4] == Unit::MaybeUninit);
    assert(units[5] == Unit::MoveError);
    assert(units[6] == Unit::KnownPlaceholder);
    assert(units[7] == Unit::LiveOrigins);
    assert(units[8] == Unit::BorrowckOptimized);
    assert forall|i: int| 0 <= i < units.len() implies #[trigger] unit_ready(inputs, units, i) by {
        assert forall|r: Rel| #[trigger] unit_inputs(units[i]).contains(r) implies provided(inputs, units, i).contains(r) by {
            if i == 2 && r == Rel::PathMovedAt {
                assert(unit_outputs(units[1]).contains(r));
            }
            if i == 2 && r == Rel::PathAssignedAt {
                assert(unit_outputs(units[1]).contains(r));
            }
            if i == 3 && r == Rel::PathMaybeInitializedOnExit {
                assert(unit_outputs(units[2]).contains(r));
            }
            if i == 3 && r == Rel::PathBeginsWithVar {
                assert(unit_outputs(units[1]).contains(r));
            }
            if i == 4 && r == Rel::PathMovedAt {
                assert(unit_outputs(units[1]).contains(r));
            }
            if i == 4 && r == Rel::PathAssignedAt {
                assert(unit_outputs(units[1]).contains(r));
            }
            if i == 5 && r == Rel::PathMaybeUninitializedOnExit {
                assert(unit_outputs(units[4]).contains(r));
            }
            if i == 5 && r == Rel::PathAccessedAt {
                assert(unit_outputs(units[1]).contains(r));
            }
            if i == 7 && r == Rel::CfgNode {
                assert(unit_outputs(units[0]).contains(r));
            }
            if i == 7 && r == Rel::VarDroppedWhileInitAt {
                assert(unit_outputs(units[3]).contains(r));
            }
            if i == 8 && r == Rel::OriginLiveOnEntry {
                assert(unit_outputs(units[7]).contains(r));
            }
            if i == 8 && r == Rel::KnownPlaceholderSubset {
                assert(unit_outputs(units[6]).contains(r));
            }
        }
    }
    assert forall|r: Rel| #[trigger] output_relations().contains(r) implies provided(inputs, units, units.len() as int).contains(r) by {
        assert(output_relations()[0] == Rel::Errors);
        assert(output_relations()[1] == Rel::SubsetErrors);
        assert(output_relations()[2] == Rel::MoveErrors);
        let k = choose|k: int| 0 <= k < output_relations().len() && output_relations()[k] == r;
        if r == Rel::Errors {
            assert(unit_outputs(units[8]).contains(r));
        }
        if r == Rel::SubsetErrors {
            assert(unit_outputs(units[8]).contains(r));
        }
        if r == Rel::MoveErrors {
            assert(unit_outputs(units[5]).contains(r));
        }
    }
    assert forall|i: int, r: Rel| 0 <= i < units.len() && #[trigger] unit_outputs(units[i]).contains(r) implies !provided(inputs, units, i).contains(r) by {
        if provided(inputs, units, i).contains(r) && !inputs.contains(r) {
            let j = choose|j: int| 0 <= j < i && #[trigger] unit_outputs(units[j]).contains(r);
        }
    }
}

/// The units of `compare_units` find their inputs among the facts and the outputs of the units
/// before them, and give the errors; the last unit is the only one that computes a relation
/// again.
proof fn lemma_compare_pipeline()
    ensures
        pipeline_valid(facts_relations(), compare_units(), output_relations()),
        forall|i: int, r: Rel|
            0 <= i < compare_units().len() && #[trigger] unit_outputs(compare_units()[i]).contains(r) && provided(
                facts_relations(),
                compare_units(),
                i,
            ).contains(r) ==> i == 9,
{
    let units = compare_units();
    let inputs = facts_relations();
    assert forall|r: Rel| #[trigger] inputs.contains(r) <==> is_fact_relation(r) by {
        lemma_facts_relations(r);
    }
    assert forall|u: Unit, r: Rel| #[trigger] unit_outputs(u).contains(r) <==> produces(u, r) by {
        lemma_unit_relations(u, r);
    }
    assert forall|u: Unit, r: Rel| #[trigger] unit_inputs(u).contains(r) <==> consumes(u, r) by {
        lemma_unit_relations(u, r);
    }
    assert(units[0] == Unit::Cfg);
    assert(units[1] == Unit::Paths);
    assert(units[2] == Unit::MaybeInit);
    assert(units[3] == Unit::VarDroppedWhileInit);
    assert(units[4] == Unit::MaybeUninit);
    assert(units[5] == Unit::MoveError);
    assert(units[6] == Unit::KnownPlaceholder);
    assert(units[7] == Unit::LiveOrigins);
    assert(units[8] == Unit::BorrowckNaive);
    assert(units[9] == Unit::BorrowckOptimized);
    assert forall|i: int| 0 <= i < units.len() implies #[trigger] unit_ready(inputs, units, i) by {
        assert forall|r: Rel| #[trigger] unit_inputs(units[i]).contains(r) implies provided(inputs, units, i).contains(r) by {
            if i == 2 && r == Rel::PathMovedAt {
                assert(unit_outputs(units[1]).contains(r));
            }
            if i == 2 && r == Rel::PathAssignedAt {
                assert(unit_outputs(units[1]).contains(r));
            }
            if i == 3 && r == Rel::PathMaybeInitializedOnExit {
                assert(unit_outputs(units[2]).contains(r));
            }
            if i == 3 && r == Rel::PathBeginsWithVar {
                assert(unit_outputs(units[1]).contains(r));
            }
            if i == 4 && r == Rel::PathMovedAt {
                assert(unit_outputs(units[1]).contains(r));
            }
            if i == 4 && r == Rel::PathAssignedAt {
                assert(unit_outputs(units[1]).contains(r));
            }
            if i == 5 && r == Rel::PathMaybeUninitializedOnExit {
                assert(unit_outputs(units[4]).contains(r));
            }
            if i == 5 && r == Rel::PathAccessedAt {
                assert(unit_outputs(units[1]).contains(r));
            }
            if i == 7 && r == Rel::CfgNode {
                assert(unit_outputs(units[0]).contains(r));
            }
            if i == 7 && r == Rel::VarDroppedWhileInitAt {
                assert(unit_outputs(units[3]).contains(r));
            }
            if i == 8 && r == Rel::OriginLiveOnEntry {
                assert(unit_outputs(units[7]).contains(r));
            }
            if i == 8 && r == Rel::KnownPlaceholderSubset {
                assert(unit_outputs(units[6]).contains(r));
            }
            if i == 9 && r == Rel::OriginLiveOnEntry {
                assert(unit_outputs(units[7]).contains(r));
            }
            if i == 9 && r == Rel::KnownPlaceholderSubset {
                assert(unit_outputs(units[6]).contains(r));
            }
        }
    }
    assert forall|r: Rel| #[trigger] output_relations().contains(r) implies provided(inputs, units, units.len() as int).contains(r) by {
        assert(output_relations()[0] == Rel::Errors);
        assert(output_relations()[1] == Rel::SubsetErrors);
        assert(output_relations()[2] == Rel::MoveErrors);
        let k = choose|k: int| 0 <= k < output_relations().len() && output_relations()[k] == r;
        if r == Rel::Errors {
            assert(unit_outputs(units[8]).contains(r));
        }
        if r == Rel::SubsetErrors {
            assert(unit_outputs(units[8]).contains(r));
        }
        if r == Rel::MoveErrors {
            assert(unit_outputs(units[5]).contains(r));
        }
    }
    assert forall|i: int, r: Rel|
        0 <= i < units.len() && #[trigger] unit_outputs(units[i]).contains(r) && provided(inputs, units, i).contains(r) implies i == 9 by {
        if !inputs.contains(r) {
            let j = choose|j: int| 0 <= j < i && #[trigger] unit_outputs(units[j]).contains(r);
        }
    }
}

/// The units of `hybrid_units` find their inputs among the facts and the outputs of the units
/// before them, give the errors, and compute each relation once.
proof fn lemma_hybrid_pipeline()
    ensures
        pipeline_valid(facts_relations(), hybrid_units(), output_relations()),
        computes_once(facts_relations(), hybrid_units()),
{
    let units = hybrid_units();
    let inputs = facts_relations();
    assert forall|r: Rel| #[trigger] inputs.contains(r) <==> is_fact_relation(r) by {
        lemma_facts_relations(r);
    }
    assert forall|u: Unit, r: Rel| #[trigger] unit_outputs(u).contains(r) <==> produces(u, r) by {
        lemma_unit_relations(u, r);
    }
    assert forall|u: Unit, r: Rel| #[trigger] unit_inputs(u).contains(r) <==> consumes(u, r) by {
        lemma_unit_relations(u, r);
    }
    assert(units[0] == Unit::Cfg);
    assert(units[1] == Unit::Paths);
    assert(units[2] == Unit::MaybeInit);
    assert(units[3] == Unit::VarDroppedWhileInit);
    assert(units[4] == Unit::MaybeUninit);
    assert(units[5] == Unit::MoveError);
    assert(units[6] == Unit::KnownPlaceholder);
    assert(units[7] == Unit::KnownPlaceholderLoans);
    assert(units[8] == Unit::LiveOrigins);
    assert(units[9] == Unit::BorrowckLocationInsensitive);
    assert(units[10] == Unit::BorrowckOptimized);
    assert forall|i: int| 0 <= i < units.len() implies #[trigger] unit_ready(inputs, units, i) by {
        assert forall|r: Rel| #[trigger] unit_inputs(units[i]).contains(r) implies provided(inputs, units, i).contains(r) by {
            if i == 2 && r == Rel::PathMovedAt {
                assert(unit_outputs(units[1]).contains(r));
            }
            if i == 2 && r == Rel::PathAssignedAt {
                assert(unit_outputs(units[1]).contains(r));
            }
            if i == 3 && r == Rel::PathMaybeInitializedOnExit {
                assert(unit_outputs(units[2]).contains(r));
            }
            if i == 3 && r == Rel::PathBeginsWithVar {
                assert(unit_outputs(units[1]).contains(r));
            }
            if i == 4 && r == Rel::PathMovedAt {
                assert(unit_outputs(units[1]).contains(r));
            }
            if i == 4 && r == Rel::PathAssignedAt {
                assert(unit_outputs(units[1]).contains(r));
            }
            if i == 5 && r == Rel::PathMaybeUninitializedOnExit {
                assert(unit_outputs(units[4]).contains(r));
            }
            if i == 5 && r == Rel::PathAccessedAt {
                assert(unit_outputs(units[1]).contains(r));
            }
            if i == 7 && r == Rel::KnownPlaceholderSubset {
                assert(unit_outputs(units[6]).contains(r));
            }
            if i == 8 && r == Rel::CfgNode {
                assert(unit_outputs(units[0]).contains(r));
            }
            if i == 8 && r == Rel::VarDroppedWhileInitAt {
                assert(unit_outputs(units[3]).contains(r));
            }
            if i == 9 && r == Rel::OriginLiveOnEntry {
                assert(unit_outputs(units[8]).contains(r));
            }
            if i == 9 && r == Rel::KnownPlaceholderRequires {
                assert(unit_outputs(units[7]).contains(r));
            }
            if i == 10 && r == Rel::OriginLiveOnEntry {
                assert(unit_outputs(units[8]).contains(r));
            }
            if i == 10 && r == Rel::KnownPlaceholderSubset {
                assert(unit_outputs(units[6]).contains(r));
            }
        }
    }
    assert forall|r: Rel| #[trigger] output_relations().contains(r) implies provided(inputs, units, units.len() as int).contains(r) by {
        assert(output_relations()[0] == Rel::Errors);
        assert(output_relations()[1] == Rel::SubsetErrors);
        assert(output_relations()[2] == Rel::MoveErrors);
        let k = choose|k: int| 0 <= k < output_relations().len() && output_relations()[k] == r;
        if r == Rel::Errors {
            assert(unit_outputs(units[10]).contains(r));
        }
        if r == Rel::SubsetErrors {
            assert(unit_outputs(units[10]).contains(r));
        }
        if r == Rel::MoveErrors {
            assert(unit_outputs(units[5]).contains(r));
        }
    }
    assert forall|i: int, r: Rel| 0 <= i < units.len() && #[trigger] unit_outputs(units[i]).contains(r) implies !provided(inputs, units, i).contains(r) by {
        if provided(inputs, units, i).contains(r) && !inputs.contains(r) {
            let j = choose|j: int| 0 <= j < i && #[trigger] unit_outputs(units[j]).contains(r);
        }
    }
}

/// The units of the pipeline of an algorithm.
pub open spec fn algorithm_units(algorithm: Algorithm) -> Seq<Unit> {
    match algorithm {
        Algorithm::Naive => naive_units(),
        Algorithm::LocationInsensitive => location_insensitive_units(),
        Algorithm::DatafrogOpt => opt_units(),
        Algorithm::Compare => compare_units(),
        Algorithm::Hybrid => hybrid_units(),
    }
}

impl Algorithm {
    /// The pipeline of units that computes the errors of the algorithm.
    pub fn pipeline(&self) -> (r: Pipeline)
        ensures
            r.0@ == algorithm_units(*self),
    {
        match self {
            Algorithm::Naive => Pipeline::naive(),
            Algorithm::LocationInsensitive => Pipeline::location_insensitive(),
            Algorithm::DatafrogOpt => Pipeline::opt(),
            Algorithm::Compare => Pipeline::compare(),
            Algorithm::Hybrid => Pipeline::hybrid(),
        }
    }
}

/// The errors of a borrow check and, where they were kept, its intermediate relations.
pub struct Output {
    /// `errors(loan, point)`: the loan is live where it is invalidated.
    pub errors: Vec<(u32, u32)>,
    /// `subset_errors(origin1, origin2, point)`: a placeholder origin flows into another one
    /// without a known subset relation between them.
    pub subset_errors: Vec<(u32, u32, u32)>,
    /// `move_errors(path, point)`: the path is accessed where it may be uninitialized.
    pub move_errors: Vec<(u32, u32)>,
    /// `origin_live_on_entry(origin, point)`
    pub origin_live_on_entry: Vec<(u32, u32)>,
    /// Whether the intermediate relations below were kept; where not, they are empty.
    pub dump_enabled: bool,
    /// `loan_invalidated_at(loan, point)`
    pub loan_invalidated_at: Vec<(u32, u32)>,
    /// `loan_live_at(loan, point)`, for the location-sensitive algorithms.
    pub loan_live_at: Vec<(u32, u32)>,
    /// `origin_contains_loan_at(origin, loan, point)`, for the location-sensitive algorithms.
    pub origin_contains_loan_at: Vec<(u32, u32, u32)>,
    /// `subset(origin1, origin2, point)`, for the location-sensitive algorithms.
    pub subset: Vec<(u32, u32, u32)>,
    /// `origin_contains_loan_anywhere(loan, origin)`, for the location-insensitive algorithm.
    pub origin_contains_loan_anywhere: Vec<(u32, u32)>,
    /// `subset_anywhere(origin2, origin1)`: `origin1` flows into `origin2` somewhere, for the
    /// location-insensitive algorithm.
    pub subset_anywhere: Vec<(u32, u32)>,
    /// `known_contains(loan, origin)`: the placeholder loans that each placeholder origin is
    /// known to contain.
    pub known_contains: Vec<(u32, u32)>,
    /// `var_live_on_entry(var, point)`
    pub var_live_on_entry: Vec<(u32, u32)>,
    /// `var_drop_live_on_entry(var, point)`
    pub var_drop_live_on_entry: Vec<(u32, u32)>,
    /// `path_maybe_initialized_on_exit(path, point)`
    pub path_maybe_initialized_on_exit: Vec<(u32, u32)>,
    /// `path_maybe_uninitialized_on_exit(path, point)`
    pub path_maybe_uninitialized_on_exit: Vec<(u32, u32)>,
    /// `var_maybe_partly_initialized_on_exit(var, point)`
    pub var_maybe_partly_initialized_on_exit: Vec<(u32, u32)>,
}

/// Whether the intermediate relations of `out` are those of `db`: the relations that `db`
/// holds, the variables live on entry to each point, the placeholder loans that each origin is
/// known to contain, and for a location-sensitive algorithm, the loans live at each point and
/// the loans that each origin contains there.
pub open spec fn details_of(db: Db, algorithm: Algorithm, out: Output) -> bool {
    &&& out.loan_invalidated_at@ == s2(db.loan_invalidated_at)
    &&& out.path_maybe_initialized_on_exit@ == s2(db.path_maybe_initialized_on_exit)
    &&& out.path_maybe_uninitialized_on_exit@ == s2(db.path_maybe_uninitialized_on_exit)
    &&& sorted2(out.var_maybe_partly_initialized_on_exit@)
    &&& forall|v: u32, p: u32| #[trigger] out.var_maybe_partly_initialized_on_exit@.contains((v, p)) <==> exists|path: u32|
        #[trigger] s2(db.path_maybe_initialized_on_exit).contains((path, p)) && s2(db.path_begins_with_var).contains((path, v))
    &&& sorted2(out.var_live_on_entry@)
    &&& forall|v: u32, p: u32| #[trigger] out.var_live_on_entry@.contains((v, p)) <==> var_live_on_entry(
        s2(db.var_used_at),
        s2(db.var_defined_at),
        s2(db.cfg_edge),
        v,
        p,
    )
    &&& sorted2(out.var_drop_live_on_entry@)
    &&& forall|v: u32, p: u32| #[trigger] out.var_drop_live_on_entry@.contains((v, p)) <==> var_live_on_entry(
        s2(db.var_dropped_while_init_at),
        s2(db.var_defined_at),
        s2(db.cfg_edge),
        v,
        p,
    )
    &&& forall|l: u32, o: u32| #[trigger] out.known_contains@.contains((l, o)) <==> reached(
        s2(db.placeholder).to_set(),
        s2(db.known_placeholder_subset).to_set(),
        (o, l),
    )
    &&& algorithm == Algorithm::LocationInsensitive ==> out.loan_live_at@.len() == 0 && out.origin_contains_loan_at@.len() == 0
        && out.subset@.len() == 0
    &&& algorithm == Algorithm::LocationInsensitive ==> forall|l: u32, o: u32| #[trigger] out.origin_contains_loan_anywhere@.contains((l, o)) <==> contains_loan_anywhere(
        s3(db.loan_issued_at),
        s2(db.placeholder),
        s3(db.subset_base),
        o,
        l,
    )
    &&& algorithm == Algorithm::LocationInsensitive ==> forall|o2: u32, o1: u32| #[trigger] out.subset_anywhere@.contains((o2, o1)) <==> exists|p: u32|
        s3(db.subset_base).contains((o1, o2, p))
    &&& algorithm != Algorithm::LocationInsensitive ==> out.origin_contains_loan_anywhere@.len() == 0 && out.subset_anywhere@.len() == 0
    &&& algorithm != Algorithm::LocationInsensitive ==> exists|s: Set<(u32, u32, u32)>, c: Set<(u32, u32, u32)>|
        #![trigger least_closed(subset_rules(s3(db.subset_base).to_set(), s2(db.cfg_edge).to_set(), s2(db.origin_live_on_entry).to_set()), s), least_closed(contains_rules(s3(db.loan_issued_at).to_set(), s2(db.loan_killed_at).to_set(), s2(db.cfg_edge).to_set(), s2(db.origin_live_on_entry).to_set(), s), c)]
        {
        &&& least_closed(
            subset_rules(s3(db.subset_base).to_set(), s2(db.cfg_edge).to_set(), s2(db.origin_live_on_entry).to_set()),
            s,
        )
        &&& least_closed(
            contains_rules(
                s3(db.loan_issued_at).to_set(),
                s2(db.loan_killed_at).to_set(),
                s2(db.cfg_edge).to_set(),
                s2(db.origin_live_on_entry).to_set(),
                s,
            ),
            c,
        )
        &&& sorted3(out.subset@)
        &&& out.subset@.to_set() == s
        &&& sorted3(out.origin_contains_loan_at@)
        &&& out.origin_contains_loan_at@.to_set() == c
        &&& sorted2(out.loan_live_at@)
        &&& forall|l: u32, p: u32| #[trigger] out.loan_live_at@.contains((l, p)) <==> exists|o: u32|
            #[trigger] c.contains((o, l, p)) && s2(db.origin_live_on_entry).contains((o, p))
    }
}

/// Whether the intermediate relations of `out` are all empty.
pub open spec fn no_details(out: Output) -> bool {
    &&& out.loan_invalidated_at@.len() == 0
    &&& out.loan_live_at@.len() == 0
    &&& out.origin_contains_loan_at@.len() == 0
    &&& out.subset@.len() == 0
    &&& out.origin_contains_loan_anywhere@.len() == 0
    &&& out.subset_anywhere@.len() == 0
    &&& out.known_contains@.len() == 0
    &&& out.var_live_on_entry@.len() == 0
    &&& out.var_drop_live_on_entry@.len() == 0
    &&& out.path_maybe_initialized_on_exit@.len() == 0
    &&& out.path_maybe_uninitialized_on_exit@.len() == 0
    &&& out.var_maybe_partly_initialized_on_exit@.len() == 0
}

/// Whether `out` holds the errors of a database that holds the facts and what each unit of the
/// pipeline of `algorithm` computes from its inputs, and where the intermediate relations are
/// kept, those of that database.
pub open spec fn computed(facts: AllFacts, algorithm: Algorithm, out: Output) -> bool {
    exists|db: Db| {
        &&& #[trigger] runs(facts, algorithm_units(algorithm), db)
        &&& out.errors@ == s2(db.errors)
        &&& out.subset_errors@ == s3(db.subset_errors)
        &&& out.move_errors@ == s2(db.move_errors)
        &&& out.origin_live_on_entry@ == s2(db.origin_live_on_entry)
        &&& out.dump_enabled ==> details_of(db, algorithm, out)
        &&& !out.dump_enabled ==> no_details(out)
    }
}

/// The first components of the pairs `(x, point)` of `pairs` at `location`, in their order.
pub open spec fn firsts_at(pairs: Seq<(u32, u32)>, location: u32) -> Seq<u32>
    decreases pairs.len(),
{
    if pairs.len() == 0 {
        Seq::empty()
    } else {
        let rest = firsts_at(pairs.drop_last(), location);
        if pairs.last().1 == location {
            rest.push(pairs.last().0)
        } else {
            rest
        }
    }
}

/// The first components of the pairs of `pairs` whose second component is `location`.
pub(crate) fn firsts_of_pairs_at(pairs: &Vec<(u32, u32)>, location: u32) -> (r: Vec<u32>)
    ensures
        r@ == firsts_at(pairs@, location),
{
    let mut r: Vec<u32> = Vec::new();
    let mut i: usize = 0;
    while i < pairs.len()
        invariant
            i <= pairs@.len(),
            r@ == firsts_at(pairs@.take(i as int), location),
        decreases pairs@.len() - i,
    {
        let (x, point) = pairs[i];
        proof {
            assert(pairs@.take(i + 1).drop_last() =~= pairs@.take(i as int));
        }
        if point == location {
            r.push(x);
        }
        i = i + 1;
    }
    proof {
        assert(pairs@.take(pairs@.len() as int) =~= pairs@);
    }
    r
}

/// Keeps in `out` the intermediate relations of `db`, which the pipeline `pipeline` of
/// `algorithm` filled (see [`details_of`]).
fn keep_details(db: &Db, pipeline: &Pipeline, algorithm: Algorithm, out: &mut Output)
    requires
        pipeline.0@ == algorithm_units(algorithm),
        forall|x: Rel| #[trigger] db_has(*db, x) <==> provided(facts_relations(), pipeline.0@, pipeline.0@.len() as int).contains(x),
    ensures
        details_of(*db, algorithm, *final(out)),
        final(out).errors == old(out).errors,
        final(out).subset_errors == old(out).subset_errors,
        final(out).move_errors == old(out).move_errors,
        final(out).origin_live_on_entry == old(out).origin_live_on_entry,
        final(out).dump_enabled == old(out).dump_enabled,
{
    let ghost units = pipeline.0@;
    let ghost n = units.len() as int;
    proof {
        assert forall|r: Rel| is_fact_relation(r) implies #[trigger] db_has(*db, r) by {
            lemma_facts_relations(r);
        }
        assert(db_has(*db, Rel::CfgEdge));
        assert(db_has(*db, Rel::VarDefinedAt));
        assert(db_has(*db, Rel::VarUsedAt));
        assert(db_has(*db, Rel::LoanInvalidatedAt));
        assert(db_has(*db, Rel::Placeholder));
        assert(db_has(*db, Rel::SubsetBase));
        assert(db_has(*db, Rel::LoanIssuedAt));
        assert(db_has(*db, Rel::LoanKilledAt));
        assert(db_has(*db, Rel::UniversalRegion));
        assert(units[1] == Unit::Paths);
        assert(unit_outputs(Unit::Paths)[3] == Rel::PathBeginsWithVar);
        assert(unit_outputs(units[1]).contains(Rel::PathBeginsWithVar));
        assert(provided(facts_relations(), units, n).contains(Rel::PathBeginsWithVar));
        assert(db_has(*db, Rel::PathBeginsWithVar));
        assert(units[2] == Unit::MaybeInit);
        assert(unit_outputs(Unit::MaybeInit)[0] == Rel::PathMaybeInitializedOnExit);
        assert(unit_outputs(units[2]).contains(Rel::PathMaybeInitializedOnExit));
        assert(provided(facts_relations(), units, n).contains(Rel::PathMaybeInitializedOnExit));
        assert(units[3] == Unit::VarDroppedWhileInit);
        assert(unit_outputs(Unit::VarDroppedWhileInit)[0] == Rel::VarDroppedWhileInitAt);
        assert(unit_outputs(units[3]).contains(Rel::VarDroppedWhileInitAt));
        assert(provided(facts_relations(), units, n).contains(Rel::VarDroppedWhileInitAt));
        assert(units[4] == Unit::MaybeUninit);
        assert(unit_outputs(Unit::MaybeUninit)[0] == Rel::PathMaybeUninitializedOnExit);
        assert(unit_outputs(units[4]).contains(Rel::PathMaybeUninitializedOnExit));
        assert(provided(facts_relations(), units, n).contains(Rel::PathMaybeUninitializedOnExit));
        assert(units[6] == Unit::KnownPlaceholder);
        assert(unit_outputs(Unit::KnownPlaceholder)[0] == Rel::KnownPlaceholderSubset);
        assert(unit_outputs(units[6]).contains(Rel::KnownPlaceholderSubset));
        assert(provided(facts_relations(), units, n).contains(Rel::KnownPlaceholderSubset));
        assert(db_has(*db, Rel::PathMaybeInitializedOnExit));
        assert(db_has(*db, Rel::VarDroppedWhileInitAt));
        assert(db_has(*db, Rel::PathMaybeUninitializedOnExit));
        assert(db_has(*db, Rel::KnownPlaceholderSubset));
    }
    let cfg_edge = db.cfg_edge.as_ref().unwrap();
    let var_defined_at = db.var_defined_at.as_ref().unwrap();
    out.loan_invalidated_at = copy_of(db.loan_invalidated_at.as_ref().unwrap());
    out.path_maybe_initialized_on_exit = copy_of(db.path_maybe_initialized_on_exit.as_ref().unwrap());
    out.path_maybe_uninitialized_on_exit = copy_of(db.path_maybe_uninitialized_on_exit.as_ref().unwrap());
    out.var_maybe_partly_initialized_on_exit = VarDroppedWhileInit.partly_initialized(
        db.path_maybe_initialized_on_exit.as_ref().unwrap(),
        db.path_begins_with_var.as_ref().unwrap(),
    );
    out.var_live_on_entry = LiveOrigins.var_live(cfg_edge, db.var_used_at.as_ref().unwrap(), var_defined_at);
    out.var_drop_live_on_entry = LiveOrigins.var_live(cfg_edge, db.var_dropped_while_init_at.as_ref().unwrap(), var_defined_at);
    let known_requires = KnownPlaceholderLoans.compute(db.known_placeholder_subset.as_ref().unwrap(), db.placeholder.as_ref().unwrap());
    let known = swap_pairs(&known_requires);
    proof {
        assert forall|l: u32, o: u32| #[trigger] known@.contains((l, o)) <==> known_requires@.contains((o, l)) by {
            if known@.contains((l, o)) {
                let k = choose|k: int| 0 <= k < known@.len() && known@[k] == (l, o);
                assert(known_requires@[k] == (o, l));
            }
            if known_requires@.contains((o, l)) {
                let k = choose|k: int| 0 <= k < known_requires@.len() && known_requires@[k] == (o, l);
                assert(known@[k] == (l, o));
            }
        }
    }
    out.known_contains = known;
    match algorithm {
        Algorithm::LocationInsensitive => {
            out.loan_live_at = Vec::new();
            out.origin_contains_loan_at = Vec::new();
            out.subset = Vec::new();
            let contains = BorrowckLocationInsensitive.contains_anywhere(
                db.placeholder.as_ref().unwrap(),
                db.loan_issued_at.as_ref().unwrap(),
                db.subset_base.as_ref().unwrap(),
            );
            let by_origin = swap_pairs(&contains);
            proof {
                assert forall|l: u32, o: u32| #[trigger] by_origin@.contains((l, o)) <==> contains@.contains((o, l)) by {
                    if by_origin@.contains((l, o)) {
                        let k = choose|k: int| 0 <= k < by_origin@.len() && by_origin@[k] == (l, o);
                        assert(contains@[k] == (o, l));
                    }
                    if contains@.contains((o, l)) {
                        let k = choose|k: int| 0 <= k < contains@.len() && contains@[k] == (o, l);
                        assert(by_origin@[k] == (l, o));
                    }
                }
            }
            out.origin_contains_loan_anywhere = by_origin;
            let subset_base = db.subset_base.as_ref().unwrap();
            out.subset_anywhere = BorrowckLocationInsensitive.subset_anywhere(subset_base);
            proof {
                assert(subset_base@ == s3(db.subset_base));
                assert(forall|l: u32, o: u32| #[trigger] out.origin_contains_loan_anywhere@.contains((l, o)) <==> contains_loan_anywhere(
                    s3(db.loan_issued_at),
                    s2(db.placeholder),
                    s3(db.subset_base),
                    o,
                    l,
                ));
                assert(forall|o2: u32, o1: u32| #[trigger] out.subset_anywhere@.contains((o2, o1)) <==> exists|p: u32|
                    s3(db.subset_base).contains((o1, o2, p)));
            }
        },
        _ => {
            proof {
                assert(algorithm != Algorithm::LocationInsensitive);
                if algorithm == Algorithm::Naive || algorithm == Algorithm::DatafrogOpt || algorithm == Algorithm::Compare {
                    assert(units[7] == Unit::LiveOrigins);
                    assert(unit_outputs(Unit::LiveOrigins)[0] == Rel::OriginLiveOnEntry);
                    assert(unit_outputs(units[7]).contains(Rel::OriginLiveOnEntry));
                } else {
                    assert(units[8] == Unit::LiveOrigins);
                    assert(unit_outputs(Unit::LiveOrigins)[0] == Rel::OriginLiveOnEntry);
                    assert(unit_outputs(units[8]).contains(Rel::OriginLiveOnEntry));
                }
                assert(provided(facts_relations(), units, n).contains(Rel::OriginLiveOnEntry));
                assert(db_has(*db, Rel::OriginLiveOnEntry));
            }
            let b = BorrowckNaive.compute(
                db.subset_base.as_ref().unwrap(),
                db.loan_issued_at.as_ref().unwrap(),
                cfg_edge,
                db.origin_live_on_entry.as_ref().unwrap(),
                db.loan_killed_at.as_ref().unwrap(),
                db.loan_invalidated_at.as_ref().unwrap(),
                db.known_placeholder_subset.as_ref().unwrap(),
                db.universal_region.as_ref().unwrap(),
            );
            let ghost s = b.subset@.to_set();
            let ghost c = b.origin_contains_loan_on_entry@.to_set();
            out.subset = b.subset;
            out.loan_live_at = b.loan_live_at;
            out.origin_contains_loan_at = b.origin_contains_loan_on_entry;
            out.origin_contains_loan_anywhere = Vec::new();
            out.subset_anywhere = Vec::new();
            proof {
                assert(least_closed(subset_rules(s3(db.subset_base).to_set(), s2(db.cfg_edge).to_set(), s2(db.origin_live_on_entry).to_set()), s));
                assert(least_closed(contains_rules(s3(db.loan_issued_at).to_set(), s2(db.loan_killed_at).to_set(), s2(db.cfg_edge).to_set(), s2(db.origin_live_on_entry).to_set(), s), c));
                assert forall|l: u32, p: u32| #[trigger] out.loan_live_at@.contains((l, p)) <==> exists|o: u32|
                    #[trigger] c.contains((o, l, p)) && s2(db.origin_live_on_entry).contains((o, p)) by {
                    if out.loan_live_at@.contains((l, p)) {
                        let o = choose|o: u32| b.origin_contains_loan_on_entry@.contains((o, l, p)) && s2(db.origin_live_on_entry).contains((o, p));
                        assert(c.contains((o, l, p)));
                    }
                    if exists|o: u32| c.contains((o, l, p)) && s2(db.origin_live_on_entry).contains((o, p)) {
                        let o = choose|o: u32| c.contains((o, l, p)) && s2(db.origin_live_on_entry).contains((o, p));
                        assert(b.origin_contains_loan_on_entry@.contains((o, l, p)));
                    }
                }
            }
        },
    }
}

impl Output {
    /// Runs the pipeline of `algorithm` on the facts `input`, and gives its errors: those of
    /// a database that holds the facts and, for each unit of the pipeline, what the unit's
    /// computation gives for its inputs. Every pipeline but that of `Compare` computes each
    /// relation once; `Compare` computes the errors a second time, which always agree with
    /// the first. Where `dump_enabled` holds, the output keeps intermediate relations too.
    pub fn compute(input: &AllFacts, algorithm: Algorithm, dump_enabled: bool) -> (r: Output)
        ensures
            r.dump_enabled == dump_enabled,
            computed(*input, algorithm, r),
    {
        let pipeline = algorithm.pipeline();
        proof {
            if algorithm == Algorithm::Naive {
                lemma_naive_pipeline();
            } else if algorithm == Algorithm::LocationInsensitive {
                lemma_location_insensitive_pipeline();
            } else if algorithm == Algorithm::DatafrogOpt {
                lemma_opt_pipeline();
            } else if algorithm == Algorithm::Hybrid {
                lemma_hybrid_pipeline();
            } else {
                lemma_compare_pipeline();
            }
        }
        let outputs = output_relation_list();
        match pipeline.compute(input, &outputs) {
            Ok(db) => {
                proof {
                    assert(output_relations()[0] == Rel::Errors);
                    assert(output_relations()[1] == Rel::SubsetErrors);
                    assert(output_relations()[2] == Rel::MoveErrors);
                    assert(output_relations().contains(Rel::Errors));
                    assert(output_relations().contains(Rel::SubsetErrors));
                    assert(output_relations().contains(Rel::MoveErrors));
                    let n = pipeline.0@.len() as int;
                    assert(provided(facts_relations(), pipeline.0@, n).contains(Rel::Errors));
                    assert(provided(facts_relations(), pipeline.0@, n).contains(Rel::SubsetErrors));
                    assert(provided(facts_relations(), pipeline.0@, n).contains(Rel::MoveErrors));
                    assert(db_has(db, Rel::Errors));
                    assert(db_has(db, Rel::SubsetErrors));
                    assert(db_has(db, Rel::MoveErrors));
                }
                let errors = copy_of(db.errors.as_ref().unwrap());
                let subset_errors = copy_of(db.subset_errors.as_ref().unwrap());
                let move_errors = copy_of(db.move_errors.as_ref().unwrap());
                proof {
                    assert(unit_outputs(Unit::LiveOrigins)[0] == Rel::OriginLiveOnEntry);
                    assert(unit_outputs(Unit::LiveOrigins).contains(Rel::OriginLiveOnEntry));
                    if algorithm == Algorithm::Naive || algorithm == Algorithm::DatafrogOpt || algorithm == Algorithm::Compare {
                        assert(pipeline.0@[7] == Unit::LiveOrigins);
                        assert(unit_outputs(pipeline.0@[7]).contains(Rel::OriginLiveOnEntry));
                    } else {
                        assert(pipeline.0@[8] == Unit::LiveOrigins);
                        assert(unit_outputs(pipeline.0@[8]).contains(Rel::OriginLiveOnEntry));
                    }
                    assert(provided(facts_relations(), pipeline.0@, pipeline.0@.len() as int).contains(Rel::OriginLiveOnEntry));
                    assert(db_has(db, Rel::OriginLiveOnEntry));
                }
                let origin_live_on_entry = copy_of(db.origin_live_on_entry.as_ref().unwrap());
                let mut out = Output {
                    errors,
                    subset_errors,
                    move_errors,
                    origin_live_on_entry,
                    dump_enabled,
                    loan_invalidated_at: Vec::new(),
                    loan_live_at: Vec::new(),
                    origin_contains_loan_at: Vec::new(),
                    subset: Vec::new(),
                    origin_contains_loan_anywhere: Vec::new(),
                    subset_anywhere: Vec::new(),
                    known_contains: Vec::new(),
                    var_live_on_entry: Vec::new(),
                    var_drop_live_on_entry: Vec::new(),
                    path_maybe_initialized_on_exit: Vec::new(),
                    path_maybe_uninitialized_on_exit: Vec::new(),
                    var_maybe_partly_initialized_on_exit: Vec::new(),
                };
                if dump_enabled {
                    keep_details(&db, &pipeline, algorithm, &mut out);
                }
                proof {
                    assert(pipeline.0@ == algorithm_units(algorithm));
                    assert(runs(*input, algorithm_units(algorithm), db));
                    assert(out.errors@ == s2(db.errors));
                }
                out
            },
            Err(e) => {
                proof {
                    let units = pipeline.0@;
                    let (i, db) = choose|i: int, db: Db|
                        #![trigger runs(*input, units.take(i), db)]
                        {
                        &&& 0 <= i < units.len()
                        &&& units[i] == e->Differs_unit
                        &&& unit_outputs(e->Differs_unit).contains(e->Differs_relation)
                        &&& provided(facts_relations(), units, i).contains(e->Differs_relation)
                        &&& runs(*input, units.take(i), db)
                        &&& forall|x: Rel| #[trigger] db_has(db, x) <==> provided(facts_relations(), units, i).contains(x)
                        &&& !unit_holds(e->Differs_unit, db)
                    };
                    assert(algorithm == Algorithm::Compare);
                    assert(unit_outputs(units[i]).contains(e->Differs_relation));
                    assert(i == 9);
                    assert(units.take(i)[8] == Unit::BorrowckNaive);
                    assert(unit_holds(units.take(i)[8], db));
                    assert(units[i] == Unit::BorrowckOptimized);
                }
                Output {
                    errors: Vec::new(),
                    subset_errors: Vec::new(),
                    move_errors: Vec::new(),
                    origin_live_on_entry: Vec::new(),
                    dump_enabled,
                    loan_invalidated_at: Vec::new(),
                    loan_live_at: Vec::new(),
                    origin_contains_loan_at: Vec::new(),
                    subset: Vec::new(),
                    origin_contains_loan_anywhere: Vec::new(),
                    subset_anywhere: Vec::new(),
                    known_contains: Vec::new(),
                    var_live_on_entry: Vec::new(),
                    var_drop_live_on_entry: Vec::new(),
                    path_maybe_initialized_on_exit: Vec::new(),
                    path_maybe_uninitialized_on_exit: Vec::new(),
                    var_maybe_partly_initialized_on_exit: Vec::new(),
                }
            },
        }
    }

    /// The loans with an error at `location`.
    pub fn errors_at(&self, location: u32) -> (r: Vec<u32>)
        ensures
            r@ == firsts_at(self.errors@, location),
    {
        firsts_of_pairs_at(&self.errors, location)
    }

    /// The origins live on entry to `location`.
    pub fn origins_live_at(&self, location: u32) -> (r: Vec<u32>)
        ensures
            r@ == firsts_at(self.origin_live_on_entry@, location),
    {
        firsts_of_pairs_at(&self.origin_live_on_entry, location)
    }
}

/// Whether the errors `entries`, loans listed by point, report `loan` at `point`.
pub open spec fn has_error(entries: Seq<(u32, Vec<u32>)>, point: u32, loan: u32) -> bool {
    exists|i: int| 0 <= i < entries.len() && (#[trigger] entries[i]).0 == point && entries[i].1@.contains(loan)
}

/// Whether `entries` report `loan` at `point`.
fn reports(entries: &Vec<(u32, Vec<u32>)>, point: u32, loan: u32) -> (r: bool)
    ensures
        r == has_error(entries@, point, loan),
{
    let mut i: usize = 0;
    while i < entries.len()
        invariant
            i <= entries@.len(),
            forall|k: int| 0 <= k < i ==> !((#[trigger] entries@[k]).0 == point && entries@[k].1@.contains(loan)),
        decreases entries@.len() - i,
    {
        let entry = &entries[i];
        if entry.0 == point {
            let mut j: usize = 0;
            while j < entry.1.len()
                invariant
                    i < entries@.len(),
                    *entry == entries@[i as int],
                    entry.0 == point,
                    j <= entry.1@.len(),
                    forall|m: int| 0 <= m < j ==> entry.1@[m] != loan,
                decreases entry.1@.len() - j,
            {
                if entry.1[j] == loan {
                    proof {
                        assert(entries@[i as int].1@[j as int] == loan);
                        assert(entries@[i as int].1@.contains(loan));
                    }
                    return true;
                }
                j = j + 1;
            }
        }
        i = i + 1;
    }
    false
}

/// Whether `a` reports an error that `b` does not.
fn misses(a: &Vec<(u32, Vec<u32>)>, b: &Vec<(u32, Vec<u32>)>) -> (r: bool)
    ensures
        r == exists|p: u32, l: u32| has_error(a@, p, l) && !has_error(b@, p, l),
{
    let mut i: usize = 0;
    while i < a.len()
        invariant
            i <= a@.len(),
            forall|k: int, m: int|
                0 <= k < i && 0 <= m < a@[k].1@.len() ==> #[trigger] has_error(b@, a@[k].0, a@[k].1@[m]),
        decreases a@.len() - i,
    {
        let entry = &a[i];
        let mut j: usize = 0;
        while j < entry.1.len()
            invariant
                i < a@.len(),
                *entry == a@[i as int],
                j <= entry.1@.len(),
                forall|k: int, m: int|
                    0 <= k < i && 0 <= m < a@[k].1@.len() ==> #[trigger] has_error(b@, a@[k].0, a@[k].1@[m]),
                forall|m: int| 0 <= m < j ==> #[trigger] has_error(b@, a@[i as int].0, a@[i as int].1@[m]),
            decreases entry.1@.len() - j,
        {
            let loan = entry.1[j];
            if !reports(b, entry.0, loan) {
                proof {
                    assert(a@[i as int].1@[j as int] == loan);
                    assert(has_error(a@, entry.0, loan));
                }
                return true;
            }
            j = j + 1;
        }
        i = i + 1;
    }
    proof {
        assert forall|p: u32, l: u32| has_error(a@, p, l) implies has_error(b@, p, l) by {
            let k = choose|k: int| 0 <= k < a@.len() && (#[trigger] a@[k]).0 == p && a@[k].1@.contains(l);
            let m = choose|m: int| 0 <= m < a@[k].1@.len() && a@[k].1@[m] == l;
            assert(has_error(b@, a@[k].0, a@[k].1@[m]));
        }
    }
    false
}

/// Whether the errors of two analyses, loans listed by point, differ: whether one of them
/// reports a loan at a point where the other does not.
pub fn compare_errors(all_naive_errors: &Vec<(u32, Vec<u32>)>, all_opt_errors: &Vec<(u32, Vec<u32>)>) -> (r: bool)
    ensures
        r == exists|p: u32, l: u32| has_error(all_naive_errors@, p, l) != has_error(all_opt_errors@, p, l),
{
    let a = misses(all_naive_errors, all_opt_errors);
    let b = misses(all_opt_errors, all_naive_errors);
    proof {
        if exists|p: u32, l: u32| has_error(all_naive_errors@, p, l) != has_error(all_opt_errors@, p, l) {
            let (p, l) = choose|p: u32, l: u32| has_error(all_naive_errors@, p, l) != has_error(all_opt_errors@, p, l);
            if has_error(all_naive_errors@, p, l) {
                assert(a);
            } else {
                assert(b);
            }
        }
    }
    a || b
}

/// Comparing errors is symmetric: the errors of two analyses differ the one way round exactly
/// where they differ the other.
pub proof fn lemma_compare_errors_symmetric(a: Seq<(u32, Vec<u32>)>, b: Seq<(u32, Vec<u32>)>)
    ensures
        (exists|p: u32, l: u32| has_error(a, p, l) != has_error(b, p, l)) == (exists|p: u32, l: u32| has_error(b, p, l) != has_error(a, p, l)),
{
    if exists|p: u32, l: u32| has_error(a, p, l) != has_error(b, p, l) {
        let (p, l) = choose|p: u32, l: u32| has_error(a, p, l) != has_error(b, p, l);
        assert(has_error(b, p, l) != has_error(a, p, l));
    }
    if exists|p: u32, l: u32| has_error(b, p, l) != has_error(a, p, l) {
        let (p, l) = choose|p: u32, l: u32| has_error(b, p, l) != has_error(a, p, l);
        assert(has_error(a, p, l) != has_error(b, p, l));
    }
}

/// Whether `db` holds the facts, and what each unit of `units` computes from its inputs.
pub open spec fn runs(facts: AllFacts, units: Seq<Unit>, db: Db) -> bool {
    &&& holds_facts(db, facts)
    &&& forall|i: int| 0 <= i < units.len() ==> #[trigger] unit_holds(units[i], db)
}

/// Two databases that hold the same facts, and what the units of the naive and of the
/// location-insensitive pipeline compute, hold the same relations where both pipelines compute
/// them.
#[verifier::rlimit(60)]
proof fn lemma_shared_relations(facts: AllFacts, n: Db, m: Db)
    requires
        runs(facts, naive_units(), n),
        runs(facts, location_insensitive_units(), m),
    ensures
        unit_holds(Unit::Cfg, n),
        unit_holds(Unit::Paths, n),
        unit_holds(Unit::MaybeInit, n),
        unit_holds(Unit::VarDroppedWhileInit, n),
        unit_holds(Unit::MaybeUninit, n),
        unit_holds(Unit::MoveError, n),
        unit_holds(Unit::KnownPlaceholder, n),
        unit_holds(Unit::LiveOrigins, n),
        unit_holds(Unit::BorrowckNaive, n),
        unit_holds(Unit::Cfg, m),
        unit_holds(Unit::Paths, m),
        unit_holds(Unit::MaybeInit, m),
        unit_holds(Unit::VarDroppedWhileInit, m),
        unit_holds(Unit::MaybeUninit, m),
        unit_holds(Unit::MoveError, m),
        unit_holds(Unit::KnownPlaceholder, m),
        unit_holds(Unit::KnownPlaceholderLoans, m),
        unit_holds(Unit::LiveOrigins, m),
        unit_holds(Unit::BorrowckLocationInsensitive, m),
        unit_holds(Unit::BorrowckLocationInsensitiveAsSensitive, m),
        s2(n.cfg_edge) == s2(m.cfg_edge),
        s2(n.child_path) == s2(m.child_path),
        s2(n.path_is_var) == s2(m.path_is_var),
        s2(n.path_moved_at_base) == s2(m.path_moved_at_base),
        s2(n.path_assigned_at_base) == s2(m.path_assigned_at_base),
        s2(n.path_accessed_at_base) == s2(m.path_accessed_at_base),
        s2(n.var_dropped_at) == s2(m.var_dropped_at),
        s2(n.var_used_at) == s2(m.var_used_at),
        s2(n.var_defined_at) == s2(m.var_defined_at),
        s2(n.use_of_var_derefs_origin) == s2(m.use_of_var_derefs_origin),
        s2(n.drop_of_var_derefs_origin) == s2(m.drop_of_var_derefs_origin),
        s2(n.loan_killed_at) == s2(m.loan_killed_at),
        s2(n.placeholder) == s2(m.placeholder),
        s2(n.known_placeholder_subset_base) == s2(m.known_placeholder_subset_base),
        s2(n.loan_invalidated_at) == s2(m.loan_invalidated_at),
        s2(n.path_moved_at) == s2(m.path_moved_at),
        s2(n.path_assigned_at) == s2(m.path_assigned_at),
        s2(n.path_accessed_at) == s2(m.path_accessed_at),
        s2(n.path_begins_with_var) == s2(m.path_begins_with_var),
        s2(n.path_maybe_initialized_on_exit) == s2(m.path_maybe_initialized_on_exit),
        s2(n.var_dropped_while_init_at) == s2(m.var_dropped_while_init_at),
        s2(n.origin_live_on_entry) == s2(m.origin_live_on_entry),
        s2(n.known_placeholder_subset) == s2(m.known_placeholder_subset),
        s3(n.loan_issued_at) == s3(m.loan_issued_at),
        s3(n.subset_base) == s3(m.subset_base),
        s1(n.universal_region) == s1(m.universal_region),
        s1(n.cfg_node) == s1(m.cfg_node),
{
    let nu = naive_units();
    let mu = location_insensitive_units();
    assert(nu[0] == Unit::Cfg);
    assert(unit_holds(Unit::Cfg, n));
    assert(nu[1] == Unit::Paths);
    assert(unit_holds(Unit::Paths, n));
    assert(nu[2] == Unit::MaybeInit);
    assert(unit_holds(Unit::MaybeInit, n));
    assert(nu[3] == Unit::VarDroppedWhileInit);
    assert(unit_holds(Unit::VarDroppedWhileInit, n));
    assert(nu[4] == Unit::MaybeUninit);
    assert(unit_holds(Unit::MaybeUninit, n));
    assert(nu[5] == Unit::MoveError);
    assert(unit_holds(Unit::MoveError, n));
    assert(nu[6] == Unit::KnownPlaceholder);
    assert(unit_holds(Unit::KnownPlaceholder, n));
    assert(nu[7] == Unit::LiveOrigins);
    assert(unit_holds(Unit::LiveOrigins, n));
    assert(nu[8] == Unit::BorrowckNaive);
    assert(unit_holds(Unit::BorrowckNaive, n));
    assert(mu[0] == Unit::Cfg);
    assert(unit_holds(Unit::Cfg, m));
    assert(mu[1] == Unit::Paths);
    assert(unit_holds(Unit::Paths, m));
    assert(mu[2] == Unit::MaybeInit);
    assert(unit_holds(Unit::MaybeInit, m));
    assert(mu[3] == Unit::VarDroppedWhileInit);
    assert(unit_holds(Unit::VarDroppedWhileInit, m));
    assert(mu[4] == Unit::MaybeUninit);
    assert(unit_holds(Unit::MaybeUninit, m));
    assert(mu[5] == Unit::MoveError);
    assert(unit_holds(Unit::MoveError, m));
    assert(mu[6] == Unit::KnownPlaceholder);
    assert(unit_holds(Unit::KnownPlaceholder, m));
    assert(mu[7] == Unit::KnownPlaceholderLoans);
    assert(unit_holds(Unit::KnownPlaceholderLoans, m));
    assert(mu[8] == Unit::LiveOrigins);
    assert(unit_holds(Unit::LiveOrigins, m));
    assert(mu[9] == Unit::BorrowckLocationInsensitive);
    assert(unit_holds(Unit::BorrowckLocationInsensitive, m));
    assert(mu[10] == Unit::BorrowckLocationInsensitiveAsSensitive);
    assert(unit_holds(Unit::BorrowckLocationInsensitiveAsSensitive, m));
    lemma_sorted_pairs_unique(s2(n.cfg_edge), s2(m.cfg_edge));
    lemma_sorted_pairs_unique(s2(n.child_path), s2(m.child_path));
    lemma_sorted_pairs_unique(s2(n.path_is_var), s2(m.path_is_var));
    lemma_sorted_pairs_unique(s2(n.path_moved_at_base), s2(m.path_moved_at_base));
    lemma_sorted_pairs_unique(s2(n.path_assigned_at_base), s2(m.path_assigned_at_base));
    lemma_sorted_pairs_unique(s2(n.path_accessed_at_base), s2(m.path_accessed_at_base));
    lemma_sorted_pairs_unique(s2(n.var_dropped_at), s2(m.var_dropped_at));
    lemma_sorted_pairs_unique(s2(n.var_used_at), s2(m.var_used_at));
    lemma_sorted_pairs_unique(s2(n.var_defined_at), s2(m.var_defined_at));
    lemma_sorted_pairs_unique(s2(n.use_of_var_derefs_origin), s2(m.use_of_var_derefs_origin));
    lemma_sorted_pairs_unique(s2(n.drop_of_var_derefs_origin), s2(m.drop_of_var_derefs_origin));
    lemma_sorted_pairs_unique(s2(n.loan_killed_at), s2(m.loan_killed_at));
    lemma_sorted_pairs_unique(s2(n.known_placeholder_subset_base), s2(m.known_placeholder_subset_base));
    lemma_sorted_pairs_unique(s2(n.placeholder), s2(m.placeholder));
    lemma_sorted_triples_unique(s3(n.loan_issued_at), s3(m.loan_issued_at));
    lemma_sorted_triples_unique(s3(n.subset_base), s3(m.subset_base));
    lemma_sorted_values_unique(s1(n.universal_region), s1(m.universal_region));
    assert(s2(n.loan_invalidated_at).to_set() =~= s2(m.loan_invalidated_at).to_set()) by {
        assert forall|t: (u32, u32)| s2(n.loan_invalidated_at).contains(t) <==> s2(m.loan_invalidated_at).contains(t) by {
            let (a, b) = t;
            assert(t == (a, b));
        }
    }
    lemma_sorted_pairs_unique(s2(n.loan_invalidated_at), s2(m.loan_invalidated_at));
    lemma_sorted_values_unique(s1(n.cfg_node), s1(m.cfg_node));
    assert(s2(n.path_moved_at).to_set() =~= s2(m.path_moved_at).to_set()) by {
        assert forall|t: (u32, u32)| s2(n.path_moved_at).contains(t) <==> s2(m.path_moved_at).contains(t) by {}
    }
    lemma_sorted_pairs_unique(s2(n.path_moved_at), s2(m.path_moved_at));
    assert(s2(n.path_assigned_at).to_set() =~= s2(m.path_assigned_at).to_set()) by {
        assert forall|t: (u32, u32)| s2(n.path_assigned_at).contains(t) <==> s2(m.path_assigned_at).contains(t) by {}
    }
    lemma_sorted_pairs_unique(s2(n.path_assigned_at), s2(m.path_assigned_at));
    assert(s2(n.path_accessed_at).to_set() =~= s2(m.path_accessed_at).to_set()) by {
        assert forall|t: (u32, u32)| s2(n.path_accessed_at).contains(t) <==> s2(m.path_accessed_at).contains(t) by {}
    }
    lemma_sorted_pairs_unique(s2(n.path_accessed_at), s2(m.path_accessed_at));
    assert(s2(n.path_begins_with_var).to_set() =~= s2(m.path_begins_with_var).to_set()) by {
        assert forall|t: (u32, u32)| s2(n.path_begins_with_var).contains(t) <==> s2(m.path_begins_with_var).contains(t) by {}
    }
    lemma_sorted_pairs_unique(s2(n.path_begins_with_var), s2(m.path_begins_with_var));
    assert(s2(n.path_maybe_initialized_on_exit).to_set() =~= s2(m.path_maybe_initialized_on_exit).to_set()) by {
        assert forall|t: (u32, u32)| s2(n.path_maybe_initialized_on_exit).contains(t) <==> s2(m.path_maybe_initialized_on_exit).contains(t) by {
            let (a, b) = t;
            assert(t == (a, b));
        }
    }
    lemma_sorted_pairs_unique(s2(n.path_maybe_initialized_on_exit), s2(m.path_maybe_initialized_on_exit));
    assert(s2(n.var_dropped_while_init_at).to_set() =~= s2(m.var_dropped_while_init_at).to_set()) by {
        assert forall|t: (u32, u32)| s2(n.var_dropped_while_init_at).contains(t) <==> s2(m.var_dropped_while_init_at).contains(t) by {
            let (a, b) = t;
            assert(t == (a, b));
        }
    }
    lemma_sorted_pairs_unique(s2(n.var_dropped_while_init_at), s2(m.var_dropped_while_init_at));
    assert(s2(n.origin_live_on_entry).to_set() =~= s2(m.origin_live_on_entry).to_set()) by {
        assert forall|t: (u32, u32)| s2(n.origin_live_on_entry).contains(t) <==> s2(m.origin_live_on_entry).contains(t) by {
            let (a, b) = t;
            assert(t == (a, b));
        }
    }
    lemma_sorted_pairs_unique(s2(n.origin_live_on_entry), s2(m.origin_live_on_entry));
    assert(s2(n.known_placeholder_subset).to_set() =~= s2(m.known_placeholder_subset).to_set()) by {
        assert forall|t: (u32, u32)| s2(n.known_placeholder_subset).contains(t) <==> s2(m.known_placeholder_subset).contains(t) by {
            let (a, b) = t;
            assert(t == (a, b));
        }
    }
    lemma_sorted_pairs_unique(s2(n.known_placeholder_subset), s2(m.known_placeholder_subset));
}

/// Two databases that hold the same facts, and what the units of the naive pipeline compute,
/// hold the same relations.
#[verifier::rlimit(60)]
proof fn lemma_naive_runs_agree(facts: AllFacts, n: Db, m: Db)
    requires
        runs(facts, naive_units(), n),
        runs(facts, naive_units(), m),
    ensures
        unit_holds(Unit::Cfg, n),
        unit_holds(Unit::Paths, n),
        unit_holds(Unit::MaybeInit, n),
        unit_holds(Unit::VarDroppedWhileInit, n),
        unit_holds(Unit::MaybeUninit, n),
        unit_holds(Unit::MoveError, n),
        unit_holds(Unit::KnownPlaceholder, n),
        unit_holds(Unit::LiveOrigins, n),
        unit_holds(Unit::BorrowckNaive, n),
        unit_holds(Unit::Cfg, m),
        unit_holds(Unit::Paths, m),
        unit_holds(Unit::MaybeInit, m),
        unit_holds(Unit::VarDroppedWhileInit, m),
        unit_holds(Unit::MaybeUninit, m),
        unit_holds(Unit::MoveError, m),
        unit_holds(Unit::KnownPlaceholder, m),
        unit_holds(Unit::LiveOrigins, m),
        unit_holds(Unit::BorrowckNaive, m),
        s2(n.cfg_edge) == s2(m.cfg_edge),
        s2(n.child_path) == s2(m.child_path),
        s2(n.path_is_var) == s2(m.path_is_var),
        s2(n.path_moved_at_base) == s2(m.path_moved_at_base),
        s2(n.path_assigned_at_base) == s2(m.path_assigned_at_base),
        s2(n.path_accessed_at_base) == s2(m.path_accessed_at_base),
        s2(n.var_dropped_at) == s2(m.var_dropped_at),
        s2(n.var_used_at) == s2(m.var_used_at),
        s2(n.var_defined_at) == s2(m.var_defined_at),
        s2(n.use_of_var_derefs_origin) == s2(m.use_of_var_derefs_origin),
        s2(n.drop_of_var_derefs_origin) == s2(m.drop_of_var_derefs_origin),
        s2(n.loan_killed_at) == s2(m.loan_killed_at),
        s2(n.placeholder) == s2(m.placeholder),
        s2(n.known_placeholder_subset_base) == s2(m.known_placeholder_subset_base),
        s2(n.loan_invalidated_at) == s2(m.loan_invalidated_at),
        s2(n.path_moved_at) == s2(m.path_moved_at),
        s2(n.path_assigned_at) == s2(m.path_assigned_at),
        s2(n.path_accessed_at) == s2(m.path_accessed_at),
        s2(n.path_begins_with_var) == s2(m.path_begins_with_var),
        s2(n.path_maybe_initialized_on_exit) == s2(m.path_maybe_initialized_on_exit),
        s2(n.var_dropped_while_init_at) == s2(m.var_dropped_while_init_at),
        s2(n.origin_live_on_entry) == s2(m.origin_live_on_entry),
        s2(n.known_placeholder_subset) == s2(m.known_placeholder_subset),
        s3(n.loan_issued_at) == s3(m.loan_issued_at),
        s3(n.subset_base) == s3(m.subset_base),
        s1(n.universal_region) == s1(m.universal_region),
        s1(n.cfg_node) == s1(m.cfg_node),
        s2(n.path_maybe_uninitialized_on_exit) == s2(m.path_maybe_uninitialized_on_exit),
        s2(n.move_errors) == s2(m.move_errors),
        s2(n.errors) == s2(m.errors),
        s3(n.subset_errors) == s3(m.subset_errors),
{
    let nu = naive_units();
    let mu = naive_units();
    assert(nu[0] == Unit::Cfg);
    assert(unit_holds(Unit::Cfg, n));
    assert(nu[1] == Unit::Paths);
    assert(unit_holds(Unit::Paths, n));
    assert(nu[2] == Unit::MaybeInit);
    assert(unit_holds(Unit::MaybeInit, n));
    assert(nu[3] == Unit::VarDroppedWhileInit);
    assert(unit_holds(Unit::VarDroppedWhileInit, n));
    assert(nu[4] == Unit::MaybeUninit);
    assert(unit_holds(Unit::MaybeUninit, n));
    assert(nu[5] == Unit::MoveError);
    assert(unit_holds(Unit::MoveError, n));
    assert(nu[6] == Unit::KnownPlaceholder);
    assert(unit_holds(Unit::KnownPlaceholder, n));
    assert(nu[7] == Unit::LiveOrigins);
    assert(unit_holds(Unit::LiveOrigins, n));
    assert(nu[8] == Unit::BorrowckNaive);
    assert(unit_holds(Unit::BorrowckNaive, n));
    assert(mu[0] == Unit::Cfg);
    assert(unit_holds(Unit::Cfg, m));
    assert(mu[1] == Unit::Paths);
    assert(unit_holds(Unit::Paths, m));
    assert(mu[2] == Unit::MaybeInit);
    assert(unit_holds(Unit::MaybeInit, m));
    assert(mu[3] == Unit::VarDroppedWhileInit);
    assert(unit_holds(Unit::VarDroppedWhileInit, m));
    assert(mu[4] == Unit::MaybeUninit);
    assert(unit_holds(Unit::MaybeUninit, m));
    assert(mu[5] == Unit::MoveError);
    assert(unit_holds(Unit::MoveError, m));
    assert(mu[6] == Unit::KnownPlaceholder);
    assert(unit_holds(Unit::KnownPlaceholder, m));
    assert(mu[7] == Unit::LiveOrigins);
    assert(unit_holds(Unit::LiveOrigins, m));
    assert(mu[8] == Unit::BorrowckNaive);
    assert(unit_holds(Unit::BorrowckNaive, m));
    lemma_sorted_pairs_unique(s2(n.cfg_edge), s2(m.cfg_edge));
    lemma_sorted_pairs_unique(s2(n.child_path), s2(m.child_path));
    lemma_sorted_pairs_unique(s2(n.path_is_var), s2(m.path_is_var));
    lemma_sorted_pairs_unique(s2(n.path_moved_at_base), s2(m.path_moved_at_base));
    lemma_sorted_pairs_unique(s2(n.path_assigned_at_base), s2(m.path_assigned_at_base));
    lemma_sorted_pairs_unique(s2(n.path_accessed_at_base), s2(m.path_accessed_at_base));
    lemma_sorted_pairs_unique(s2(n.var_dropped_at), s2(m.var_dropped_at));
    lemma_sorted_pairs_unique(s2(n.var_used_at), s2(m.var_used_at));
    lemma_sorted_pairs_unique(s2(n.var_defined_at), s2(m.var_defined_at));
    lemma_sorted_pairs_unique(s2(n.use_of_var_derefs_origin), s2(m.use_of_var_derefs_origin));
    lemma_sorted_pairs_unique(s2(n.drop_of_var_derefs_origin), s2(m.drop_of_var_derefs_origin));
    lemma_sorted_pairs_unique(s2(n.loan_killed_at), s2(m.loan_killed_at));
    lemma_sorted_pairs_unique(s2(n.known_placeholder_subset_base), s2(m.known_placeholder_subset_base));
    lemma_sorted_pairs_unique(s2(n.placeholder), s2(m.placeholder));
    lemma_sorted_triples_unique(s3(n.loan_issued_at), s3(m.loan_issued_at));
    lemma_sorted_triples_unique(s3(n.subset_base), s3(m.subset_base));
    lemma_sorted_values_unique(s1(n.universal_region), s1(m.universal_region));
    assert(s2(n.loan_invalidated_at).to_set() =~= s2(m.loan_invalidated_at).to_set()) by {
        assert forall|t: (u32, u32)| s2(n.loan_invalidated_at).contains(t) <==> s2(m.loan_invalidated_at).contains(t) by {
            let (a, b) = t;
            assert(t == (a, b));
        }
    }
    lemma_sorted_pairs_unique(s2(n.loan_invalidated_at), s2(m.loan_invalidated_at));
    lemma_sorted_values_unique(s1(n.cfg_node), s1(m.cfg_node));
    assert(s2(n.path_moved_at).to_set() =~= s2(m.path_moved_at).to_set()) by {
        assert forall|t: (u32, u32)| s2(n.path_moved_at).contains(t) <==> s2(m.path_moved_at).contains(t) by {}
    }
    lemma_sorted_pairs_unique(s2(n.path_moved_at), s2(m.path_moved_at));
    assert(s2(n.path_assigned_at).to_set() =~= s2(m.path_assigned_at).to_set()) by {
        assert forall|t: (u32, u32)| s2(n.path_assigned_at).contains(t) <==> s2(m.path_assigned_at).contains(t) by {}
    }
    lemma_sorted_pairs_unique(s2(n.path_assigned_at), s2(m.path_assigned_at));
    assert(s2(n.path_accessed_at).to_set() =~= s2(m.path_accessed_at).to_set()) by {
        assert forall|t: (u32, u32)| s2(n.path_accessed_at).contains(t) <==> s2(m.path_accessed_at).contains(t) by {}
    }
    lemma_sorted_pairs_unique(s2(n.path_accessed_at), s2(m.path_accessed_at));
    assert(s2(n.path_begins_with_var).to_set() =~= s2(m.path_begins_with_var).to_set()) by {
        assert forall|t: (u32, u32)| s2(n.path_begins_with_var).contains(t) <==> s2(m.path_begins_with_var).contains(t) by {}
    }
    lemma_sorted_pairs_unique(s2(n.path_begins_with_var), s2(m.path_begins_with_var));
    assert(s2(n.path_maybe_initialized_on_exit).to_set() =~= s2(m.path_maybe_initialized_on_exit).to_set()) by {
        assert forall|t: (u32, u32)| s2(n.path_maybe_initialized_on_exit).contains(t) <==> s2(m.path_maybe_initialized_on_exit).contains(t) by {
            let (a, b) = t;
            assert(t == (a, b));
        }
    }
    lemma_sorted_pairs_unique(s2(n.path_maybe_initialized_on_exit), s2(m.path_maybe_initialized_on_exit));
    assert(s2(n.var_dropped_while_init_at).to_set() =~= s2(m.var_dropped_while_init_at).to_set()) by {
        assert forall|t: (u32, u32)| s2(n.var_dropped_while_init_at).contains(t) <==> s2(m.var_dropped_while_init_at).contains(t) by {
            let (a, b) = t;
            assert(t == (a, b));
        }
    }
    lemma_sorted_pairs_unique(s2(n.var_dropped_while_init_at), s2(m.var_dropped_while_init_at));
    assert(s2(n.origin_live_on_entry).to_set() =~= s2(m.origin_live_on_entry).to_set()) by {
        assert forall|t: (u32, u32)| s2(n.origin_live_on_entry).contains(t) <==> s2(m.origin_live_on_entry).contains(t) by {
            let (a, b) = t;
            assert(t == (a, b));
        }
    }
    lemma_sorted_pairs_unique(s2(n.origin_live_on_entry), s2(m.origin_live_on_entry));
    assert(s2(n.known_placeholder_subset).to_set() =~= s2(m.known_placeholder_subset).to_set()) by {
        assert forall|t: (u32, u32)| s2(n.known_placeholder_subset).contains(t) <==> s2(m.known_placeholder_subset).contains(t) by {
            let (a, b) = t;
            assert(t == (a, b));
        }
    }
    lemma_sorted_pairs_unique(s2(n.known_placeholder_subset), s2(m.known_placeholder_subset));
    assert(s2(n.path_maybe_uninitialized_on_exit).to_set() =~= s2(m.path_maybe_uninitialized_on_exit).to_set()) by {
        assert forall|t: (u32, u32)| s2(n.path_maybe_uninitialized_on_exit).contains(t) <==> s2(m.path_maybe_uninitialized_on_exit).contains(t) by {
            let (a, b) = t;
            assert(t == (a, b));
        }
    }
    lemma_sorted_pairs_unique(s2(n.path_maybe_uninitialized_on_exit), s2(m.path_maybe_uninitialized_on_exit));
    assert(s2(n.move_errors).to_set() =~= s2(m.move_errors).to_set()) by {
        assert forall|t: (u32, u32)| s2(n.move_errors).contains(t) <==> s2(m.move_errors).contains(t) by {
            let (a, b) = t;
            assert(t == (a, b));
        }
    }
    lemma_sorted_pairs_unique(s2(n.move_errors), s2(m.move_errors));
    let sr = subset_rules(s3(n.subset_base).to_set(), s2(n.cfg_edge).to_set(), s2(n.origin_live_on_entry).to_set());
    let (sn, cn) = choose|sn: Set<(u32, u32, u32)>, cn: Set<(u32, u32, u32)>| {
        &&& least_closed(sr, sn)
        &&& least_closed(
            contains_rules(
                s3(n.loan_issued_at).to_set(),
                s2(n.loan_killed_at).to_set(),
                s2(n.cfg_edge).to_set(),
                s2(n.origin_live_on_entry).to_set(),
                sn,
            ),
            cn,
        )
        &&& forall|l: u32, p: u32| #[trigger] s2(n.errors).contains((l, p)) <==> {
            &&& s2(n.loan_invalidated_at).contains((l, p))
            &&& exists|o: u32| #[trigger] cn.contains((o, l, p)) && s2(n.origin_live_on_entry).contains((o, p))
        }
        &&& forall|a: u32, b: u32, p: u32| #[trigger] s3(n.subset_errors).contains((a, b, p)) <==> {
            &&& sn.contains((a, b, p))
            &&& s1(n.universal_region).contains(a)
            &&& s1(n.universal_region).contains(b)
            &&& !s2(n.known_placeholder_subset).contains((a, b))
        }
    };
    let (sm, cm) = choose|sm: Set<(u32, u32, u32)>, cm: Set<(u32, u32, u32)>| {
        &&& least_closed(
            subset_rules(s3(m.subset_base).to_set(), s2(m.cfg_edge).to_set(), s2(m.origin_live_on_entry).to_set()),
            sm,
        )
        &&& least_closed(
            contains_rules(
                s3(m.loan_issued_at).to_set(),
                s2(m.loan_killed_at).to_set(),
                s2(m.cfg_edge).to_set(),
                s2(m.origin_live_on_entry).to_set(),
                sm,
            ),
            cm,
        )
        &&& forall|l: u32, p: u32| #[trigger] s2(m.errors).contains((l, p)) <==> {
            &&& s2(m.loan_invalidated_at).contains((l, p))
            &&& exists|o: u32| #[trigger] cm.contains((o, l, p)) && s2(m.origin_live_on_entry).contains((o, p))
        }
        &&& forall|a: u32, b: u32, p: u32| #[trigger] s3(m.subset_errors).contains((a, b, p)) <==> {
            &&& sm.contains((a, b, p))
            &&& s1(m.universal_region).contains(a)
            &&& s1(m.universal_region).contains(b)
            &&& !s2(m.known_placeholder_subset).contains((a, b))
        }
    };
    lemma_least_closed_unique(sr, sn, sm);
    lemma_least_closed_unique(
        contains_rules(
            s3(n.loan_issued_at).to_set(),
            s2(n.loan_killed_at).to_set(),
            s2(n.cfg_edge).to_set(),
            s2(n.origin_live_on_entry).to_set(),
            sn,
        ),
        cn,
        cm,
    );
    lemma_same_members2(s2(n.errors), s2(m.errors));
    lemma_same_members3(s3(n.subset_errors), s3(m.subset_errors));
}

/// What the units of the optimized, comparison and hybrid pipelines compute, the naive
/// pipeline's units compute too.
proof fn lemma_variant_runs_naive(facts: AllFacts, algorithm: Algorithm, db: Db)
    requires
        algorithm != Algorithm::LocationInsensitive,
        runs(facts, algorithm_units(algorithm), db),
    ensures
        runs(facts, naive_units(), db),
{
    let nu = naive_units();
    let units = algorithm_units(algorithm);
    if algorithm == Algorithm::Hybrid {
        assert(units[0] == nu[0]);
        assert(units[1] == nu[1]);
        assert(units[2] == nu[2]);
        assert(units[3] == nu[3]);
        assert(units[4] == nu[4]);
        assert(units[5] == nu[5]);
        assert(units[6] == nu[6]);
        assert(units[8] == nu[7]);
        assert(units[10] == Unit::BorrowckOptimized);
        assert(unit_holds(units[10], db));
        assert forall|i: int| 0 <= i < nu.len() implies #[trigger] unit_holds(nu[i], db) by {
            if i < 7 {
                assert(unit_holds(units[i], db));
            } else if i == 7 {
                assert(unit_holds(units[8], db));
            }
        }
    } else {
        assert(units[8] == Unit::BorrowckNaive || units[8] == Unit::BorrowckOptimized);
        assert forall|i: int| 0 <= i < nu.len() implies #[trigger] unit_holds(nu[i], db) by {
            assert(unit_holds(units[i], db));
            if i < 8 {
                assert(units[i] == nu[i]);
            }
        }
    }
}

/// On the same facts, the optimized, comparison and hybrid algorithms report exactly the
/// errors, subset errors and move errors of the naive analysis.
pub proof fn lemma_variants_give_naive_errors(facts: AllFacts, algorithm: Algorithm, naive: Output, other: Output)
    requires
        algorithm != Algorithm::LocationInsensitive,
        computed(facts, Algorithm::Naive, naive),
        computed(facts, algorithm, other),
    ensures
        other.errors@ == naive.errors@,
        other.move_errors@ == naive.move_errors@,
        other.subset_errors@ == naive.subset_errors@,
{
    let n = choose|db: Db| {
        &&& #[trigger] runs(facts, algorithm_units(Algorithm::Naive), db)
        &&& naive.errors@ == s2(db.errors)
        &&& naive.subset_errors@ == s3(db.subset_errors)
        &&& naive.move_errors@ == s2(db.move_errors)
        &&& naive.origin_live_on_entry@ == s2(db.origin_live_on_entry)
        &&& naive.dump_enabled ==> details_of(db, Algorithm::Naive, naive)
        &&& !naive.dump_enabled ==> no_details(naive)
    };
    let m = choose|db: Db| {
        &&& #[trigger] runs(facts, algorithm_units(algorithm), db)
        &&& other.errors@ == s2(db.errors)
        &&& other.subset_errors@ == s3(db.subset_errors)
        &&& other.move_errors@ == s2(db.move_errors)
        &&& other.origin_live_on_entry@ == s2(db.origin_live_on_entry)
        &&& other.dump_enabled ==> details_of(db, algorithm, other)
        &&& !other.dump_enabled ==> no_details(other)
    };
    lemma_variant_runs_naive(facts, algorithm, m);
    lemma_naive_runs_agree(facts, n, m);
}

/// On the same facts, the location-insensitive pipeline reports each error that the naive
/// one reports.
pub proof fn lemma_location_insensitive_pipeline_finds_naive_errors(facts: AllFacts, naive: Db, insensitive: Db, l: u32, p: u32)
    requires
        runs(facts, naive_units(), naive),
        runs(facts, location_insensitive_units(), insensitive),
        s2(naive.errors).contains((l, p)),
    ensures
        s2(insensitive.errors).contains((l, p)),
{
    let n = naive;
    let m = insensitive;
    lemma_shared_relations(facts, n, m);
    let (sub, con) = choose|sub: Set<(u32, u32, u32)>, con: Set<(u32, u32, u32)>| {
        &&& least_closed(
            subset_rules(s3(n.subset_base).to_set(), s2(n.cfg_edge).to_set(), s2(n.origin_live_on_entry).to_set()),
            sub,
        )
        &&& least_closed(
            contains_rules(
                s3(n.loan_issued_at).to_set(),
                s2(n.loan_killed_at).to_set(),
                s2(n.cfg_edge).to_set(),
                s2(n.origin_live_on_entry).to_set(),
                sub,
            ),
            con,
        )
        &&& sorted2(s2(n.errors))
        &&& forall|l: u32, p: u32| #[trigger] s2(n.errors).contains((l, p)) <==> {
            &&& s2(n.loan_invalidated_at).contains((l, p))
            &&& exists|o: u32| #[trigger] con.contains((o, l, p)) && s2(n.origin_live_on_entry).contains((o, p))
        }
    };
    lemma_location_insensitive_finds_naive_errors(
        s3(n.subset_base),
        s3(n.loan_issued_at),
        s2(n.placeholder),
        s2(n.cfg_edge),
        s2(n.origin_live_on_entry),
        s2(n.loan_killed_at),
        s2(n.loan_invalidated_at),
        sub,
        con,
        l,
        p,
    );
    assert(s2(m.potential_errors).contains((l, p)));
}

/// On the same facts, the location-insensitive algorithm reports each error that the naive one
/// reports.
pub proof fn lemma_location_insensitive_output_finds_naive_errors(facts: AllFacts, naive: Output, insensitive: Output, l: u32, p: u32)
    requires
        computed(facts, Algorithm::Naive, naive),
        computed(facts, Algorithm::LocationInsensitive, insensitive),
        naive.errors@.contains((l, p)),
    ensures
        insensitive.errors@.contains((l, p)),
{
    let n = choose|db: Db| {
        &&& #[trigger] runs(facts, naive_units(), db)
        &&& naive.errors@ == s2(db.errors)
        &&& naive.subset_errors@ == s3(db.subset_errors)
        &&& naive.move_errors@ == s2(db.move_errors)
        &&& naive.origin_live_on_entry@ == s2(db.origin_live_on_entry)
    };
    let m = choose|db: Db| {
        &&& #[trigger] runs(facts, location_insensitive_units(), db)
        &&& insensitive.errors@ == s2(db.errors)
        &&& insensitive.subset_errors@ == s3(db.subset_errors)
        &&& insensitive.move_errors@ == s2(db.move_errors)
        &&& insensitive.origin_live_on_entry@ == s2(db.origin_live_on_entry)
    };
    lemma_location_insensitive_pipeline_finds_naive_errors(facts, n, m, l, p);
}

/// Whether every universal region of `facts` has a placeholder loan, and no loan is the
/// placeholder loan of two origins: as the facts of a program have them.
pub open spec fn placeholders_consistent(facts: AllFacts) -> bool {
    &&& forall|o: u32| #[trigger] facts.universal_region@.contains(o) ==> exists|l: u32| #[trigger] facts.placeholder@.contains((o, l))
    &&& forall|o1: u32, o2: u32, l: u32|
        #[trigger] facts.placeholder@.contains((o1, l)) && #[trigger] facts.placeholder@.contains((o2, l)) ==> o1 == o2
}

/// A walk of at least one step along a relation of pairs connected along `base` leads where a
/// walk along `base` leads.
proof fn lemma_closure_walk(base: Set<(u32, u32)>, k: Set<(u32, u32)>, w: Seq<u32>)
    requires
        forall|x: u32, y: u32| #[trigger] k.contains((x, y)) ==> connected(base, x, y),
        is_walk(k, w),
        w.len() >= 2,
    ensures
        connected(base, w[0], w.last()),
    decreases w.len(),
{
    let last = w.len() - 1;
    let j = last - 1;
    assert(k.contains((w[j], w[j + 1])));
    if w.len() > 2 {
        let w1 = w.drop_last();
        assert(is_walk(k, w1)) by {
            assert forall|i: int| 0 <= i < w1.len() - 1 implies #[trigger] k.contains((w1[i], w1[i + 1])) by {
                assert(w1[i] == w[i]);
                assert(w1[i + 1] == w[i + 1]);
            }
        }
        lemma_closure_walk(base, k, w1);
        assert(w1.last() == w[j]);
        let v1 = choose|v: Seq<u32>| #[trigger] is_walk(base, v) && v.len() >= 2 && v[0] == w1[0] && v.last() == w1.last();
        let v2 = choose|v: Seq<u32>| #[trigger] is_walk(base, v) && v.len() >= 2 && v[0] == w[j] && v.last() == w[last];
        lemma_walk_concat(base, v1, v2);
        let v = v1 + v2.drop_first();
        assert(is_walk(base, v) && v.len() >= 2 && v[0] == w[0] && v.last() == w.last());
    }
}

/// On the same facts, where each universal region has a placeholder loan of its own, the
/// location-insensitive pipeline reports each subset error that the naive one reports, at
/// point 0.
#[verifier::rlimit(40)]
pub proof fn lemma_location_insensitive_pipeline_finds_naive_subset_errors(
    facts: AllFacts,
    naive: Db,
    insensitive: Db,
    a: u32,
    b: u32,
    p: u32,
)
    requires
        runs(facts, naive_units(), naive),
        runs(facts, location_insensitive_units(), insensitive),
        placeholders_consistent(facts),
        s3(naive.subset_errors).contains((a, b, p)),
    ensures
        s3(insensitive.subset_errors).contains((a, b, 0)),
{
    let n = naive;
    let m = insensitive;
    lemma_shared_relations(facts, n, m);
    let base = s3(n.subset_base);
    let cfg = s2(n.cfg_edge);
    let live = s2(n.origin_live_on_entry);
    let placeholder = s2(n.placeholder);
    let known = s2(n.known_placeholder_subset);
    let (sub, con) = choose|sub: Set<(u32, u32, u32)>, con: Set<(u32, u32, u32)>| {
        &&& least_closed(subset_rules(base.to_set(), cfg.to_set(), live.to_set()), sub)
        &&& least_closed(
            contains_rules(s3(n.loan_issued_at).to_set(), s2(n.loan_killed_at).to_set(), cfg.to_set(), live.to_set(), sub),
            con,
        )
        &&& sorted3(s3(n.subset_errors))
        &&& forall|x: u32, y: u32, q: u32| #[trigger] s3(n.subset_errors).contains((x, y, q)) <==> {
            &&& sub.contains((x, y, q))
            &&& s1(n.universal_region).contains(x)
            &&& s1(n.universal_region).contains(y)
            &&& !known.contains((x, y))
        }
    };
    assert(sub.contains((a, b, p)));
    lemma_subset_irreflexive(base.to_set(), cfg.to_set(), live.to_set(), sub);
    assert(a != b);
    assert(s1(n.universal_region).to_set().contains(a));
    assert(s1(n.universal_region).to_set().contains(b));
    assert(facts.universal_region@.contains(a));
    assert(facts.universal_region@.contains(b));
    let l1 = choose|l: u32| facts.placeholder@.contains((a, l));
    let l2 = choose|l: u32| facts.placeholder@.contains((b, l));
    assert(facts.placeholder@.to_set().contains((a, l1)));
    assert(facts.placeholder@.to_set().contains((b, l2)));
    assert(placeholder.contains((a, l1)));
    assert(placeholder.contains((b, l2)));
    lemma_subset_connected(base, cfg.to_set(), live.to_set(), sub);
    assert(connected(first_two(base), a, b));
    let w = choose|w: Seq<u32>| #[trigger] is_walk(first_two(base), w) && w.len() >= 2 && w[0] == a && w.last() == b;
    assert((first_two(s3(n.loan_issued_at)) + placeholder.to_set()).contains((w[0], l1)));
    assert(contains_loan_anywhere(s3(n.loan_issued_at), placeholder, base, b, l1));
    assert(!s2(m.known_placeholder_requires).contains((b, l1))) by {
        if s2(m.known_placeholder_requires).contains((b, l1)) {
            let kb = s2(n.known_placeholder_subset_base).to_set();
            let k = known.to_set();
            let v = choose|v: Seq<u32>| #[trigger] is_walk(k, v) && v.last() == b && placeholder.to_set().contains((v[0], l1));
            assert(placeholder.contains((v[0], l1)));
            assert(facts.placeholder@.to_set().contains((v[0], l1)));
            assert(facts.placeholder@.contains((v[0], l1)));
            assert(v[0] == a);
            if v.len() >= 2 {
                assert forall|x: u32, y: u32| #[trigger] k.contains((x, y)) implies connected(kb, x, y) by {
                    assert(known.contains((x, y)));
                }
                lemma_closure_walk(kb, k, v);
                assert(known.contains((a, b)));
            } else {
                assert(v.last() == v[0]);
            }
        }
    }
    assert(s2(m.placeholder).contains((a, l1)) && s2(m.placeholder).contains((b, l2)));
    assert(s2(m.potential_subset_errors).contains((a, b)));
}

/// On the same facts, where each universal region has a placeholder loan of its own, the
/// location-insensitive algorithm reports each subset error that the naive one reports, at
/// point 0.
pub proof fn lemma_location_insensitive_output_finds_naive_subset_errors(
    facts: AllFacts,
    naive: Output,
    insensitive: Output,
    a: u32,
    b: u32,
    p: u32,
)
    requires
        computed(facts, Algorithm::Naive, naive),
        computed(facts, Algorithm::LocationInsensitive, insensitive),
        placeholders_consistent(facts),
        naive.subset_errors@.contains((a, b, p)),
    ensures
        insensitive.subset_errors@.contains((a, b, 0)),
{
    let n = choose|db: Db| {
        &&& #[trigger] runs(facts, naive_units(), db)
        &&& naive.errors@ == s2(db.errors)
        &&& naive.subset_errors@ == s3(db.subset_errors)
        &&& naive.move_errors@ == s2(db.move_errors)
        &&& naive.origin_live_on_entry@ == s2(db.origin_live_on_entry)
    };
    let m = choose|db: Db| {
        &&& #[trigger] runs(facts, location_insensitive_units(), db)
        &&& insensitive.errors@ == s2(db.errors)
        &&& insensitive.subset_errors@ == s3(db.subset_errors)
        &&& insensitive.move_errors@ == s2(db.move_errors)
        &&& insensitive.origin_live_on_entry@ == s2(db.origin_live_on_entry)
    };
    lemma_location_insensitive_pipeline_finds_naive_subset_errors(facts, n, m, a, b, p);
}

} // verus!
