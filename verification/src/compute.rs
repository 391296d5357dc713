//! Computations of the borrow analysis: each one derives relations from relations, by the
//! datalog rules quoted in its documentation.
//!
//! Inputs may come in any order and with repeated tuples; outputs are sorted relations.

use vstd::prelude::*;
use crate::facts::{sorted1, sorted2, sorted3};
use crate::relation::{
    is_walk, join_on_first, pairs_not_in, propagate, propagate_unless, reached, reached_unless,
    relation_of_pairs, relation_of_triples, relation_of_values,
};

verus! {

/// The nodes of a control-flow graph: each point that an edge starts or ends at.
pub open spec fn cfg_nodes(edges: Seq<(u32, u32)>) -> Set<u32> {
    Set::new(|p: u32| exists|q: u32| edges.contains((p, q)) || edges.contains((q, p)))
}

/// The pairs of `v`, each with its components swapped.
pub(crate) fn swap_pairs(v: &Vec<(u32, u32)>) -> (r: Vec<(u32, u32)>)
    ensures
        r@.len() == v@.len(),
        forall|i: int| 0 <= i < v@.len() ==> #[trigger] r@[i] == (v@[i].1, v@[i].0),
{
    let mut r: Vec<(u32, u32)> = Vec::new();
    let mut i: usize = 0;
    while i < v.len()
        invariant
            i <= v@.len(),
            r@.len() == i,
            forall|k: int| 0 <= k < i ==> #[trigger] r@[k] == (v@[k].1, v@[k].0),
        decreases v@.len() - i,
    {
        let t = v[i];
        r.push((t.1, t.0));
        i = i + 1;
    }
    r
}

pub(crate) proof fn lemma_swap_contains(v: Seq<(u32, u32)>, r: Seq<(u32, u32)>, a: u32, b: u32)
    requires
        r.len() == v.len(),
        forall|i: int| 0 <= i < v.len() ==> #[trigger] r[i] == (v[i].1, v[i].0),
    ensures
        r.contains((a, b)) <==> v.contains((b, a)),
{
    if r.contains((a, b)) {
        let i = choose|i: int| 0 <= i < r.len() && r[i] == (a, b);
        assert(v[i] == (b, a));
    }
    if v.contains((b, a)) {
        let i = choose|i: int| 0 <= i < v.len() && v[i] == (b, a);
        assert(r[i] == (a, b));
    }
}

/// The control-flow graph's nodes.
#[derive(Clone, Copy)]
pub struct Cfg;

impl Cfg {
    /// `cfg_node(point)` for each point that is the source or the target of an edge of
    /// `cfg_edge`.
    pub fn compute(&self, cfg_edge: &Vec<(u32, u32)>) -> (cfg_node: Vec<u32>)
        ensures
            sorted1(cfg_node@),
            cfg_node@.to_set() == cfg_nodes(cfg_edge@),
    {
        let mut nodes: Vec<u32> = Vec::new();
        let mut i: usize = 0;
        while i < cfg_edge.len()
            invariant
                i <= cfg_edge@.len(),
                nodes@.len() == i,
                forall|k: int| 0 <= k < i ==> #[trigger] nodes@[k] == cfg_edge@[k].0,
            decreases cfg_edge@.len() - i,
        {
            nodes.push(cfg_edge[i].0);
            i = i + 1;
        }
        let mut j: usize = 0;
        while j < cfg_edge.len()
            invariant
                j <= cfg_edge@.len(),
                nodes@.len() == cfg_edge@.len() + j,
                forall|k: int| 0 <= k < cfg_edge@.len() ==> #[trigger] nodes@[k] == cfg_edge@[k].0,
                forall|k: int| 0 <= k < j ==> #[trigger] nodes@[cfg_edge@.len() + k] == cfg_edge@[k].1,
            decreases cfg_edge@.len() - j,
        {
            nodes.push(cfg_edge[j].1);
            j = j + 1;
        }
        let ghost all = nodes@;
        let r = relation_of_values(nodes);
        proof {
            let n = cfg_edge@.len();
            assert forall|p: u32| all.to_set().contains(p) implies cfg_nodes(cfg_edge@).contains(p) by {
                let k = choose|k: int| 0 <= k < all.len() && all[k] == p;
                if k < n {
                    assert(cfg_edge@.contains((p, cfg_edge@[k].1)));
                } else {
                    assert(all[n + (k - n)] == cfg_edge@[k - n].1);
                    assert(cfg_edge@.contains((cfg_edge@[k - n].0, p)));
                }
            }
            assert forall|p: u32| cfg_nodes(cfg_edge@).contains(p) implies all.to_set().contains(p) by {
                let q = choose|q: u32| cfg_edge@.contains((p, q)) || cfg_edge@.contains((q, p));
                if cfg_edge@.contains((p, q)) {
                    let k = choose|k: int| 0 <= k < n && cfg_edge@[k] == (p, q);
                    assert(all[k] == p);
                } else {
                    let k = choose|k: int| 0 <= k < n && cfg_edge@[k] == (q, p);
                    assert(all[n + k] == p);
                }
            }
            assert(all.to_set() =~= cfg_nodes(cfg_edge@));
        }
        r
    }
}

/// Whether some walk of at least one edge along `edges` goes from `a` to `b`: whether `(a,
/// b)` is in the transitive closure of `edges`.
pub open spec fn connected(edges: Set<(u32, u32)>, a: u32, b: u32) -> bool {
    exists|w: Seq<u32>| #[trigger] is_walk(edges, w) && w.len() >= 2 && w[0] == a && w.last() == b
}

/// Reaching `b` from the pairs of `base` swapped, along `base`, with payload `a`, is being
/// connected from `a` to `b`.
proof fn lemma_connected_reached(base: Seq<(u32, u32)>, starts: Seq<(u32, u32)>, a: u32, b: u32)
    requires
        starts.len() == base.len(),
        forall|i: int| 0 <= i < base.len() ==> #[trigger] starts[i] == (base[i].1, base[i].0),
    ensures
        reached(starts.to_set(), base.to_set(), (b, a)) <==> connected(base.to_set(), a, b),
{
    let e = base.to_set();
    if reached(starts.to_set(), e, (b, a)) {
        let w = choose|w: Seq<u32>| #[trigger] is_walk(e, w) && w.last() == b && starts.to_set().contains((w[0], a));
        lemma_swap_contains(base, starts, w[0], a);
        let v = seq![a] + w;
        assert(is_walk(e, v)) by {
            assert forall|i: int| 0 <= i < v.len() - 1 implies #[trigger] e.contains((v[i], v[i + 1])) by {
                if i == 0 {
                    assert(v[1] == w[0]);
                    assert(base.contains((a, w[0])));
                } else {
                    assert(v[i] == w[i - 1]);
                    assert(v[i + 1] == w[i]);
                    let j = i - 1;
                    assert(e.contains((w[j], w[j + 1])));
                }
            }
        }
        assert(v.last() == w.last());
        assert(v[0] == a);
    }
    if connected(e, a, b) {
        let v = choose|v: Seq<u32>| #[trigger] is_walk(e, v) && v.len() >= 2 && v[0] == a && v.last() == b;
        let w = v.drop_first();
        assert(is_walk(e, w)) by {
            assert forall|i: int| 0 <= i < w.len() - 1 implies #[trigger] e.contains((w[i], w[i + 1])) by {
                assert(w[i] == v[i + 1]);
                assert(w[i + 1] == v[i + 2]);
                let j = i + 1;
                assert(e.contains((v[j], v[j + 1])));
            }
        }
        let z: int = 0;
        assert(e.contains((v[z], v[z + 1])));
        assert(base.contains((a, w[0])));
        lemma_swap_contains(base, starts, w[0], a);
        assert(starts.to_set().contains((w[0], a)));
        assert(w.last() == b);
    }
}

/// The transitive closure of the known subsets between placeholders.
#[derive(Clone, Copy)]
pub struct KnownPlaceholder;

impl KnownPlaceholder {
    /// `known_placeholder_subset(origin1, origin3)` when a chain of
    /// `known_placeholder_subset_base` relations leads from `origin1` to `origin3`:
    ///
    /// ```text
    /// known_placeholder_subset(Origin1, Origin2) :-
    ///   known_placeholder_subset_base(Origin1, Origin2).
    /// known_placeholder_subset(Origin1, Origin3) :-
    ///   known_placeholder_subset(Origin1, Origin2),
    ///   known_placeholder_subset_base(Origin2, Origin3).
    /// ```
    pub fn compute(&self, known_placeholder_subset_base: &Vec<(u32, u32)>) -> (known_placeholder_subset: Vec<(u32, u32)>)
        ensures
            sorted2(known_placeholder_subset@),
            forall|a: u32, b: u32| #[trigger] known_placeholder_subset@.contains((a, b)) <==> connected(
                known_placeholder_subset_base@.to_set(),
                a,
                b,
            ),
    {
        let edges = relation_of_pairs(copy_pairs_of(known_placeholder_subset_base));
        let ghost e = known_placeholder_subset_base@.to_set();
        // the pairs `(origin2, origin1)`: `origin1` is known to be a subset of `origin2`
        let starts = swap_pairs(known_placeholder_subset_base);
        let reach = propagate(&starts, &edges);
        let ends = swap_pairs(&reach);
        let r = relation_of_pairs(ends);
        proof {
            assert(edges@.to_set() == e);
            assert forall|a: u32, b: u32| #[trigger] r@.contains((a, b)) <==> connected(e, a, b) by {
                lemma_swap_contains(reach@, ends@, a, b);
                assert(r@.contains((a, b)) <==> r@.to_set().contains((a, b)));
                assert(ends@.contains((a, b)) <==> ends@.to_set().contains((a, b)));
                lemma_connected_reached(known_placeholder_subset_base@, starts@, a, b);
            }
        }
        r
    }
}

/// A copy of `v`.
fn copy_pairs_of(v: &Vec<(u32, u32)>) -> (r: Vec<(u32, u32)>)
    ensures
        r@ == v@,
{
    crate::relation::copy_pairs(v)
}

/// The placeholder loans that each placeholder origin is known to contain.
#[derive(Clone, Copy)]
pub struct KnownPlaceholderLoans;

impl KnownPlaceholderLoans {
    /// `known_contains(origin, loan)`: the placeholder loans that each origin contains,
    /// through the known subsets (see [`reached`]):
    ///
    /// ```text
    /// known_contains(Origin1, Loan1) :-
    ///   placeholder(Origin1, Loan1).
    /// known_contains(Origin2, Loan1) :-
    ///   known_contains(Origin1, Loan1),
    ///   known_placeholder_subset(Origin1, Origin2).
    /// ```
    pub fn compute(&self, known_placeholder_subset: &Vec<(u32, u32)>, placeholder: &Vec<(u32, u32)>) -> (known_placeholder_requires: Vec<(u32, u32)>)
        ensures
            sorted2(known_placeholder_requires@),
            forall|t: (u32, u32)| #[trigger] known_placeholder_requires@.contains(t) <==> reached(
                placeholder@.to_set(),
                known_placeholder_subset@.to_set(),
                t,
            ),
    {
        let edges = relation_of_pairs(copy_pairs_of(known_placeholder_subset));
        let r = propagate(placeholder, &edges);
        proof {
            assert(edges@.to_set() == known_placeholder_subset@.to_set());
        }
        r
    }
}

/// The pairs `(a, b)` of the triples `(a, b, _)` of `v`.
fn drop_third(v: &Vec<(u32, u32, u32)>) -> (r: Vec<(u32, u32)>)
    ensures
        forall|a: u32, b: u32| #[trigger] r@.contains((a, b)) <==> exists|c: u32| v@.contains((a, b, c)),
{
    let mut r: Vec<(u32, u32)> = Vec::new();
    let mut i: usize = 0;
    while i < v.len()
        invariant
            i <= v@.len(),
            r@.len() == i,
            forall|k: int| 0 <= k < i ==> #[trigger] r@[k] == (v@[k].0, v@[k].1),
        decreases v@.len() - i,
    {
        let t = v[i];
        r.push((t.0, t.1));
        i = i + 1;
    }
    proof {
        assert forall|a: u32, b: u32| #[trigger] r@.contains((a, b)) <==> exists|c: u32| v@.contains((a, b, c)) by {
            if r@.contains((a, b)) {
                let k = choose|k: int| 0 <= k < r@.len() && r@[k] == (a, b);
                assert(v@.contains((a, b, v@[k].2)));
            }
            if exists|c: u32| v@.contains((a, b, c)) {
                let c = choose|c: u32| v@.contains((a, b, c));
                let k = choose|k: int| 0 <= k < v@.len() && v@[k] == (a, b, c);
                assert(r@[k] == (a, b));
            }
        }
    }
    r
}

/// The pairs `(b, c)` of the triples `(_, b, c)` of `v`.
fn drop_first(v: &Vec<(u32, u32, u32)>) -> (r: Vec<(u32, u32)>)
    ensures
        forall|b: u32, c: u32| #[trigger] r@.contains((b, c)) <==> exists|a: u32| v@.contains((a, b, c)),
{
    let mut r: Vec<(u32, u32)> = Vec::new();
    let mut i: usize = 0;
    while i < v.len()
        invariant
            i <= v@.len(),
            r@.len() == i,
            forall|k: int| 0 <= k < i ==> #[trigger] r@[k] == (v@[k].1, v@[k].2),
        decreases v@.len() - i,
    {
        let t = v[i];
        r.push((t.1, t.2));
        i = i + 1;
    }
    proof {
        assert forall|b: u32, c: u32| #[trigger] r@.contains((b, c)) <==> exists|a: u32| v@.contains((a, b, c)) by {
            if r@.contains((b, c)) {
                let k = choose|k: int| 0 <= k < r@.len() && r@[k] == (b, c);
                assert(v@.contains((v@[k].0, b, c)));
            }
            if exists|a: u32| v@.contains((a, b, c)) {
                let a = choose|a: u32| v@.contains((a, b, c));
                let k = choose|k: int| 0 <= k < v@.len() && v@[k] == (a, b, c);
                assert(r@[k] == (b, c));
            }
        }
    }
    r
}

/// The pairs `(b, a)` of the triples `(a, b, _)` of `v`.
fn second_then_first(v: &Vec<(u32, u32, u32)>) -> (r: Vec<(u32, u32)>)
    ensures
        forall|b: u32, a: u32| #[trigger] r@.contains((b, a)) <==> exists|c: u32| v@.contains((a, b, c)),
{
    let mut r: Vec<(u32, u32)> = Vec::new();
    let mut i: usize = 0;
    while i < v.len()
        invariant
            i <= v@.len(),
            r@.len() == i,
            forall|k: int| 0 <= k < i ==> #[trigger] r@[k] == (v@[k].1, v@[k].0),
        decreases v@.len() - i,
    {
        let t = v[i];
        r.push((t.1, t.0));
        i = i + 1;
    }
    proof {
        assert forall|b: u32, a: u32| #[trigger] r@.contains((b, a)) <==> exists|c: u32| v@.contains((a, b, c)) by {
            if r@.contains((b, a)) {
                let k = choose|k: int| 0 <= k < r@.len() && r@[k] == (b, a);
                assert(v@.contains((a, b, v@[k].2)));
            }
            if exists|c: u32| v@.contains((a, b, c)) {
                let c = choose|c: u32| v@.contains((a, b, c));
                let k = choose|k: int| 0 <= k < v@.len() && v@[k] == (a, b, c);
                assert(r@[k] == (b, a));
            }
        }
    }
    r
}

/// The pairs `(c, b)` of the triples `(_, b, c)` of `v` where `c` and `b` differ.
fn third_then_second_distinct(v: &Vec<(u32, u32, u32)>) -> (r: Vec<(u32, u32)>)
    ensures
        forall|c: u32, b: u32| #[trigger] r@.contains((c, b)) <==> c != b && exists|a: u32| v@.contains((a, b, c)),
{
    let mut r: Vec<(u32, u32)> = Vec::new();
    let mut i: usize = 0;
    while i < v.len()
        invariant
            i <= v@.len(),
            forall|k: int| 0 <= k < r@.len() ==> #[trigger] r@[k].0 != r@[k].1,
            forall|k: int| 0 <= k < r@.len() ==> exists|j: int| 0 <= j < i && #[trigger] r@[k] == (v@[j].2, v@[j].1),
            forall|j: int| 0 <= j < i && v@[j].2 != v@[j].1 ==> r@.contains((#[trigger] v@[j].2, v@[j].1)),
        decreases v@.len() - i,
    {
        let t = v[i];
        if t.2 != t.1 {
            let ghost before = r@;
            r.push((t.2, t.1));
            proof {
                assert forall|j: int| 0 <= j < i && v@[j].2 != v@[j].1 implies r@.contains((#[trigger] v@[j].2, v@[j].1)) by {
                    let k = choose|k: int| 0 <= k < before.len() && before[k] == (v@[j].2, v@[j].1);
                    assert(r@[k] == before[k]);
                }
                assert(r@[r@.len() - 1] == (t.2, t.1));
            }
        }
        i = i + 1;
    }
    proof {
        assert forall|c: u32, b: u32| #[trigger] r@.contains((c, b)) <==> c != b && exists|a: u32| v@.contains((a, b, c)) by {
            if r@.contains((c, b)) {
                let k = choose|k: int| 0 <= k < r@.len() && r@[k] == (c, b);
                let j = choose|j: int| 0 <= j < i && #[trigger] r@[k] == (v@[j].2, v@[j].1);
                let x = v@[j];
                assert(x == (x.0, x.1, x.2));
                assert(x == (x.0, b, c));
                assert(v@.contains((x.0, b, c)));
                assert(r@[k].0 != r@[k].1);
            }
            if c != b && exists|a: u32| v@.contains((a, b, c)) {
                let a = choose|a: u32| v@.contains((a, b, c));
                let j = choose|j: int| 0 <= j < v@.len() && v@[j] == (a, b, c);
                assert(r@.contains((v@[j].2, v@[j].1)));
            }
        }
    }
    r
}

/// The pairs of `a` followed by those of `b`.
fn concat_pairs(a: &Vec<(u32, u32)>, b: &Vec<(u32, u32)>) -> (r: Vec<(u32, u32)>)
    ensures
        r@ == a@ + b@,
{
    let mut r = copy_pairs_of(a);
    let mut i: usize = 0;
    while i < b.len()
        invariant
            i <= b@.len(),
            r@ == a@ + b@.take(i as int),
        decreases b@.len() - i,
    {
        r.push(b[i]);
        proof {
            assert(b@.take(i + 1) =~= b@.take(i as int).push(b@[i as int]));
            assert(a@ + b@.take(i + 1) =~= (a@ + b@.take(i as int)).push(b@[i as int]));
        }
        i = i + 1;
    }
    proof {
        assert(b@.take(b@.len() as int) =~= b@);
    }
    r
}

/// The pairs `(a, b)` of the triples `(a, b, _)` of `v`.
pub open spec fn first_two(v: Seq<(u32, u32, u32)>) -> Set<(u32, u32)> {
    Set::new(|t: (u32, u32)| exists|c: u32| v.contains((t.0, t.1, c)))
}

/// `origin_contains_loan_on_entry(origin, loan)` in the location-insensitive analysis: the
/// loans issued into an origin, anywhere, and the placeholder loans, flow along the subset
/// relations that hold anywhere.
pub open spec fn contains_loan_anywhere(
    loan_issued_at: Seq<(u32, u32, u32)>,
    placeholder: Seq<(u32, u32)>,
    subset_base: Seq<(u32, u32, u32)>,
    origin: u32,
    loan: u32,
) -> bool {
    reached(first_two(loan_issued_at) + placeholder.to_set(), first_two(subset_base), (origin, loan))
}

/// `potential_errors(loan, point)`: the loans invalidated at a point where an origin that
/// contains them is live.
fn errors_from(contains: &Vec<(u32, u32)>, origin_live_on_entry: &Vec<(u32, u32)>, loan_invalidated_at: &Vec<(u32, u32)>) -> (potential_errors: Vec<(u32, u32)>)
    requires
        sorted2(contains@),
    ensures
        sorted2(potential_errors@),
        forall|l: u32, p: u32| #[trigger] potential_errors@.contains((l, p)) <==> {
            &&& loan_invalidated_at@.contains((l, p))
            &&& exists|o: u32| #[trigger] origin_live_on_entry@.contains((o, p)) && contains@.contains((o, l))
        },
{
        // potential_errors
        let live = relation_of_pairs(copy_pairs_of(origin_live_on_entry));
        let joined = join_on_first(&contains, &live);
        let loan_points = relation_of_pairs(drop_first(&joined));
        let invalidated = relation_of_pairs(copy_pairs_of(loan_invalidated_at));
        let not_invalidated = pairs_not_in(&loan_points, &invalidated);
        let potential_errors = pairs_not_in(&loan_points, &not_invalidated);
        proof {
            assert forall|l: u32, p: u32| #[trigger] potential_errors@.contains((l, p)) <==> {
                &&& loan_invalidated_at@.contains((l, p))
                &&& exists|o: u32| #[trigger] origin_live_on_entry@.contains((o, p)) && contains@.contains((o, l))
            } by {
                assert(potential_errors@.contains((l, p)) <==> potential_errors@.to_set().contains((l, p)));
                assert(loan_points@.contains((l, p)) <==> loan_points@.to_set().contains((l, p)));
                assert(not_invalidated@.contains((l, p)) <==> not_invalidated@.to_set().contains((l, p)));
                assert(invalidated@.contains((l, p)) <==> invalidated@.to_set().contains((l, p)));
                if loan_points@.contains((l, p)) {
                    let o = choose|o: u32| joined@.contains((o, l, p));
                    assert(joined@.to_set().contains((o, l, p)));
                    assert(live@.to_set().contains((o, p)));
                    assert(origin_live_on_entry@.contains((o, p)));
                }
                if exists|o: u32| #[trigger] origin_live_on_entry@.contains((o, p)) && contains@.contains((o, l)) {
                    let o = choose|o: u32| #[trigger] origin_live_on_entry@.contains((o, p)) && contains@.contains((o, l));
                    assert(contains@.contains((o, l)));
                    assert(live@.to_set().contains((o, p)));
                    assert(joined@.to_set().contains((o, l, p)));
                    assert(joined@.contains((o, l, p)));
                    assert(loan_points@.to_set().contains((l, p)));
                }
            }
        }
        potential_errors
}

/// `potential_subset_errors(origin1, origin2)`: a placeholder origin that contains the
/// placeholder loan of another placeholder origin, which it is not known to contain.
#[verifier::rlimit(40)]
fn subset_errors_from(contains: &Vec<(u32, u32)>, known_placeholder_requires: &Vec<(u32, u32)>, placeholder: &Vec<(u32, u32)>) -> (potential_subset_errors: Vec<(u32, u32)>)
    requires
        sorted2(contains@),
    ensures
        sorted2(potential_subset_errors@),
        forall|o1: u32, o2: u32| #[trigger] potential_subset_errors@.contains((o1, o2)) <==> {
            &&& o1 != o2
            &&& exists|l1: u32, l2: u32| {
                &&& #[trigger] placeholder@.contains((o1, l1))
                &&& #[trigger] placeholder@.contains((o2, l2))
                &&& contains@.contains((o2, l1))
                &&& !known_placeholder_requires@.contains((o2, l1))
            }
        },
{
        // potential_subset_errors
        let known = relation_of_pairs(copy_pairs_of(known_placeholder_requires));
        let unknown = pairs_not_in(&contains, &known);
        let placeholders = relation_of_pairs(copy_pairs_of(placeholder));
        let with_placeholder = join_on_first(&unknown, &placeholders);
        let lo_raw = second_then_first(&with_placeholder);
        let ghost lo_raw_v = lo_raw@;
        let loan_origins = relation_of_pairs(lo_raw);
        let pl_raw = swap_pairs(placeholder);
        let ghost pl_raw_v = pl_raw@;
        let placeholder_loans = relation_of_pairs(pl_raw);
        let pairs = join_on_first(&loan_origins, &placeholder_loans);
        let se_raw = third_then_second_distinct(&pairs);
        let ghost se_raw_v = se_raw@;
        let potential_subset_errors = relation_of_pairs(se_raw);
        proof {
            assert forall|o1: u32, o2: u32| #[trigger] potential_subset_errors@.contains((o1, o2)) <==> {
                &&& o1 != o2
                &&& exists|l1: u32, l2: u32| {
                    &&& #[trigger] placeholder@.contains((o1, l1))
                    &&& #[trigger] placeholder@.contains((o2, l2))
                    &&& contains@.contains((o2, l1))
                    &&& !known_placeholder_requires@.contains((o2, l1))
                }
            } by {
                assert(potential_subset_errors@.contains((o1, o2)) <==> potential_subset_errors@.to_set().contains((o1, o2)));
                assert(se_raw_v.contains((o1, o2)) <==> se_raw_v.to_set().contains((o1, o2)));
                if potential_subset_errors@.contains((o1, o2)) {
                    assert(se_raw_v.contains((o1, o2)));
                    let l1 = choose|l1: u32| pairs@.contains((l1, o2, o1));
                    assert(pairs@.to_set().contains((l1, o2, o1)));
                    assert(loan_origins@.contains((l1, o2)));
                    assert(loan_origins@.to_set().contains((l1, o2)));
                    assert(lo_raw_v.contains((l1, o2)));
                    let lx = choose|lx: u32| with_placeholder@.contains((o2, l1, lx));
                    assert(with_placeholder@.to_set().contains((o2, l1, lx)));
                    assert(unknown@.contains((o2, l1)));
                    assert(unknown@.to_set().contains((o2, l1)));
                    assert(contains@.to_set().contains((o2, l1)));
                    assert(contains@.contains((o2, l1)));
                    assert(!known@.to_set().contains((o2, l1)));
                    assert(!known_placeholder_requires@.contains((o2, l1))) by {
                        if known_placeholder_requires@.contains((o2, l1)) {
                            assert(known_placeholder_requires@.to_set().contains((o2, l1)));
                        }
                    }
                    assert(placeholders@.contains((o2, lx)));
                    assert(placeholders@.to_set().contains((o2, lx)));
                    assert(placeholder@.to_set().contains((o2, lx)));
                    assert(placeholder_loans@.contains((l1, o1)));
                    assert(placeholder_loans@.to_set().contains((l1, o1)));
                    assert(pl_raw_v.contains((l1, o1)));
                    lemma_swap_contains(placeholder@, pl_raw_v, l1, o1);
                    assert(placeholder@.contains((o1, l1)) && placeholder@.contains((o2, lx)));
                }
                if o1 != o2 && exists|l1: u32, l2: u32| {
                    &&& #[trigger] placeholder@.contains((o1, l1))
                    &&& #[trigger] placeholder@.contains((o2, l2))
                    &&& contains@.contains((o2, l1))
                    &&& !known_placeholder_requires@.contains((o2, l1))
                } {
                    let (l1, l2) = choose|l1: u32, l2: u32| {
                        &&& #[trigger] placeholder@.contains((o1, l1))
                        &&& #[trigger] placeholder@.contains((o2, l2))
                        &&& contains@.contains((o2, l1))
                        &&& !known_placeholder_requires@.contains((o2, l1))
                    };
                    assert(contains@.contains((o2, l1)));
                    assert(contains@.to_set().contains((o2, l1)));
                    assert(!known@.to_set().contains((o2, l1))) by {
                        if known@.to_set().contains((o2, l1)) {
                            assert(known_placeholder_requires@.to_set().contains((o2, l1)));
                        }
                    }
                    assert(unknown@.to_set().contains((o2, l1)));
                    assert(unknown@.contains((o2, l1)));
                    assert(placeholder@.to_set().contains((o2, l2)));
                    assert(placeholders@.to_set().contains((o2, l2)));
                    assert(placeholders@.contains((o2, l2)));
                    assert(with_placeholder@.to_set().contains((o2, l1, l2)));
                    assert(with_placeholder@.contains((o2, l1, l2)));
                    assert(lo_raw_v.contains((l1, o2)));
                    assert(loan_origins@.to_set().contains((l1, o2)));
                    assert(loan_origins@.contains((l1, o2)));
                    lemma_swap_contains(placeholder@, pl_raw_v, l1, o1);
                    assert(pl_raw_v.contains((l1, o1)));
                    assert(placeholder_loans@.to_set().contains((l1, o1)));
                    assert(placeholder_loans@.contains((l1, o1)));
                    assert(pairs@.to_set().contains((l1, o2, o1)));
                    assert(pairs@.contains((l1, o2, o1)));
                    assert(se_raw_v.contains((o1, o2)));
                }
            }
        }
        potential_subset_errors
}

/// The errors of the location-insensitive analysis.
pub struct BorrowckLocationInsensitiveErrors {
    /// `potential_errors(loan, point)`
    pub potential_errors: Vec<(u32, u32)>,
    /// `potential_subset_errors(origin1, origin2)`
    pub potential_subset_errors: Vec<(u32, u32)>,
}

/// The location-insensitive borrow check: fast, but imprecise. It finds every error of the
/// location-sensitive analyses, and maybe more.
#[derive(Clone, Copy)]
pub struct BorrowckLocationInsensitive;

impl BorrowckLocationInsensitive {
    /// The potential errors:
    ///
    /// ```text
    /// subset(Origin1, Origin2) :- subset_base(Origin1, Origin2, _).
    /// origin_contains_loan_on_entry(Origin, Loan) :- loan_issued_at(Origin, Loan, _).
    /// origin_contains_loan_on_entry(Origin, Loan) :- placeholder(Origin, Loan).
    /// origin_contains_loan_on_entry(Origin2, Loan) :-
    ///   origin_contains_loan_on_entry(Origin1, Loan),
    ///   subset(Origin1, Origin2).
    /// potential_errors(Loan, Point) :-
    ///   loan_invalidated_at(Loan, Point),
    ///   origin_contains_loan_on_entry(Origin, Loan),
    ///   origin_live_on_entry(Origin, Point).
    /// potential_subset_errors(Origin1, Origin2) :-
    ///   placeholder(Origin1, Loan1),
    ///   placeholder(Origin2, _),
    ///   origin_contains_loan_on_entry(Origin2, Loan1),
    ///   !known_placeholder_requires(Origin2, Loan1),
    ///   Origin2 != Origin1.
    /// ```
    pub fn compute(
        &self,
        origin_live_on_entry: &Vec<(u32, u32)>,
        loan_invalidated_at: &Vec<(u32, u32)>,
        known_placeholder_requires: &Vec<(u32, u32)>,
        placeholder: &Vec<(u32, u32)>,
        loan_issued_at: &Vec<(u32, u32, u32)>,
        subset_base: &Vec<(u32, u32, u32)>,
    ) -> (r: BorrowckLocationInsensitiveErrors)
        ensures
            sorted2(r.potential_errors@),
            forall|l: u32, p: u32| #[trigger] r.potential_errors@.contains((l, p)) <==> {
                &&& loan_invalidated_at@.contains((l, p))
                &&& exists|o: u32| #[trigger] origin_live_on_entry@.contains((o, p)) && contains_loan_anywhere(
                    loan_issued_at@,
                    placeholder@,
                    subset_base@,
                    o,
                    l,
                )
            },
            sorted2(r.potential_subset_errors@),
            forall|o1: u32, o2: u32| #[trigger] r.potential_subset_errors@.contains((o1, o2)) <==> {
                &&& o1 != o2
                &&& exists|l1: u32, l2: u32| {
                    &&& #[trigger] placeholder@.contains((o1, l1))
                    &&& #[trigger] placeholder@.contains((o2, l2))
                    &&& contains_loan_anywhere(loan_issued_at@, placeholder@, subset_base@, o2, l1)
                    &&& !known_placeholder_requires@.contains((o2, l1))
                }
            },
    {
        let contains = self.contains_anywhere(placeholder, loan_issued_at, subset_base);
        let potential_errors = errors_from(&contains, origin_live_on_entry, loan_invalidated_at);
        let potential_subset_errors = subset_errors_from(&contains, known_placeholder_requires, placeholder);
        BorrowckLocationInsensitiveErrors { potential_errors, potential_subset_errors }
    }

    /// `origin_contains_loan_on_entry(origin, loan)` of the analysis: the loans issued into an
    /// origin anywhere, and the placeholder loans, flow along the subset relations that hold
    /// anywhere (see [`contains_loan_anywhere`]).
    pub fn contains_anywhere(
        &self,
        placeholder: &Vec<(u32, u32)>,
        loan_issued_at: &Vec<(u32, u32, u32)>,
        subset_base: &Vec<(u32, u32, u32)>,
    ) -> (contains: Vec<(u32, u32)>)
        ensures
            sorted2(contains@),
            forall|o: u32, l: u32| #[trigger] contains@.contains((o, l)) <==> contains_loan_anywhere(
                loan_issued_at@,
                placeholder@,
                subset_base@,
                o,
                l,
            ),
    {
        let subset = relation_of_pairs(drop_third(subset_base));
        let issued = drop_third(loan_issued_at);
        let base = concat_pairs(&issued, placeholder);
        proof {
            assert(subset@.to_set() =~= first_two(subset_base@)) by {
                assert forall|t: (u32, u32)| subset@.to_set().contains(t) <==> first_two(subset_base@).contains(t) by {
                    let (a, b) = t;
                    assert(t == (a, b));
                }
            }
            assert(base@.to_set() =~= first_two(loan_issued_at@) + placeholder@.to_set()) by {
                assert forall|t: (u32, u32)| base@.to_set().contains(t) <==> (first_two(loan_issued_at@) + placeholder@.to_set()).contains(t) by {
                    let (a, b) = t;
                    assert(t == (a, b));
                    if base@.contains(t) {
                        let k = choose|k: int| 0 <= k < base@.len() && base@[k] == t;
                        if k < issued@.len() {
                            assert(issued@.contains(t));
                        } else {
                            assert(placeholder@[k - issued@.len()] == t);
                        }
                    }
                    if issued@.contains(t) {
                        let k = choose|k: int| 0 <= k < issued@.len() && issued@[k] == t;
                        assert(base@[k] == t);
                    }
                    if placeholder@.contains(t) {
                        let k = choose|k: int| 0 <= k < placeholder@.len() && placeholder@[k] == t;
                        assert(base@[issued@.len() + k] == t);
                    }
                }
            }
        }
        let contains = propagate(&base, &subset);
        proof {
            assert forall|o: u32, l: u32| #[trigger] contains@.contains((o, l)) <==> contains_loan_anywhere(
                loan_issued_at@,
                placeholder@,
                subset_base@,
                o,
                l,
            ) by {
                assert(contains@.contains((o, l)) <==> reached(base@.to_set(), subset@.to_set(), (o, l)));
            }
        }
        contains
    }

    /// The pairs `(origin2, origin1)` where `subset_base` relates `origin1` to `origin2` at
    /// some point: the subset relation of the analysis, each origin paired after the one it
    /// flows from.
    pub fn subset_anywhere(&self, subset_base: &Vec<(u32, u32, u32)>) -> (r: Vec<(u32, u32)>)
        ensures
            forall|o2: u32, o1: u32| #[trigger] r@.contains((o2, o1)) <==> exists|p: u32| subset_base@.contains((o1, o2, p)),
    {
        let pairs = drop_third(subset_base);
        let r = swap_pairs(&pairs);
        proof {
            assert forall|o2: u32, o1: u32| #[trigger] r@.contains((o2, o1)) <==> pairs@.contains((o1, o2)) by {
                if r@.contains((o2, o1)) {
                    let k = choose|k: int| 0 <= k < r@.len() && r@[k] == (o2, o1);
                    assert(pairs@[k] == (o1, o2));
                }
                if pairs@.contains((o1, o2)) {
                    let k = choose|k: int| 0 <= k < pairs@.len() && pairs@[k] == (o1, o2);
                    assert(r@[k] == (o2, o1));
                }
            }
        }
        r
    }
}

/// The errors of the borrow check, in the form of the location-sensitive analyses.
pub struct BorrowckErrors {
    /// `errors(loan, point)`
    pub errors: Vec<(u32, u32)>,
    /// `subset_errors(origin1, origin2, point)`
    pub subset_errors: Vec<(u32, u32, u32)>,
}

/// Gives the potential errors of the location-insensitive analysis as the errors of a
/// location-sensitive one: each subset error at point 0.
#[derive(Clone, Copy)]
pub struct BorrowckLocationInsensitiveAsSensitive;

impl BorrowckLocationInsensitiveAsSensitive {
    /// `errors` are the potential errors; `subset_errors(origin1, origin2, 0)` for each
    /// potential subset error `(origin1, origin2)`.
    pub fn compute(&self, potential_errors: &Vec<(u32, u32)>, potential_subset_errors: &Vec<(u32, u32)>) -> (r: BorrowckErrors)
        ensures
            r.errors@ == potential_errors@,
            sorted3(r.subset_errors@),
            forall|a: u32, b: u32, c: u32| #[trigger] r.subset_errors@.contains((a, b, c)) <==> c == 0
                && potential_subset_errors@.contains((a, b)),
    {
        let mut subset_errors: Vec<(u32, u32, u32)> = Vec::new();
        let mut i: usize = 0;
        while i < potential_subset_errors.len()
            invariant
                i <= potential_subset_errors@.len(),
                subset_errors@.len() == i,
                forall|k: int| 0 <= k < i ==> #[trigger] subset_errors@[k] == (potential_subset_errors@[k].0, potential_subset_errors@[k].1, 0u32),
            decreases potential_subset_errors@.len() - i,
        {
            let t = potential_subset_errors[i];
            subset_errors.push((t.0, t.1, 0));
            i = i + 1;
        }
        let ghost raw = subset_errors@;
        let subset_errors = relation_of_triples(subset_errors);
        proof {
            assert forall|a: u32, b: u32, c: u32| #[trigger] subset_errors@.contains((a, b, c)) <==> c == 0
                && potential_subset_errors@.contains((a, b)) by {
                assert(subset_errors@.contains((a, b, c)) <==> raw.to_set().contains((a, b, c)));
                if raw.contains((a, b, c)) {
                    let k = choose|k: int| 0 <= k < raw.len() && raw[k] == (a, b, c);
                    assert(potential_subset_errors@[k] == (a, b));
                }
                if c == 0 && potential_subset_errors@.contains((a, b)) {
                    let k = choose|k: int| 0 <= k < potential_subset_errors@.len() && potential_subset_errors@[k] == (a, b);
                    assert(raw[k] == (a, b, c));
                }
            }
        }
        BorrowckErrors { errors: copy_pairs_of(potential_errors), subset_errors }
    }
}

/// The pairs of `s`, each with its components swapped.
pub open spec fn flipped(s: Seq<(u32, u32)>) -> Set<(u32, u32)> {
    Set::new(|t: (u32, u32)| s.contains((t.1, t.0)))
}

proof fn lemma_swap_flipped(v: Seq<(u32, u32)>, r: Seq<(u32, u32)>)
    requires
        r.len() == v.len(),
        forall|i: int| 0 <= i < v.len() ==> #[trigger] r[i] == (v[i].1, v[i].0),
    ensures
        r.to_set() == flipped(v),
{
    assert forall|t: (u32, u32)| r.to_set().contains(t) <==> flipped(v).contains(t) by {
        let (a, b) = t;
        assert(t == (a, b));
        lemma_swap_contains(v, r, a, b);
    }
    assert(r.to_set() =~= flipped(v));
}

/// The pairs `(ancestor, child)` of paths: a chain of `child_path` relations leads from
/// `child` up to `ancestor`.
pub open spec fn ancestors(child_path: Seq<(u32, u32)>) -> Set<(u32, u32)> {
    Set::new(|t: (u32, u32)| connected(child_path.to_set(), t.1, t.0))
}

/// The path relations, extended from each path to its children.
pub struct TransitivePaths {
    /// `path_moved_at(path, point)`
    pub path_moved_at: Vec<(u32, u32)>,
    /// `path_assigned_at(path, point)`
    pub path_assigned_at: Vec<(u32, u32)>,
    /// `path_accessed_at(path, point)`
    pub path_accessed_at: Vec<(u32, u32)>,
    /// `path_begins_with_var(path, var)`
    pub path_begins_with_var: Vec<(u32, u32)>,
}

/// The transitive closures of the path operations: moving, assigning or accessing a path
/// does the same to its children, and a path begins with the variable its root is.
#[derive(Clone, Copy)]
pub struct Paths;

impl Paths {
    /// ```text
    /// ancestor_path(Parent, Child) :- child_path(Child, Parent).
    /// ancestor_path(Grandparent, Child) :-
    ///    ancestor_path(Parent, Child),
    ///    child_path(Parent, Grandparent).
    /// path_moved_at(Path, Point) :- path_moved_at_base(Path, Point).
    /// path_moved_at(Child, Point) :-
    ///     path_moved_at(Parent, Point),
    ///     ancestor_path(Parent, Child).
    /// ```
    /// and likewise `path_assigned_at`, `path_accessed_at` and `path_begins_with_var` (from
    /// `path_is_var`).
    pub fn compute(
        &self,
        child_path: &Vec<(u32, u32)>,
        path_is_var: &Vec<(u32, u32)>,
        path_moved_at_base: &Vec<(u32, u32)>,
        path_assigned_at_base: &Vec<(u32, u32)>,
        path_accessed_at_base: &Vec<(u32, u32)>,
    ) -> (r: TransitivePaths)
        ensures
            sorted2(r.path_moved_at@),
            sorted2(r.path_assigned_at@),
            sorted2(r.path_accessed_at@),
            sorted2(r.path_begins_with_var@),
            forall|t: (u32, u32)| #[trigger] r.path_moved_at@.contains(t) <==> reached(
                path_moved_at_base@.to_set(),
                ancestors(child_path@),
                t,
            ),
            forall|t: (u32, u32)| #[trigger] r.path_assigned_at@.contains(t) <==> reached(
                path_assigned_at_base@.to_set(),
                ancestors(child_path@),
                t,
            ),
            forall|t: (u32, u32)| #[trigger] r.path_accessed_at@.contains(t) <==> reached(
                path_accessed_at_base@.to_set(),
                ancestors(child_path@),
                t,
            ),
            forall|t: (u32, u32)| #[trigger] r.path_begins_with_var@.contains(t) <==> reached(
                path_is_var@.to_set(),
                ancestors(child_path@),
                t,
            ),
    {
        let starts = swap_pairs(child_path);
        let ancestor_path = propagate(&starts, child_path);
        proof {
            assert(ancestor_path@.to_set() =~= ancestors(child_path@)) by {
                assert forall|t: (u32, u32)| ancestor_path@.to_set().contains(t) <==> ancestors(child_path@).contains(t) by {
                    let (a, c) = t;
                    assert(t == (a, c));
                    lemma_connected_reached(child_path@, starts@, c, a);
                }
            }
        }
        let path_moved_at = propagate(path_moved_at_base, &ancestor_path);
        let path_assigned_at = propagate(path_assigned_at_base, &ancestor_path);
        let path_accessed_at = propagate(path_accessed_at_base, &ancestor_path);
        let path_begins_with_var = propagate(path_is_var, &ancestor_path);
        TransitivePaths { path_moved_at, path_assigned_at, path_accessed_at, path_begins_with_var }
    }
}

/// Propagates the pairs `(path, point)` of `base` along the control-flow edges, for each
/// path until a point that `kill` pairs with it.
fn flow_paths(cfg_edge: &Vec<(u32, u32)>, base: &Vec<(u32, u32)>, kill: &Vec<(u32, u32)>) -> (r: Vec<(u32, u32)>)
    ensures
        sorted2(r@),
        forall|path: u32, point: u32| #[trigger] r@.contains((path, point)) <==> reached_unless(
            flipped(base@),
            cfg_edge@.to_set(),
            flipped(kill@),
            (point, path),
        ),
{
    let b = swap_pairs(base);
    let k = swap_pairs(kill);
    proof {
        lemma_swap_flipped(base@, b@);
        lemma_swap_flipped(kill@, k@);
    }
    let at_points = propagate_unless(&b, cfg_edge, &k);
    let back = swap_pairs(&at_points);
    let r = relation_of_pairs(back);
    proof {
        assert forall|path: u32, point: u32| #[trigger] r@.contains((path, point)) <==> reached_unless(
            flipped(base@),
            cfg_edge@.to_set(),
            flipped(kill@),
            (point, path),
        ) by {
            lemma_swap_contains(at_points@, back@, path, point);
            assert(r@.contains((path, point)) <==> back@.to_set().contains((path, point)));
        }
    }
    r
}

/// The move paths that may be initialized on exit of each point.
#[derive(Clone, Copy)]
pub struct MaybeInit;

impl MaybeInit {
    /// `path_maybe_initialized_on_exit(path, point)`: upon leaving `point`, the move path
    /// `path` is initialized for some path through the CFG.
    ///
    /// ```text
    /// path_maybe_initialized_on_exit(path, point) :- path_assigned_at(path, point).
    /// path_maybe_initialized_on_exit(path, point2) :-
    ///     path_maybe_initialized_on_exit(path, point1),
    ///     cfg_edge(point1, point2),
    ///     !path_moved_at(path, point2).
    /// ```
    pub fn compute(&self, cfg_edge: &Vec<(u32, u32)>, path_moved_at: &Vec<(u32, u32)>, path_assigned_at: &Vec<(u32, u32)>) -> (path_maybe_initialized_on_exit: Vec<(u32, u32)>)
        ensures
            sorted2(path_maybe_initialized_on_exit@),
            forall|path: u32, point: u32| #[trigger] path_maybe_initialized_on_exit@.contains((path, point)) <==> reached_unless(
                flipped(path_assigned_at@),
                cfg_edge@.to_set(),
                flipped(path_moved_at@),
                (point, path),
            ),
    {
        flow_paths(cfg_edge, path_assigned_at, path_moved_at)
    }
}

/// The move paths that may be uninitialized on exit of each point.
#[derive(Clone, Copy)]
pub struct MaybeUninit;

impl MaybeUninit {
    /// `path_maybe_uninitialized_on_exit(path, point)`: there exists at least one path
    /// through the CFG to `point` such that `path` has been moved out by the time we arrive
    /// at `point` without it being re-initialized for sure.
    ///
    /// ```text
    /// path_maybe_uninitialized_on_exit(path, point) :- path_moved_at(path, point).
    /// path_maybe_uninitialized_on_exit(path, point2) :-
    ///     path_maybe_uninitialized_on_exit(path, point1),
    ///     cfg_edge(point1, point2),
    ///     !path_assigned_at(path, point2).
    /// ```
    pub fn compute(&self, cfg_edge: &Vec<(u32, u32)>, path_moved_at: &Vec<(u32, u32)>, path_assigned_at: &Vec<(u32, u32)>) -> (path_maybe_uninitialized_on_exit: Vec<(u32, u32)>)
        ensures
            sorted2(path_maybe_uninitialized_on_exit@),
            forall|path: u32, point: u32| #[trigger] path_maybe_uninitialized_on_exit@.contains((path, point)) <==> reached_unless(
                flipped(path_moved_at@),
                cfg_edge@.to_set(),
                flipped(path_assigned_at@),
                (point, path),
            ),
    {
        flow_paths(cfg_edge, path_moved_at, path_assigned_at)
    }
}

/// The pairs `(c, b)` of the triples `(_, b, c)` of `v`.
fn third_then_second(v: &Vec<(u32, u32, u32)>) -> (r: Vec<(u32, u32)>)
    ensures
        forall|c: u32, b: u32| #[trigger] r@.contains((c, b)) <==> exists|a: u32| v@.contains((a, b, c)),
{
    let mut r: Vec<(u32, u32)> = Vec::new();
    let mut i: usize = 0;
    while i < v.len()
        invariant
            i <= v@.len(),
            r@.len() == i,
            forall|k: int| 0 <= k < i ==> #[trigger] r@[k] == (v@[k].2, v@[k].1),
        decreases v@.len() - i,
    {
        let t = v[i];
        r.push((t.2, t.1));
        i = i + 1;
    }
    proof {
        assert forall|c: u32, b: u32| #[trigger] r@.contains((c, b)) <==> exists|a: u32| v@.contains((a, b, c)) by {
            if r@.contains((c, b)) {
                let k = choose|k: int| 0 <= k < r@.len() && r@[k] == (c, b);
                let x = v@[k];
                assert(x == (x.0, x.1, x.2));
                assert(v@.contains((x.0, b, c)));
            }
            if exists|a: u32| v@.contains((a, b, c)) {
                let a = choose|a: u32| v@.contains((a, b, c));
                let k = choose|k: int| 0 <= k < v@.len() && v@[k] == (a, b, c);
                assert(r@[k] == (c, b));
            }
        }
    }
    r
}

/// The drops of variables that may be (partly) initialized.
#[derive(Clone, Copy)]
pub struct VarDroppedWhileInit;

impl VarDroppedWhileInit {
    /// `var_maybe_partly_initialized_on_exit(var, point)`: a path that begins with the variable
    /// may be initialized on exit from the point. Sorted.
    pub fn partly_initialized(&self, path_maybe_initialized_on_exit: &Vec<(u32, u32)>, path_begins_with_var: &Vec<(u32, u32)>) -> (r: Vec<(u32, u32)>)
        ensures
            sorted2(r@),
            forall|v: u32, p: u32| #[trigger] r@.contains((v, p)) <==> exists|path: u32|
                #[trigger] path_maybe_initialized_on_exit@.contains((path, p)) && path_begins_with_var@.contains((path, v)),
    {
        let init = relation_of_pairs(copy_pairs_of(path_maybe_initialized_on_exit));
        let vars = relation_of_pairs(copy_pairs_of(path_begins_with_var));
        let joined = join_on_first(&init, &vars);
        let raw = third_then_second(&joined);
        let ghost raw_v = raw@;
        let r = relation_of_pairs(raw);
        proof {
            assert forall|v: u32, p: u32| #[trigger] r@.contains((v, p)) <==> exists|path: u32|
                #[trigger] path_maybe_initialized_on_exit@.contains((path, p)) && path_begins_with_var@.contains((path, v)) by {
                assert(r@.contains((v, p)) <==> raw_v.to_set().contains((v, p)));
                if r@.contains((v, p)) {
                    assert(raw_v.contains((v, p)));
                    let path = choose|path: u32| joined@.contains((path, p, v));
                    assert(joined@.to_set().contains((path, p, v)));
                    assert(init@.to_set().contains((path, p)));
                    assert(vars@.to_set().contains((path, v)));
                    assert(path_maybe_initialized_on_exit@.contains((path, p)));
                }
                if exists|path: u32| #[trigger] path_maybe_initialized_on_exit@.contains((path, p)) && path_begins_with_var@.contains((path, v)) {
                    let path = choose|path: u32| #[trigger] path_maybe_initialized_on_exit@.contains((path, p)) && path_begins_with_var@.contains((path, v));
                    assert(init@.to_set().contains((path, p)));
                    assert(vars@.to_set().contains((path, v)));
                    assert(joined@.to_set().contains((path, p, v)));
                    assert(joined@.contains((path, p, v)));
                    assert(raw_v.contains((v, p)));
                    assert(raw_v.to_set().contains((v, p)));
                }
            }
        }
        r
    }

    /// ```text
    /// var_maybe_partly_initialized_on_exit(var, point) :-
    ///     path_maybe_initialized_on_exit(path, point),
    ///     path_begins_with_var(path, var).
    /// var_dropped_while_init_at(var, point) :-
    ///     var_maybe_partly_initialized_on_exit(var, point),
    ///     var_dropped_at(var, _).
    /// ```
    /// (the second join is on the variable alone).
    pub fn compute(&self, var_dropped_at: &Vec<(u32, u32)>, path_maybe_initialized_on_exit: &Vec<(u32, u32)>, path_begins_with_var: &Vec<(u32, u32)>) -> (var_dropped_while_init_at: Vec<(u32, u32)>)
        ensures
            sorted2(var_dropped_while_init_at@),
            forall|v: u32, p: u32| #[trigger] var_dropped_while_init_at@.contains((v, p)) <==> {
                &&& exists|path: u32| #[trigger] path_maybe_initialized_on_exit@.contains((path, p)) && path_begins_with_var@.contains((path, v))
                &&& exists|q: u32| #[trigger] var_dropped_at@.contains((v, q))
            },
    {
        let init = relation_of_pairs(copy_pairs_of(path_maybe_initialized_on_exit));
        let vars = relation_of_pairs(copy_pairs_of(path_begins_with_var));
        let joined = join_on_first(&init, &vars);
        let raw = third_then_second(&joined);
        let ghost raw_v = raw@;
        let partly = relation_of_pairs(raw);
        let dropped = relation_of_pairs(copy_pairs_of(var_dropped_at));
        let joined2 = join_on_first(&partly, &dropped);
        let raw2 = drop_third(&joined2);
        let ghost raw2_v = raw2@;
        let r = relation_of_pairs(raw2);
        proof {
            assert forall|v: u32, p: u32| #[trigger] r@.contains((v, p)) <==> {
                &&& exists|path: u32| #[trigger] path_maybe_initialized_on_exit@.contains((path, p)) && path_begins_with_var@.contains((path, v))
                &&& exists|q: u32| #[trigger] var_dropped_at@.contains((v, q))
            } by {
                assert(r@.contains((v, p)) <==> raw2_v.to_set().contains((v, p)));
                if r@.contains((v, p)) {
                    assert(raw2_v.contains((v, p)));
                    let q = choose|q: u32| joined2@.contains((v, p, q));
                    assert(joined2@.to_set().contains((v, p, q)));
                    assert(partly@.to_set().contains((v, p)));
                    assert(raw_v.contains((v, p)));
                    let path = choose|path: u32| joined@.contains((path, p, v));
                    assert(joined@.to_set().contains((path, p, v)));
                    assert(init@.to_set().contains((path, p)));
                    assert(vars@.to_set().contains((path, v)));
                    assert(path_maybe_initialized_on_exit@.contains((path, p)));
                    assert(dropped@.to_set().contains((v, q)));
                    assert(var_dropped_at@.contains((v, q)));
                }
                if (exists|path: u32| #[trigger] path_maybe_initialized_on_exit@.contains((path, p)) && path_begins_with_var@.contains((path, v)))
                    && (exists|q: u32| #[trigger] var_dropped_at@.contains((v, q))) {
                    let path = choose|path: u32| #[trigger] path_maybe_initialized_on_exit@.contains((path, p)) && path_begins_with_var@.contains((path, v));
                    let q = choose|q: u32| #[trigger] var_dropped_at@.contains((v, q));
                    assert(init@.to_set().contains((path, p)));
                    assert(vars@.to_set().contains((path, v)));
                    assert(joined@.to_set().contains((path, p, v)));
                    assert(joined@.contains((path, p, v)));
                    assert(raw_v.contains((v, p)));
                    assert(partly@.to_set().contains((v, p)));
                    assert(dropped@.to_set().contains((v, q)));
                    assert(joined2@.to_set().contains((v, p, q)));
                    assert(joined2@.contains((v, p, q)));
                    assert(raw2_v.contains((v, p)));
                }
            }
        }
        r
    }
}

/// The accesses to moved paths.
#[derive(Clone, Copy)]
pub struct MoveError;

impl MoveError {
    /// `move_errors(path, point)`: there is an access to `path` at `point`, but `path` is
    /// potentially moved (or never initialised).
    ///
    /// ```text
    /// move_error(Path, TargetNode) :-
    ///   path_maybe_uninitialized_on_exit(Path, SourceNode),
    ///   cfg_edge(SourceNode, TargetNode),
    ///   path_accessed_at(Path, TargetNode).
    /// ```
    pub fn compute(&self, cfg_edge: &Vec<(u32, u32)>, path_maybe_uninitialized_on_exit: &Vec<(u32, u32)>, path_accessed_at: &Vec<(u32, u32)>) -> (move_errors: Vec<(u32, u32)>)
        ensures
            sorted2(move_errors@),
            forall|path: u32, t: u32| #[trigger] move_errors@.contains((path, t)) <==> {
                &&& path_accessed_at@.contains((path, t))
                &&& exists|s: u32| #[trigger] path_maybe_uninitialized_on_exit@.contains((path, s)) && cfg_edge@.contains((s, t))
            },
    {
        let sw = swap_pairs(path_maybe_uninitialized_on_exit);
        let ghost sw_v = sw@;
        let sources = relation_of_pairs(sw);
        let edges = relation_of_pairs(copy_pairs_of(cfg_edge));
        let joined = join_on_first(&sources, &edges);
        let raw = drop_first(&joined);
        let ghost raw_v = raw@;
        let candidates = relation_of_pairs(raw);
        let accessed = relation_of_pairs(copy_pairs_of(path_accessed_at));
        let not_accessed = pairs_not_in(&candidates, &accessed);
        let r = pairs_not_in(&candidates, &not_accessed);
        proof {
            assert forall|path: u32, t: u32| #[trigger] r@.contains((path, t)) <==> {
                &&& path_accessed_at@.contains((path, t))
                &&& exists|s: u32| #[trigger] path_maybe_uninitialized_on_exit@.contains((path, s)) && cfg_edge@.contains((s, t))
            } by {
                assert(r@.contains((path, t)) <==> r@.to_set().contains((path, t)));
                assert(candidates@.contains((path, t)) <==> candidates@.to_set().contains((path, t)));
                assert(not_accessed@.contains((path, t)) <==> not_accessed@.to_set().contains((path, t)));
                assert(accessed@.contains((path, t)) <==> accessed@.to_set().contains((path, t)));
                assert(accessed@.to_set().contains((path, t)) <==> path_accessed_at@.contains((path, t)));
                if candidates@.contains((path, t)) {
                    assert(raw_v.contains((path, t)));
                    let s = choose|s: u32| joined@.contains((s, path, t));
                    assert(joined@.to_set().contains((s, path, t)));
                    assert(sources@.to_set().contains((s, path)));
                    lemma_swap_contains(path_maybe_uninitialized_on_exit@, sw_v, s, path);
                    assert(edges@.to_set().contains((s, t)));
                    assert(path_maybe_uninitialized_on_exit@.contains((path, s)) && cfg_edge@.contains((s, t)));
                }
                if exists|s: u32| #[trigger] path_maybe_uninitialized_on_exit@.contains((path, s)) && cfg_edge@.contains((s, t)) {
                    let s = choose|s: u32| #[trigger] path_maybe_uninitialized_on_exit@.contains((path, s)) && cfg_edge@.contains((s, t));
                    lemma_swap_contains(path_maybe_uninitialized_on_exit@, sw_v, s, path);
                    assert(sources@.to_set().contains((s, path)));
                    assert(edges@.to_set().contains((s, t)));
                    assert(joined@.to_set().contains((s, path, t)));
                    assert(joined@.contains((s, path, t)));
                    assert(raw_v.contains((path, t)));
                    assert(candidates@.to_set().contains((path, t)));
                }
            }
        }
        r
    }
}

/// `var_live_on_entry(var, point)`: the variable is used at `point`, or at a point after
/// it without being defined in between.
pub open spec fn var_live_on_entry(var_used_at: Seq<(u32, u32)>, var_defined_at: Seq<(u32, u32)>, cfg_edge: Seq<(u32, u32)>, v: u32, p: u32) -> bool {
    reached_unless(flipped(var_used_at), flipped(cfg_edge), flipped(var_defined_at), (p, v))
}

/// How [`LiveOrigins::compute`] puts its result together, for one pair.
#[verifier::rlimit(40)]
proof fn lemma_live_origin(
    o: u32,
    p: u32,
    cfg_edge: Seq<(u32, u32)>,
    reverse: Seq<(u32, u32)>,
    var_dropped_while_init_at: Seq<(u32, u32)>,
    var_used_at: Seq<(u32, u32)>,
    var_defined_at: Seq<(u32, u32)>,
    use_of_var_derefs_origin: Seq<(u32, u32)>,
    drop_of_var_derefs_origin: Seq<(u32, u32)>,
    universal_region: Seq<u32>,
    cfg_node: Seq<u32>,
    var_live: Seq<(u32, u32)>,
    var_drop_live: Seq<(u32, u32)>,
    drops: Seq<(u32, u32)>,
    uses: Seq<(u32, u32)>,
    j1: Seq<(u32, u32, u32)>,
    j2: Seq<(u32, u32, u32)>,
    from_drops: Seq<(u32, u32)>,
    from_uses: Seq<(u32, u32)>,
    universal: Seq<(u32, u32)>,
    all: Seq<(u32, u32)>,
    r: Seq<(u32, u32)>,
)
    requires
        reverse.to_set() == flipped(cfg_edge),
        forall|path: u32, point: u32| #[trigger] var_live.contains((path, point)) <==> reached_unless(
            flipped(var_used_at),
            reverse.to_set(),
            flipped(var_defined_at),
            (point, path),
        ),
        forall|path: u32, point: u32| #[trigger] var_drop_live.contains((path, point)) <==> reached_unless(
            flipped(var_dropped_while_init_at),
            reverse.to_set(),
            flipped(var_defined_at),
            (point, path),
        ),
        drops.to_set() == drop_of_var_derefs_origin.to_set(),
        uses.to_set() == use_of_var_derefs_origin.to_set(),
        j1.to_set() == Set::new(|t: (u32, u32, u32)| var_drop_live.contains((t.0, t.1)) && drops.contains((t.0, t.2))),
        j2.to_set() == Set::new(|t: (u32, u32, u32)| var_live.contains((t.0, t.1)) && uses.contains((t.0, t.2))),
        forall|c: u32, b: u32| #[trigger] from_drops.contains((c, b)) <==> exists|a: u32| j1.contains((a, b, c)),
        forall|c: u32, b: u32| #[trigger] from_uses.contains((c, b)) <==> exists|a: u32| j2.contains((a, b, c)),
        forall|o2: u32, p2: u32| #[trigger] universal.contains((o2, p2)) <==> (exists|k: int| 0 <= k < universal_region.len() && universal_region[k] == o2) && cfg_node.contains(p2),
        all == from_drops + from_uses + universal,
        r.to_set() == all.to_set(),
    ensures
        r.contains((o, p)) <==> {
            ||| exists|v: u32| #[trigger] drop_of_var_derefs_origin.contains((v, o)) && var_live_on_entry(
                var_dropped_while_init_at,
                var_defined_at,
                cfg_edge,
                v,
                p,
            )
            ||| exists|v: u32| #[trigger] use_of_var_derefs_origin.contains((v, o)) && var_live_on_entry(
                var_used_at,
                var_defined_at,
                cfg_edge,
                v,
                p,
            )
            ||| universal_region.contains(o) && cfg_node.contains(p)
        },
{
    let t = (o, p);
    assert(r.contains(t) <==> r.to_set().contains(t));
    assert(all.contains(t) <==> from_drops.contains(t) || from_uses.contains(t) || universal.contains(t)) by {
        if all.contains(t) {
            let k = choose|k: int| 0 <= k < all.len() && all[k] == t;
            if k < from_drops.len() {
                assert(from_drops[k] == t);
            } else if k < from_drops.len() + from_uses.len() {
                assert(from_uses[k - from_drops.len()] == t);
            } else {
                assert(universal[k - from_drops.len() - from_uses.len()] == t);
            }
        }
        if from_drops.contains(t) {
            let k = choose|k: int| 0 <= k < from_drops.len() && from_drops[k] == t;
            assert(all[k] == t);
        }
        if from_uses.contains(t) {
            let k = choose|k: int| 0 <= k < from_uses.len() && from_uses[k] == t;
            assert(all[from_drops.len() + k] == t);
        }
        if universal.contains(t) {
            let k = choose|k: int| 0 <= k < universal.len() && universal[k] == t;
            assert(all[from_drops.len() + from_uses.len() + k] == t);
        }
    }
    if from_drops.contains(t) {
        let v = choose|v: u32| j1.contains((v, p, o));
        assert(j1.to_set().contains((v, p, o)));
        assert(drops.to_set().contains((v, o)));
        assert(drop_of_var_derefs_origin.contains((v, o)));
        assert(var_drop_live.contains((v, p)));
    }
    if exists|v: u32| #[trigger] drop_of_var_derefs_origin.contains((v, o)) && var_live_on_entry(
        var_dropped_while_init_at,
        var_defined_at,
        cfg_edge,
        v,
        p,
    ) {
        let v = choose|v: u32| #[trigger] drop_of_var_derefs_origin.contains((v, o)) && var_live_on_entry(
            var_dropped_while_init_at,
            var_defined_at,
            cfg_edge,
            v,
            p,
        );
        assert(var_drop_live.contains((v, p)));
        assert(drops.to_set().contains((v, o)));
        assert(j1.to_set().contains((v, p, o)));
        assert(j1.contains((v, p, o)));
        assert(from_drops.contains(t));
    }
    if from_uses.contains(t) {
        let v = choose|v: u32| j2.contains((v, p, o));
        assert(j2.to_set().contains((v, p, o)));
        assert(uses.to_set().contains((v, o)));
        assert(use_of_var_derefs_origin.contains((v, o)));
        assert(var_live.contains((v, p)));
    }
    if exists|v: u32| #[trigger] use_of_var_derefs_origin.contains((v, o)) && var_live_on_entry(
        var_used_at,
        var_defined_at,
        cfg_edge,
        v,
        p,
    ) {
        let v = choose|v: u32| #[trigger] use_of_var_derefs_origin.contains((v, o)) && var_live_on_entry(
            var_used_at,
            var_defined_at,
            cfg_edge,
            v,
            p,
        );
        assert(var_live.contains((v, p)));
        assert(uses.to_set().contains((v, o)));
        assert(j2.to_set().contains((v, p, o)));
        assert(j2.contains((v, p, o)));
        assert(from_uses.contains(t));
    }
    assert(universal.contains(t) <==> universal_region.contains(o) && cfg_node.contains(p));
}

/// The origins live on entry of each point.
#[derive(Clone, Copy)]
pub struct LiveOrigins;

impl LiveOrigins {
    /// The pairs `(var, point)` where the variable is live on entry to the point through
    /// `base`: `base` holds it at a point from which the control flow reaches this one, and
    /// `var_defined_at` holds it nowhere on the way. With `var_used_at` as `base`, this is
    /// `var_live_on_entry`; with `var_dropped_while_init_at`, `var_drop_live_on_entry`.
    pub fn var_live(&self, cfg_edge: &Vec<(u32, u32)>, base: &Vec<(u32, u32)>, var_defined_at: &Vec<(u32, u32)>) -> (r: Vec<(u32, u32)>)
        ensures
            sorted2(r@),
            forall|v: u32, p: u32| #[trigger] r@.contains((v, p)) <==> var_live_on_entry(base@, var_defined_at@, cfg_edge@, v, p),
    {
        let reverse = swap_pairs(cfg_edge);
        proof {
            lemma_swap_flipped(cfg_edge@, reverse@);
        }
        flow_paths(&reverse, base, var_defined_at)
    }

    /// `origin_live_on_entry(origin, point)`:
    ///
    /// ```text
    /// var_live_on_entry(var, point) :- var_used_at(var, point).
    /// var_live_on_entry(var, point1) :-
    ///     var_live_on_entry(var, point2),
    ///     cfg_edge(point1, point2),
    ///     !var_defined_at(var, point1).
    /// var_drop_live_on_entry(var, point) :- var_dropped_while_init_at(var, point).
    /// var_drop_live_on_entry(var, point1) :-
    ///     var_drop_live_on_entry(var, point2),
    ///     cfg_edge(point1, point2),
    ///     !var_defined_at(var, point1).
    /// origin_live_on_entry(origin, point) :-
    ///   var_drop_live_on_entry(var, point),
    ///   drop_of_var_derefs_origin(var, origin).
    /// origin_live_on_entry(origin, point) :-
    ///   var_live_on_entry(var, point),
    ///   use_of_var_derefs_origin(var, origin).
    /// origin_live_on_entry(origin, point) :-
    ///   universal_region(origin),
    ///   cfg_node(point).
    /// ```
    pub fn compute(
        &self,
        cfg_edge: &Vec<(u32, u32)>,
        cfg_node: &Vec<u32>,
        var_dropped_while_init_at: &Vec<(u32, u32)>,
        var_used_at: &Vec<(u32, u32)>,
        var_defined_at: &Vec<(u32, u32)>,
        use_of_var_derefs_origin: &Vec<(u32, u32)>,
        drop_of_var_derefs_origin: &Vec<(u32, u32)>,
        universal_region: &Vec<u32>,
    ) -> (origin_live_on_entry: Vec<(u32, u32)>)
        ensures
            sorted2(origin_live_on_entry@),
            forall|o: u32, p: u32| #[trigger] origin_live_on_entry@.contains((o, p)) <==> {
                ||| exists|v: u32| #[trigger] drop_of_var_derefs_origin@.contains((v, o)) && var_live_on_entry(
                    var_dropped_while_init_at@,
                    var_defined_at@,
                    cfg_edge@,
                    v,
                    p,
                )
                ||| exists|v: u32| #[trigger] use_of_var_derefs_origin@.contains((v, o)) && var_live_on_entry(
                    var_used_at@,
                    var_defined_at@,
                    cfg_edge@,
                    v,
                    p,
                )
                ||| universal_region@.contains(o) && cfg_node@.contains(p)
            },
    {
        let reverse = swap_pairs(cfg_edge);
        proof {
            lemma_swap_flipped(cfg_edge@, reverse@);
        }
        let var_live = flow_paths(&reverse, var_used_at, var_defined_at);
        let var_drop_live = flow_paths(&reverse, var_dropped_while_init_at, var_defined_at);
        let drops = relation_of_pairs(copy_pairs_of(drop_of_var_derefs_origin));
        let uses = relation_of_pairs(copy_pairs_of(use_of_var_derefs_origin));
        let j1 = join_on_first(&var_drop_live, &drops);
        let from_drops = third_then_second(&j1);
        let j2 = join_on_first(&var_live, &uses);
        let from_uses = third_then_second(&j2);
        let mut universal: Vec<(u32, u32)> = Vec::new();
        let mut i: usize = 0;
        while i < universal_region.len()
            invariant
                i <= universal_region@.len(),
                forall|o: u32, p: u32| #[trigger] universal@.contains((o, p)) <==> (exists|k: int| 0 <= k < i && universal_region@[k] == o) && cfg_node@.contains(p),
            decreases universal_region@.len() - i,
        {
            let o = universal_region[i];
            let mut j: usize = 0;
            let ghost before = universal@;
            while j < cfg_node.len()
                invariant
                    j <= cfg_node@.len(),
                    o == universal_region@[i as int],
                    i < universal_region@.len(),
                    forall|o2: u32, p: u32| #[trigger] universal@.contains((o2, p)) <==> before.contains((o2, p)) || (o2 == o && exists|k: int| 0 <= k < j && cfg_node@[k] == p),
                decreases cfg_node@.len() - j,
            {
                let ghost prev = universal@;
                universal.push((o, cfg_node[j]));
                proof {
                    assert forall|o2: u32, p: u32| #[trigger] universal@.contains((o2, p)) <==> before.contains((o2, p)) || (o2 == o && exists|k: int| 0 <= k < j + 1 && cfg_node@[k] == p) by {
                        if universal@.contains((o2, p)) {
                            let m = choose|m: int| 0 <= m < universal@.len() && universal@[m] == (o2, p);
                            if m < prev.len() {
                                assert(prev[m] == (o2, p));
                                assert(prev.contains((o2, p)));
                            } else {
                                assert(cfg_node@[j as int] == p);
                            }
                        }
                        if before.contains((o2, p)) {
                            assert(prev.contains((o2, p)));
                            let m = choose|m: int| 0 <= m < prev.len() && prev[m] == (o2, p);
                            assert(universal@[m] == (o2, p));
                        }
                        if o2 == o && exists|k: int| 0 <= k < j + 1 && cfg_node@[k] == p {
                            let k = choose|k: int| 0 <= k < j + 1 && cfg_node@[k] == p;
                            if k < j {
                                assert(prev.contains((o2, p)));
                                let m = choose|m: int| 0 <= m < prev.len() && prev[m] == (o2, p);
                                assert(universal@[m] == (o2, p));
                            } else {
                                assert(universal@[prev.len() as int] == (o2, p));
                            }
                        }
                    }
                }
                j = j + 1;
            }
            proof {
                assert forall|o2: u32, p: u32| #[trigger] universal@.contains((o2, p)) <==> (exists|k: int| 0 <= k < i + 1 && universal_region@[k] == o2) && cfg_node@.contains(p) by {
                    if universal@.contains((o2, p)) && !before.contains((o2, p)) {
                        let k = choose|k: int| 0 <= k < j && cfg_node@[k] == p;
                        assert(cfg_node@.contains(p));
                        assert(universal_region@[i as int] == o2);
                    }
                    if (exists|k: int| 0 <= k < i + 1 && universal_region@[k] == o2) && cfg_node@.contains(p) {
                        let k = choose|k: int| 0 <= k < i + 1 && universal_region@[k] == o2;
                        if k == i {
                            let m = choose|m: int| 0 <= m < cfg_node@.len() && cfg_node@[m] == p;
                            assert(exists|k: int| 0 <= k < j && cfg_node@[k] == p);
                        }
                    }
                }
            }
            i = i + 1;
        }
        let all = concat_pairs(&concat_pairs(&from_drops, &from_uses), &universal);
        let ghost all_v = all@;
        let r = relation_of_pairs(all);
        proof {
            assert forall|o: u32, p: u32| #[trigger] r@.contains((o, p)) <==> {
                ||| exists|v: u32| #[trigger] drop_of_var_derefs_origin@.contains((v, o)) && var_live_on_entry(
                    var_dropped_while_init_at@,
                    var_defined_at@,
                    cfg_edge@,
                    v,
                    p,
                )
                ||| exists|v: u32| #[trigger] use_of_var_derefs_origin@.contains((v, o)) && var_live_on_entry(
                    var_used_at@,
                    var_defined_at@,
                    cfg_edge@,
                    v,
                    p,
                )
                ||| universal_region@.contains(o) && cfg_node@.contains(p)
            } by {
                lemma_live_origin(
                    o,
                    p,
                    cfg_edge@,
                    reverse@,
                    var_dropped_while_init_at@,
                    var_used_at@,
                    var_defined_at@,
                    use_of_var_derefs_origin@,
                    drop_of_var_derefs_origin@,
                    universal_region@,
                    cfg_node@,
                    var_live@,
                    var_drop_live@,
                    drops@,
                    uses@,
                    j1@,
                    j2@,
                    from_drops@,
                    from_uses@,
                    universal@,
                    all_v,
                    r@,
                );
            }
        }
        r
    }
}

} // verus!
