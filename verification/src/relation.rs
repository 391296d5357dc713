//! Relations as sorted lists of distinct tuples, and the operations of `datafrog` on them:
//! building a relation from a list, joining two relations on their first component, taking
//! the tuples of one relation that are not in another, and merging two relations.
//!
//! On top of these, [`propagate`] computes the least relation that holds some base tuples
//! and is closed under following the edges of a graph: the fixpoint of a recursive rule.

use vstd::prelude::*;
use crate::facts::{lt2, lt3, sorted1, sorted2, sorted3};

verus! {

/// `datafrog::Relation::from_vec` on single values: the values of `v`, sorted, each once.
#[verifier::external_body]
pub(crate) fn relation_of_values(v: Vec<u32>) -> (r: Vec<u32>)
    ensures
        sorted1(r@),
        r@.to_set() == v@.to_set(),
{
    datafrog::Relation::from_vec(v).elements
}

/// `datafrog::Relation::from_vec` on pairs: the pairs of `v`, sorted (by the first
/// component, then the second), each once.
#[verifier::external_body]
pub(crate) fn relation_of_pairs(v: Vec<(u32, u32)>) -> (r: Vec<(u32, u32)>)
    ensures
        sorted2(r@),
        r@.to_set() == v@.to_set(),
{
    datafrog::Relation::from_vec(v).elements
}

/// `datafrog::Relation::from_vec` on triples: the triples of `v`, sorted (by the first
/// component, then the second, then the third), each once.
#[verifier::external_body]
pub(crate) fn relation_of_triples(v: Vec<(u32, u32, u32)>) -> (r: Vec<(u32, u32, u32)>)
    ensures
        sorted3(r@),
        r@.to_set() == v@.to_set(),
{
    datafrog::Relation::from_vec(v).elements
}

/// `datafrog::Relation::from_join`: the triples `(key, v1, v2)` for each `(key, v1)` of `a`
/// and each `(key, v2)` of `b`, sorted, each once.
#[verifier::external_body]
pub(crate) fn join_on_first(a: &Vec<(u32, u32)>, b: &Vec<(u32, u32)>) -> (r: Vec<(u32, u32, u32)>)
    requires
        sorted2(a@),
        sorted2(b@),
    ensures
        sorted3(r@),
        r@.to_set() == Set::new(|t: (u32, u32, u32)| a@.contains((t.0, t.1)) && b@.contains((t.0, t.2))),
{
    let a = datafrog::Relation { elements: a.clone() };
    let b = datafrog::Relation { elements: b.clone() };
    datafrog::Relation::from_join(&a, &b, |&k, &v1, &v2| (k, v1, v2)).elements
}

/// `datafrog::Variable::from_antijoin`, keyed by whole pairs, run in an `Iteration` whose
/// one variable holds `a`: the pairs of `a` that are not in `b`, sorted. (A `Relation` has no
/// tuples that are new in a round, and an antijoin reads only those of its first input: so
/// `Relation::from_antijoin` of this version of `datafrog` gives nothing, and the variable is
/// what carries `a`.)
#[verifier::external_body]
pub(crate) fn pairs_not_in(a: &Vec<(u32, u32)>, b: &Vec<(u32, u32)>) -> (r: Vec<(u32, u32)>)
    requires
        sorted2(a@),
        sorted2(b@),
    ensures
        sorted2(r@),
        r@.to_set() == a@.to_set().difference(b@.to_set()),
{
    let mut iteration = datafrog::Iteration::new();
    let input = iteration.variable::<((u32, u32), ())>("input");
    let output = iteration.variable::<(u32, u32)>("output");
    input.extend(a.iter().map(|&t| (t, ())));
    let b = datafrog::Relation { elements: b.clone() };
    while iteration.changed() {
        output.from_antijoin(&input, &b, |&t, &()| t);
    }
    output.complete().elements
}

/// `datafrog::Relation::merge`: the pairs of `a` and of `b`, sorted, each once.
#[verifier::external_body]
pub(crate) fn merge_pairs(a: Vec<(u32, u32)>, b: Vec<(u32, u32)>) -> (r: Vec<(u32, u32)>)
    requires
        sorted2(a@),
        sorted2(b@),
    ensures
        sorted2(r@),
        r@.to_set() == a@.to_set() + b@.to_set(),
{
    let a = datafrog::Relation { elements: a };
    let b = datafrog::Relation { elements: b };
    a.merge(b).elements
}

/// `datafrog::Relation::from_join`, keyed by the first two components: the tuples
/// `(k1, k2, v1, v2)` for each `(k1, k2, v1)` of `a` and each `(k1, k2, v2)` of `b`.
#[verifier::external_body]
pub(crate) fn join_on_first_two(a: &Vec<(u32, u32, u32)>, b: &Vec<(u32, u32, u32)>) -> (r: Vec<(u32, u32, u32, u32)>)
    requires
        sorted3(a@),
        sorted3(b@),
    ensures
        r@.to_set() == Set::new(|t: (u32, u32, u32, u32)| a@.contains((t.0, t.1, t.2)) && b@.contains((t.0, t.1, t.3))),
{
    let a = datafrog::Relation { elements: a.iter().map(|&(x, y, z)| ((x, y), z)).collect() };
    let b = datafrog::Relation { elements: b.iter().map(|&(x, y, z)| ((x, y), z)).collect() };
    datafrog::Relation::from_join(&a, &b, |&(k1, k2), &v1, &v2| (k1, k2, v1, v2)).elements
}

/// `datafrog::Relation::from_join`, keyed by the first component of triples of `a` and of
/// pairs of `b`: the tuples `(k, x, y, v)` for each `(k, x, y)` of `a` and each `(k, v)` of
/// `b`.
#[verifier::external_body]
pub(crate) fn join_triples_with_pairs(a: &Vec<(u32, u32, u32)>, b: &Vec<(u32, u32)>) -> (r: Vec<(u32, u32, u32, u32)>)
    requires
        sorted3(a@),
        sorted2(b@),
    ensures
        r@.to_set() == Set::new(|t: (u32, u32, u32, u32)| a@.contains((t.0, t.1, t.2)) && b@.contains((t.0, t.3))),
{
    let a = datafrog::Relation { elements: a.iter().map(|&(k, x, y)| (k, (x, y))).collect() };
    let b = datafrog::Relation { elements: b.clone() };
    datafrog::Relation::from_join(&a, &b, |&k, &(x, y), &v| (k, x, y, v)).elements
}

/// `datafrog::Relation::from_join` with a relation of keys: the triples of `a` whose first
/// two components make a pair of `b`.
#[verifier::external_body]
pub(crate) fn triples_keyed_in(a: &Vec<(u32, u32, u32)>, b: &Vec<(u32, u32)>) -> (r: Vec<(u32, u32, u32)>)
    requires
        sorted3(a@),
        sorted2(b@),
    ensures
        r@.to_set() == Set::new(|t: (u32, u32, u32)| a@.contains(t) && b@.contains((t.0, t.1))),
{
    let a = datafrog::Relation { elements: a.iter().map(|&(x, y, z)| ((x, y), z)).collect() };
    let b = datafrog::Relation { elements: b.iter().map(|&k| (k, ())).collect() };
    datafrog::Relation::from_join(&a, &b, |&(x, y), &z, &()| (x, y, z)).elements
}

/// `datafrog::Variable::from_antijoin`, run in an `Iteration` whose one variable holds `a`
/// keyed by its first two components: the triples of `a` whose first two components make no
/// pair of `b`, sorted. (See [`pairs_not_in`] for why a variable carries `a`.)
#[verifier::external_body]
pub(crate) fn triples_keyed_not_in(a: &Vec<(u32, u32, u32)>, b: &Vec<(u32, u32)>) -> (r: Vec<(u32, u32, u32)>)
    requires
        sorted3(a@),
        sorted2(b@),
    ensures
        r@.to_set() == Set::new(|t: (u32, u32, u32)| a@.contains(t) && !b@.contains((t.0, t.1))),
{
    let mut iteration = datafrog::Iteration::new();
    let input = iteration.variable::<((u32, u32), u32)>("input");
    let output = iteration.variable::<(u32, u32, u32)>("output");
    input.extend(a.iter().map(|&(x, y, z)| ((x, y), z)));
    let b = datafrog::Relation { elements: b.clone() };
    while iteration.changed() {
        output.from_antijoin(&input, &b, |&(x, y), &z| (x, y, z));
    }
    output.complete().elements
}

/// The position of a pair among all pairs of 32-bit values, in their order.
pub open spec fn pair_code(t: (u32, u32)) -> int {
    t.0 * 0x1_0000_0000 + t.1
}

proof fn lemma_pair_code_order(a: (u32, u32), b: (u32, u32))
    requires
        lt2(a, b),
    ensures
        pair_code(a) < pair_code(b),
{
    if a.0 < b.0 {
        assert(a.0 * 0x1_0000_0000 + 0x1_0000_0000 <= b.0 * 0x1_0000_0000) by (nonlinear_arith)
            requires
                a.0 < b.0,
        ;
    }
}

proof fn lemma_pair_code_at_least(s: Seq<(u32, u32)>, i: int)
    requires
        sorted2(s),
        0 <= i < s.len(),
    ensures
        pair_code(s[i]) >= i,
    decreases i,
{
    if i > 0 {
        lemma_pair_code_at_least(s, i - 1);
        lemma_pair_code_order(s[i - 1], s[i]);
    }
}

/// A sorted list of distinct pairs of 32-bit values holds at most 2^64 of them.
pub proof fn lemma_sorted_pairs_len(s: Seq<(u32, u32)>)
    requires
        sorted2(s),
    ensures
        s.len() <= 0x1_0000_0000_0000_0000,
{
    if s.len() > 0 {
        lemma_pair_code_at_least(s, s.len() - 1);
        let t = s[s.len() - 1];
        assert(t.0 * 0x1_0000_0000 + t.1 < 0x1_0000_0000_0000_0000) by (nonlinear_arith)
            requires
                t.0 < 0x1_0000_0000,
                t.1 < 0x1_0000_0000,
        ;
    }
}

/// The position of a triple among all triples of 32-bit values, in their order.
pub open spec fn triple_code(t: (u32, u32, u32)) -> int {
    t.0 * 0x1_0000_0000_0000_0000 + t.1 * 0x1_0000_0000 + t.2
}

proof fn lemma_triple_code_order(a: (u32, u32, u32), b: (u32, u32, u32))
    requires
        lt3(a, b),
    ensures
        triple_code(a) < triple_code(b),
{
    let x = a.1 * 0x1_0000_0000 + a.2;
    let y = b.1 * 0x1_0000_0000 + b.2;
    assert(0 <= x < 0x1_0000_0000_0000_0000) by (nonlinear_arith)
        requires
            x == a.1 * 0x1_0000_0000 + a.2,
            a.1 < 0x1_0000_0000,
            a.2 < 0x1_0000_0000,
    ;
    assert(0 <= y < 0x1_0000_0000_0000_0000) by (nonlinear_arith)
        requires
            y == b.1 * 0x1_0000_0000 + b.2,
            b.1 < 0x1_0000_0000,
            b.2 < 0x1_0000_0000,
    ;
    if a.0 < b.0 {
        assert(a.0 * 0x1_0000_0000_0000_0000 + 0x1_0000_0000_0000_0000 <= b.0 * 0x1_0000_0000_0000_0000) by (nonlinear_arith)
            requires
                a.0 < b.0,
        ;
    } else if a.1 < b.1 {
        assert(a.1 * 0x1_0000_0000 + 0x1_0000_0000 <= b.1 * 0x1_0000_0000) by (nonlinear_arith)
            requires
                a.1 < b.1,
        ;
    }
}

proof fn lemma_triple_code_at_least(s: Seq<(u32, u32, u32)>, i: int)
    requires
        sorted3(s),
        0 <= i < s.len(),
    ensures
        triple_code(s[i]) >= i,
    decreases i,
{
    if i > 0 {
        lemma_triple_code_at_least(s, i - 1);
        lemma_triple_code_order(s[i - 1], s[i]);
    } else {
        let t = s[0];
        assert(triple_code(t) >= 0) by (nonlinear_arith)
            requires
                triple_code(t) == t.0 * 0x1_0000_0000_0000_0000 + t.1 * 0x1_0000_0000 + t.2,
                t.0 >= 0,
                t.1 >= 0,
                t.2 >= 0,
        ;
    }
}

/// A sorted list of distinct triples of 32-bit values holds at most 2^96 of them.
pub proof fn lemma_sorted_triples_len(s: Seq<(u32, u32, u32)>)
    requires
        sorted3(s),
    ensures
        s.len() <= 0x1_0000_0000_0000_0000_0000_0000,
{
    if s.len() > 0 {
        lemma_triple_code_at_least(s, s.len() - 1);
        let t = s[s.len() - 1];
        assert(triple_code(t) < 0x1_0000_0000_0000_0000_0000_0000) by (nonlinear_arith)
            requires
                triple_code(t) == t.0 * 0x1_0000_0000_0000_0000 + t.1 * 0x1_0000_0000 + t.2,
                t.0 < 0x1_0000_0000,
                t.1 < 0x1_0000_0000,
                t.2 < 0x1_0000_0000,
        ;
    }
}

/// A sorted list holds no triple twice.
pub proof fn lemma_sorted_triples_distinct(s: Seq<(u32, u32, u32)>)
    requires
        sorted3(s),
    ensures
        s.no_duplicates(),
{
    assert forall|i: int, j: int| 0 <= i < s.len() && 0 <= j < s.len() && i != j implies s[i] != s[j] by {
        if i < j {
            assert(lt3(s[i], s[j]));
        } else {
            assert(lt3(s[j], s[i]));
        }
    }
}

/// A sorted list holds no pair twice.
pub proof fn lemma_sorted_pairs_distinct(s: Seq<(u32, u32)>)
    requires
        sorted2(s),
    ensures
        s.no_duplicates(),
{
    assert forall|i: int, j: int| 0 <= i < s.len() && 0 <= j < s.len() && i != j implies s[i] != s[j] by {
        if i < j {
            assert(lt2(s[i], s[j]));
        } else {
            assert(lt2(s[j], s[i]));
        }
    }
}

proof fn lemma_walk_push(e: Set<(u32, u32)>, path: Seq<u32>, n: u32)
    requires
        is_walk(e, path),
        e.contains((path.last(), n)),
    ensures
        is_walk(e, path.push(n)),
        path.push(n)[0] == path[0],
        path.push(n).last() == n,
{
    let q = path.push(n);
    assert forall|i: int| 0 <= i < q.len() - 1 implies #[trigger] e.contains((q[i], q[i + 1])) by {
        if i < path.len() - 1 {
            assert(q[i] == path[i]);
            assert(q[i + 1] == path[i + 1]);
        }
    }
}

/// Whether `path` goes along `edges`: each node of it and the next one make an edge.
pub open spec fn is_walk(edges: Set<(u32, u32)>, path: Seq<u32>) -> bool {
    &&& path.len() >= 1
    &&& forall|i: int| 0 <= i < path.len() - 1 ==> #[trigger] edges.contains((path[i], path[i + 1]))
}

/// Whether no node of `path` after the first is paired with `payload` in `kill`.
pub open spec fn avoids(kill: Set<(u32, u32)>, path: Seq<u32>, payload: u32) -> bool {
    forall|i: int| 1 <= i < path.len() ==> !#[trigger] kill.contains((path[i], payload))
}

/// Whether the pair `(node, payload)` is reached from `base` along `edges` without passing
/// `kill`: some walk along `edges` ends at `node`, starts at a node that `base` pairs with
/// `payload`, and goes through no node after its first that `kill` pairs with `payload`.
pub open spec fn reached_unless(base: Set<(u32, u32)>, edges: Set<(u32, u32)>, kill: Set<(u32, u32)>, t: (u32, u32)) -> bool {
    exists|path: Seq<u32>|
        #[trigger] is_walk(edges, path) && path.last() == t.0 && base.contains((path[0], t.1)) && avoids(kill, path, t.1)
}

/// Whether the pair `(node, payload)` is reached from `base` along `edges`: some walk along
/// `edges` ends at `node` and starts at a node that `base` pairs with `payload`.
pub open spec fn reached(base: Set<(u32, u32)>, edges: Set<(u32, u32)>, t: (u32, u32)) -> bool {
    exists|path: Seq<u32>| #[trigger] is_walk(edges, path) && path.last() == t.0 && base.contains((path[0], t.1))
}

/// Whether each pair of `r` has its payload at each successor of its node, but where `kill`
/// pairs the successor with the payload.
pub open spec fn closed_unless(r: Set<(u32, u32)>, edges: Set<(u32, u32)>, kill: Set<(u32, u32)>) -> bool {
    forall|t: (u32, u32), n: u32|
        #![trigger r.contains(t), edges.contains((t.0, n))]
        r.contains(t) && edges.contains((t.0, n)) && !kill.contains((n, t.1)) ==> r.contains((n, t.1))
}

/// A relation that holds `base` and is closed under `edges` but for `kill` holds every pair
/// reached from `base` along `edges` without passing `kill`.
proof fn lemma_closed_holds_reached(base: Set<(u32, u32)>, edges: Set<(u32, u32)>, kill: Set<(u32, u32)>, r: Set<(u32, u32)>, path: Seq<u32>, p: u32)
    requires
        base.subset_of(r),
        closed_unless(r, edges, kill),
        is_walk(edges, path),
        base.contains((path[0], p)),
        avoids(kill, path, p),
    ensures
        r.contains((path.last(), p)),
    decreases path.len(),
{
    if path.len() > 1 {
        let init = path.drop_last();
        assert(is_walk(edges, init)) by {
            assert forall|i: int| 0 <= i < init.len() - 1 implies #[trigger] edges.contains((init[i], init[i + 1])) by {
                assert(init[i] == path[i]);
                assert(init[i + 1] == path[i + 1]);
            }
        }
        assert(avoids(kill, init, p)) by {
            assert forall|i: int| 1 <= i < init.len() implies !#[trigger] kill.contains((init[i], p)) by {
                assert(init[i] == path[i]);
            }
        }
        lemma_closed_holds_reached(base, edges, kill, r, init, p);
        let j = path.len() - 2;
        assert(edges.contains((path[j], path[j + 1])));
        assert(init.last() == path[path.len() - 2]);
        let t = (init.last(), p);
        assert(!kill.contains((path[path.len() - 1], p)));
        assert(r.contains(t) && edges.contains((t.0, path.last())));
    } else {
        assert(path.last() == path[0]);
    }
}

/// A copy of `v`.
pub(crate) fn copy_pairs(v: &Vec<(u32, u32)>) -> (r: Vec<(u32, u32)>)
    ensures
        r@ == v@,
{
    let mut r: Vec<(u32, u32)> = Vec::new();
    let mut i: usize = 0;
    while i < v.len()
        invariant
            i <= v@.len(),
            r@ == v@.take(i as int),
        decreases v@.len() - i,
    {
        r.push(v[i]);
        proof {
            assert(v@.take(i + 1) =~= v@.take(i as int).push(v@[i as int]));
        }
        i = i + 1;
    }
    proof {
        assert(v@.take(v@.len() as int) =~= v@);
    }
    r
}

/// The pairs `(n, payload)` for each pair `(node, payload)` of `delta` and each edge
/// `(node, n)`, but for those that `kill` or `current` holds.
fn successors_not_in(delta: &Vec<(u32, u32)>, edges: &Vec<(u32, u32)>, kill: &Vec<(u32, u32)>, current: &Vec<(u32, u32)>) -> (fresh: Vec<(u32, u32)>)
    requires
        sorted2(delta@),
        sorted2(edges@),
        sorted2(kill@),
        sorted2(current@),
    ensures
        sorted2(fresh@),
        forall|n: u32, p: u32| #[trigger] fresh@.contains((n, p)) <==> !current@.contains((n, p)) && !kill@.contains((n, p)) && exists|m: u32|
            #[trigger] delta@.contains((m, p)) && edges@.contains((m, n)),
{
    let joined = join_on_first(delta, edges);
    let mut candidates: Vec<(u32, u32)> = Vec::new();
    let mut k: usize = 0;
    while k < joined.len()
        invariant
            k <= joined@.len(),
            candidates@.len() == k,
            forall|i: int| 0 <= i < k ==> #[trigger] candidates@[i] == (joined@[i].2, joined@[i].1),
        decreases joined@.len() - k,
    {
        let t = joined[k];
        candidates.push((t.2, t.1));
        k = k + 1;
    }
    let ghost cands = candidates@;
    let next = relation_of_pairs(candidates);
    let alive = pairs_not_in(&next, kill);
    let fresh = pairs_not_in(&alive, current);
    proof {
        assert forall|n: u32, p: u32| #[trigger] fresh@.contains((n, p)) <==> !current@.contains((n, p)) && !kill@.contains((n, p)) && exists|m: u32|
            #[trigger] delta@.contains((m, p)) && edges@.contains((m, n)) by {
            let t = (n, p);
            if fresh@.contains(t) {
                assert(fresh@.to_set().contains(t));
                assert(alive@.to_set().contains(t));
                assert(!kill@.to_set().contains(t));
                assert(next@.to_set().contains(t));
                assert(cands.to_set().contains(t));
                let i = choose|i: int| 0 <= i < cands.len() && cands[i] == t;
                let x = joined@[i];
                assert(joined@.to_set().contains(x));
                assert(delta@.contains((x.0, t.1)) && edges@.contains((x.0, t.0)));
            }
            if !current@.contains(t) && !kill@.contains(t) && exists|m: u32| delta@.contains((m, t.1)) && edges@.contains((m, t.0)) {
                let m = choose|m: u32| delta@.contains((m, t.1)) && edges@.contains((m, t.0));
                assert(joined@.to_set().contains((m, t.1, t.0)));
                let i = choose|i: int| 0 <= i < joined@.len() && joined@[i] == (m, t.1, t.0);
                assert(cands[i] == t);
                assert(cands.to_set().contains(t));
                assert(next@.to_set().contains(t));
                assert(!kill@.to_set().contains(t));
                assert(alive@.to_set().contains(t));
                assert(!current@.to_set().contains(t));
                assert(fresh@.to_set().contains(t));
            }
        }
    }
    fresh
}

/// The new pairs of a round of [`propagate_unless`] are reached.
proof fn lemma_propagate_sound(
    b: Set<(u32, u32)>,
    e: Set<(u32, u32)>,
    k: Set<(u32, u32)>,
    edges: Seq<(u32, u32)>,
    kill: Seq<(u32, u32)>,
    old_current: Seq<(u32, u32)>,
    old_delta: Seq<(u32, u32)>,
    fresh: Seq<(u32, u32)>,
    current: Seq<(u32, u32)>,
)
    requires
        e == edges.to_set(),
        k == kill.to_set(),
        current.to_set() == old_current.to_set() + fresh.to_set(),
        forall|n: u32, p: u32| #[trigger] fresh.contains((n, p)) <==> !old_current.contains((n, p)) && !kill.contains((n, p)) && exists|m: u32|
            #[trigger] old_delta.contains((m, p)) && edges.contains((m, n)),
        forall|t: (u32, u32)| old_delta.contains(t) ==> old_current.contains(t),
        forall|t: (u32, u32)| old_current.contains(t) ==> reached_unless(b, e, k, t),
    ensures
        forall|t: (u32, u32)| current.contains(t) ==> reached_unless(b, e, k, t),
{
    assert forall|t: (u32, u32)| current.contains(t) implies reached_unless(b, e, k, t) by {
        assert(current.to_set().contains(t));
        if !old_current.contains(t) {
            assert(fresh.to_set().contains(t));
            let (n, p) = t;
            assert(t == (n, p));
            assert(fresh.contains((n, p)));
            let m = choose|m: u32| old_delta.contains((m, p)) && edges.contains((m, n));
            assert(reached_unless(b, e, k, (m, p)));
            let path = choose|path: Seq<u32>|
                #[trigger] is_walk(e, path) && path.last() == m && b.contains((path[0], p)) && avoids(k, path, p);
            assert(e.contains((m, n)));
            lemma_walk_push(e, path, n);
            let q = path.push(n);
            assert(avoids(k, q, p)) by {
                assert forall|i: int| 1 <= i < q.len() implies !#[trigger] k.contains((q[i], p)) by {
                    if i < path.len() {
                        assert(q[i] == path[i]);
                    } else {
                        assert(!kill.contains((n, p)));
                    }
                }
            }
        }
    }
}

/// One round of [`propagate_unless`]: merging the new pairs keeps every pair reached, keeps
/// the pairs that were already followed closed, and makes the relation grow.
#[verifier::rlimit(40)]
proof fn lemma_propagate_step(
    b: Set<(u32, u32)>,
    e: Set<(u32, u32)>,
    k: Set<(u32, u32)>,
    edges: Seq<(u32, u32)>,
    kill: Seq<(u32, u32)>,
    old_current: Seq<(u32, u32)>,
    old_delta: Seq<(u32, u32)>,
    fresh: Seq<(u32, u32)>,
    current: Seq<(u32, u32)>,
)
    requires
        e == edges.to_set(),
        k == kill.to_set(),
        sorted2(old_current),
        sorted2(fresh),
        sorted2(current),
        fresh.len() > 0,
        current.to_set() == old_current.to_set() + fresh.to_set(),
        forall|n: u32, p: u32| #[trigger] fresh.contains((n, p)) <==> !old_current.contains((n, p)) && !kill.contains((n, p)) && exists|m: u32|
            #[trigger] old_delta.contains((m, p)) && edges.contains((m, n)),
        forall|t: (u32, u32)| old_delta.contains(t) ==> old_current.contains(t),
        forall|t: (u32, u32)| old_current.contains(t) ==> reached_unless(b, e, k, t),
        forall|t: (u32, u32), n: u32|
            #![trigger old_current.contains(t), e.contains((t.0, n))]
            old_current.contains(t) && !old_delta.contains(t) && e.contains((t.0, n)) && !k.contains((n, t.1)) ==> old_current.contains((n, t.1)),
        b.subset_of(old_current.to_set()),
    ensures
        forall|t: (u32, u32)| current.contains(t) ==> reached_unless(b, e, k, t),
        forall|t: (u32, u32), n: u32|
            #![trigger current.contains(t), e.contains((t.0, n))]
            current.contains(t) && !fresh.contains(t) && e.contains((t.0, n)) && !k.contains((n, t.1)) ==> current.contains((n, t.1)),
        forall|t: (u32, u32)| fresh.contains(t) ==> current.contains(t),
        b.subset_of(current.to_set()),
        old_current.len() < current.len() <= 0x1_0000_0000_0000_0000,
{
    lemma_propagate_sound(b, e, k, edges, kill, old_current, old_delta, fresh, current);
    assert forall|t: (u32, u32), n: u32|
        #![trigger current.contains(t), e.contains((t.0, n))]
        current.contains(t) && !fresh.contains(t) && e.contains((t.0, n)) && !k.contains((n, t.1)) implies current.contains((n, t.1)) by {
        assert(current.to_set().contains(t));
        assert(old_current.contains(t));
        if old_delta.contains(t) {
            if !old_current.contains((n, t.1)) {
                assert(edges.contains((t.0, n)));
                assert(!kill.contains((n, t.1)));
                assert((t.0, t.1) == t);
                assert(old_delta.contains((t.0, t.1)) && edges.contains((t.0, n)));
                assert(fresh.contains((n, t.1)));
                assert(fresh.to_set().contains((n, t.1)));
            } else {
                assert(old_current.to_set().contains((n, t.1)));
            }
            assert(current.to_set().contains((n, t.1)));
        } else {
            assert(old_current.contains((n, t.1)));
            assert(old_current.to_set().contains((n, t.1)));
            assert(current.to_set().contains((n, t.1)));
        }
    }
    assert forall|t: (u32, u32)| fresh.contains(t) implies current.contains(t) by {
        assert(fresh.to_set().contains(t));
        assert(current.to_set().contains(t));
    }
    lemma_sorted_pairs_distinct(old_current);
    lemma_sorted_pairs_distinct(fresh);
    lemma_sorted_pairs_distinct(current);
    old_current.unique_seq_to_set();
    fresh.unique_seq_to_set();
    current.unique_seq_to_set();
    assert(old_current.to_set().disjoint(fresh.to_set())) by {
        assert forall|t: (u32, u32)| old_current.to_set().contains(t) implies !fresh.to_set().contains(t) by {
            if fresh.to_set().contains(t) {
                assert(fresh.contains(t));
            }
        }
    }
    vstd::set_lib::lemma_set_disjoint_lens(old_current.to_set(), fresh.to_set());
    assert(fresh.to_set().contains(fresh[0]));
    lemma_sorted_pairs_len(current);
}

/// When a round of [`propagate_unless`] finds no new pair, the relation is closed.
proof fn lemma_propagate_done(
    e: Set<(u32, u32)>,
    k: Set<(u32, u32)>,
    edges: Seq<(u32, u32)>,
    kill: Seq<(u32, u32)>,
    current: Seq<(u32, u32)>,
    delta: Seq<(u32, u32)>,
    fresh: Seq<(u32, u32)>,
)
    requires
        e == edges.to_set(),
        k == kill.to_set(),
        fresh.len() == 0,
        forall|n: u32, p: u32| #[trigger] fresh.contains((n, p)) <==> !current.contains((n, p)) && !kill.contains((n, p)) && exists|m: u32|
            #[trigger] delta.contains((m, p)) && edges.contains((m, n)),
        forall|t: (u32, u32), n: u32|
            #![trigger current.contains(t), e.contains((t.0, n))]
            current.contains(t) && !delta.contains(t) && e.contains((t.0, n)) && !k.contains((n, t.1)) ==> current.contains((n, t.1)),
    ensures
        closed_unless(current.to_set(), e, k),
{
    assert forall|t: (u32, u32), n: u32| current.to_set().contains(t) && e.contains((t.0, n)) && !k.contains((n, t.1)) implies current.to_set().contains(
        (n, t.1),
    ) by {
        assert(current.contains(t));
        if delta.contains(t) && !current.contains((n, t.1)) {
            assert(edges.contains((t.0, n)));
            assert(!kill.contains((n, t.1)));
            assert((t.0, t.1) == t);
            assert(delta.contains((t.0, t.1)) && edges.contains((t.0, n)));
            assert(fresh.contains((n, t.1)));
        }
    }
}

/// The least relation that holds the pairs `(node, payload)` of `base` and is closed under
/// `edges` but for `kill`: with each pair, it holds the payload at each successor of the
/// node, unless `kill` pairs the successor with the payload. Its pairs are those reached
/// from `base` along `edges` without passing `kill` (see [`reached_unless`]).
#[verifier::rlimit(30)]
pub fn propagate_unless(base: &Vec<(u32, u32)>, edges: &Vec<(u32, u32)>, kill: &Vec<(u32, u32)>) -> (r: Vec<(u32, u32)>)
    ensures
        sorted2(r@),
        forall|t: (u32, u32)| r@.contains(t) <==> reached_unless(base@.to_set(), edges@.to_set(), kill@.to_set(), t),
{
    let ghost b = base@.to_set();
    let ghost e = edges@.to_set();
    let ghost k = kill@.to_set();
    let edges = relation_of_pairs(copy_pairs(edges));
    let kill = relation_of_pairs(copy_pairs(kill));
    let mut current = relation_of_pairs(copy_pairs(base));
    let mut delta = copy_pairs(&current);
    proof {
        assert forall|t: (u32, u32)| current@.contains(t) implies reached_unless(b, e, k, t) by {
            let path = seq![t.0];
            assert(is_walk(e, path));
            assert(avoids(k, path, t.1));
            assert(current@.to_set().contains(t));
        }
    }
    loop
        invariant_except_break
            sorted2(delta@),
            forall|t: (u32, u32)| delta@.contains(t) ==> current@.contains(t),
        invariant
            sorted2(current@),
            sorted2(edges@),
            sorted2(kill@),
            b == base@.to_set(),
            e == edges@.to_set(),
            k == kill@.to_set(),
            b.subset_of(current@.to_set()),
            forall|t: (u32, u32)| current@.contains(t) ==> reached_unless(b, e, k, t),
            forall|t: (u32, u32), n: u32|
                #![trigger current@.contains(t), e.contains((t.0, n))]
                current@.contains(t) && !delta@.contains(t) && e.contains((t.0, n)) && !k.contains((n, t.1)) ==> current@.contains((n, t.1)),
        ensures
            closed_unless(current@.to_set(), e, k),
        decreases 0x1_0000_0000_0000_0000 - current@.len(),
    {
        let fresh = successors_not_in(&delta, &edges, &kill, &current);
        if fresh.len() == 0 {
            proof {
                lemma_propagate_done(e, k, edges@, kill@, current@, delta@, fresh@);
            }
            break;
        }
        let ghost old_current = current@;
        let ghost old_delta = delta@;
        current = merge_pairs(current, copy_pairs(&fresh));
        proof {
            lemma_propagate_step(b, e, k, edges@, kill@, old_current, old_delta, fresh@, current@);
        }
        delta = fresh;
    }
    proof {
        assert forall|t: (u32, u32)| reached_unless(b, e, k, t) implies current@.contains(t) by {
            let path = choose|path: Seq<u32>|
                #[trigger] is_walk(e, path) && path.last() == t.0 && b.contains((path[0], t.1)) && avoids(k, path, t.1);
            lemma_closed_holds_reached(b, e, k, current@.to_set(), path, t.1);
            assert(current@.to_set().contains(t));
        }
    }
    current
}

/// The least relation that holds the pairs `(node, payload)` of `base` and is closed under
/// `edges`: with each pair, it holds the payload at each successor of the node. Its pairs
/// are those reached from `base` along `edges` (see [`reached`]).
pub fn propagate(base: &Vec<(u32, u32)>, edges: &Vec<(u32, u32)>) -> (r: Vec<(u32, u32)>)
    ensures
        sorted2(r@),
        forall|t: (u32, u32)| r@.contains(t) <==> reached(base@.to_set(), edges@.to_set(), t),
{
    let none: Vec<(u32, u32)> = Vec::new();
    let r = propagate_unless(base, edges, &none);
    proof {
        let k = none@.to_set();
        assert forall|t: (u32, u32)| r@.contains(t) <==> reached(base@.to_set(), edges@.to_set(), t) by {
            if reached(base@.to_set(), edges@.to_set(), t) {
                let path = choose|path: Seq<u32>| #[trigger] is_walk(edges@.to_set(), path) && path.last() == t.0 && base@.to_set().contains((path[0], t.1));
                assert(avoids(k, path, t.1));
            }
        }
    }
    r
}

/// Two sorted lists that hold the same values are the same list.
pub proof fn lemma_sorted_values_unique(a: Seq<u32>, b: Seq<u32>)
    requires
        sorted1(a),
        sorted1(b),
        a.to_set() == b.to_set(),
    ensures
        a == b,
    decreases a.len(),
{
    if a.len() == 0 {
        if b.len() > 0 {
            assert(b.to_set().contains(b[0]));
        }
        assert(b =~= a);
    } else {
        assert(b.to_set().contains(a[0]));
        assert(b.len() > 0);
        assert(a.to_set().contains(b[0]));
        let j = choose|j: int| 0 <= j < b.len() && b[j] == a[0];
        let k = choose|k: int| 0 <= k < a.len() && a[k] == b[0];
        if j > 0 {
            assert(b[0] < b[j]);
            if k > 0 {
                assert(a[0] < a[k]);
            }
        }
        assert(a[0] == b[0]);
        let a1 = a.drop_first();
        let b1 = b.drop_first();
        assert forall|x: u32| a1.to_set().contains(x) <==> b1.to_set().contains(x) by {
            if a1.to_set().contains(x) {
                let i = choose|i: int| 0 <= i < a1.len() && a1[i] == x;
                assert(a[i + 1] == x);
                assert(a[0] < a[i + 1]);
                assert(b.to_set().contains(x));
                let m = choose|m: int| 0 <= m < b.len() && b[m] == x;
                assert(m != 0);
                assert(b1[m - 1] == x);
            }
            if b1.to_set().contains(x) {
                let i = choose|i: int| 0 <= i < b1.len() && b1[i] == x;
                assert(b[i + 1] == x);
                assert(b[0] < b[i + 1]);
                assert(a.to_set().contains(x));
                let m = choose|m: int| 0 <= m < a.len() && a[m] == x;
                assert(m != 0);
                assert(a1[m - 1] == x);
            }
        }
        assert(a1.to_set() =~= b1.to_set());
        lemma_sorted_values_unique(a1, b1);
        assert(a =~= seq![a[0]] + a1);
        assert(b =~= seq![b[0]] + b1);
    }
}

/// Two sorted lists that hold the same values are the same list.
pub proof fn lemma_sorted_pairs_unique(a: Seq<(u32, u32)>, b: Seq<(u32, u32)>)
    requires
        sorted2(a),
        sorted2(b),
        a.to_set() == b.to_set(),
    ensures
        a == b,
    decreases a.len(),
{
    if a.len() == 0 {
        if b.len() > 0 {
            assert(b.to_set().contains(b[0]));
        }
        assert(b =~= a);
    } else {
        assert(b.to_set().contains(a[0]));
        assert(b.len() > 0);
        assert(a.to_set().contains(b[0]));
        let j = choose|j: int| 0 <= j < b.len() && b[j] == a[0];
        let k = choose|k: int| 0 <= k < a.len() && a[k] == b[0];
        if j > 0 {
            assert(lt2(b[0], b[j]));
            if k > 0 {
                assert(lt2(a[0], a[k]));
            }
        }
        assert(a[0] == b[0]);
        let a1 = a.drop_first();
        let b1 = b.drop_first();
        assert forall|x: (u32, u32)| a1.to_set().contains(x) <==> b1.to_set().contains(x) by {
            if a1.to_set().contains(x) {
                let i = choose|i: int| 0 <= i < a1.len() && a1[i] == x;
                assert(a[i + 1] == x);
                assert(lt2(a[0], a[i + 1]));
                assert(b.to_set().contains(x));
                let m = choose|m: int| 0 <= m < b.len() && b[m] == x;
                assert(m != 0);
                assert(b1[m - 1] == x);
            }
            if b1.to_set().contains(x) {
                let i = choose|i: int| 0 <= i < b1.len() && b1[i] == x;
                assert(b[i + 1] == x);
                assert(lt2(b[0], b[i + 1]));
                assert(a.to_set().contains(x));
                let m = choose|m: int| 0 <= m < a.len() && a[m] == x;
                assert(m != 0);
                assert(a1[m - 1] == x);
            }
        }
        assert(a1.to_set() =~= b1.to_set());
        lemma_sorted_pairs_unique(a1, b1);
        assert(a =~= seq![a[0]] + a1);
        assert(b =~= seq![b[0]] + b1);
    }
}

/// Two sorted lists that hold the same values are the same list.
pub proof fn lemma_sorted_triples_unique(a: Seq<(u32, u32, u32)>, b: Seq<(u32, u32, u32)>)
    requires
        sorted3(a),
        sorted3(b),
        a.to_set() == b.to_set(),
    ensures
        a == b,
    decreases a.len(),
{
    if a.len() == 0 {
        if b.len() > 0 {
            assert(b.to_set().contains(b[0]));
        }
        assert(b =~= a);
    } else {
        assert(b.to_set().contains(a[0]));
        assert(b.len() > 0);
        assert(a.to_set().contains(b[0]));
        let j = choose|j: int| 0 <= j < b.len() && b[j] == a[0];
        let k = choose|k: int| 0 <= k < a.len() && a[k] == b[0];
        if j > 0 {
            assert(lt3(b[0], b[j]));
            if k > 0 {
                assert(lt3(a[0], a[k]));
            }
        }
        assert(a[0] == b[0]);
        let a1 = a.drop_first();
        let b1 = b.drop_first();
        assert forall|x: (u32, u32, u32)| a1.to_set().contains(x) <==> b1.to_set().contains(x) by {
            if a1.to_set().contains(x) {
                let i = choose|i: int| 0 <= i < a1.len() && a1[i] == x;
                assert(a[i + 1] == x);
                assert(lt3(a[0], a[i + 1]));
                assert(b.to_set().contains(x));
                let m = choose|m: int| 0 <= m < b.len() && b[m] == x;
                assert(m != 0);
                assert(b1[m - 1] == x);
            }
            if b1.to_set().contains(x) {
                let i = choose|i: int| 0 <= i < b1.len() && b1[i] == x;
                assert(b[i + 1] == x);
                assert(lt3(b[0], b[i + 1]));
                assert(a.to_set().contains(x));
                let m = choose|m: int| 0 <= m < a.len() && a[m] == x;
                assert(m != 0);
                assert(a1[m - 1] == x);
            }
        }
        assert(a1.to_set() =~= b1.to_set());
        lemma_sorted_triples_unique(a1, b1);
        assert(a =~= seq![a[0]] + a1);
        assert(b =~= seq![b[0]] + b1);
    }
}

} // verus!
