//! The naive location-sensitive borrow check: simple rules, computed as their least
//! fixpoint.
//!
//! The analysis derives, at each point, the subset relations between origins and the loans
//! that each origin may contain; a loan invalidated at a point where an origin that
//! contains it is live is an error, and so is a placeholder origin that flows into another
//! one without being known to.

use vstd::prelude::*;
use crate::compute::{connected, contains_loan_anywhere, first_two};
use crate::facts::{sorted2, sorted3};
use crate::relation::{
    copy_pairs, join_on_first_two, join_triples_with_pairs, lemma_sorted_triples_distinct, lemma_sorted_triples_len,
    is_walk, pairs_not_in, reached, relation_of_pairs, relation_of_triples, triples_keyed_in, triples_keyed_not_in,
};

verus! {

/// The triples `(b, c, a)` of the triples `(a, b, c)` of `v`.
fn rotate_left(v: &Vec<(u32, u32, u32)>) -> (r: Vec<(u32, u32, u32)>)
    ensures
        forall|b: u32, c: u32, a: u32| #[trigger] r@.contains((b, c, a)) <==> v@.contains((a, b, c)),
{
    let mut r: Vec<(u32, u32, u32)> = Vec::new();
    let mut i: usize = 0;
    while i < v.len()
        invariant
            i <= v@.len(),
            forall|k: int| 0 <= k < r@.len() ==> exists|j: int| 0 <= j < i && #[trigger] r@[k] == (v@[j].1, v@[j].2, v@[j].0),
            forall|j: int| 0 <= j < i ==> #[trigger] r@.contains((v@[j].1, v@[j].2, v@[j].0)),
        decreases v@.len() - i,
    {
        let t = v[i];
        let ghost before = r@;
        r.push((t.1, t.2, t.0));
        proof {
            assert forall|k: int| 0 <= k < r@.len() implies exists|j: int| 0 <= j < i + 1 && #[trigger] r@[k] == (v@[j].1, v@[j].2, v@[j].0) by {
                if k < before.len() {
                    assert(r@[k] == before[k]);
                } else {
                    assert(r@[k] == (v@[i as int].1, v@[i as int].2, v@[i as int].0));
                }
            }
            assert forall|j: int| 0 <= j < i + 1 implies #[trigger] r@.contains((v@[j].1, v@[j].2, v@[j].0)) by {
                if j < i {
                    assert(before.contains((v@[j].1, v@[j].2, v@[j].0)));
                    let k = choose|k: int| 0 <= k < before.len() && before[k] == (v@[j].1, v@[j].2, v@[j].0);
                    assert(r@[k] == before[k]);
                } else {
                    assert(r@[r@.len() - 1] == (v@[j].1, v@[j].2, v@[j].0));
                }
            }
        }
        i = i + 1;
    }
    proof {
        assert forall|b: u32, c: u32, a: u32| #[trigger] r@.contains((b, c, a)) <==> v@.contains((a, b, c)) by {
            if r@.contains((b, c, a)) {
                let k = choose|k: int| 0 <= k < r@.len() && r@[k] == (b, c, a);
                let j = choose|j: int| 0 <= j < v@.len() && #[trigger] r@[k] == (v@[j].1, v@[j].2, v@[j].0);
                let x = v@[j];
                assert(x == (x.0, x.1, x.2));
                assert(v@.contains((x.0, x.1, x.2)));
            }
            if v@.contains((a, b, c)) {
                let j = choose|j: int| 0 <= j < v@.len() && v@[j] == (a, b, c);
                assert(r@.contains((v@[j].1, v@[j].2, v@[j].0)));
            }
        }
    }
    r
}

/// The triples `(a, c, b)` of the triples `(a, b, c)` of `v`.
fn swap_last_two(v: &Vec<(u32, u32, u32)>) -> (r: Vec<(u32, u32, u32)>)
    ensures
        forall|a: u32, c: u32, b: u32| #[trigger] r@.contains((a, c, b)) <==> v@.contains((a, b, c)),
{
    let mut r: Vec<(u32, u32, u32)> = Vec::new();
    let mut i: usize = 0;
    while i < v.len()
        invariant
            i <= v@.len(),
            forall|k: int| 0 <= k < r@.len() ==> exists|j: int| 0 <= j < i && #[trigger] r@[k] == (v@[j].0, v@[j].2, v@[j].1),
            forall|j: int| 0 <= j < i ==> #[trigger] r@.contains((v@[j].0, v@[j].2, v@[j].1)),
        decreases v@.len() - i,
    {
        let t = v[i];
        let ghost before = r@;
        r.push((t.0, t.2, t.1));
        proof {
            assert forall|k: int| 0 <= k < r@.len() implies exists|j: int| 0 <= j < i + 1 && #[trigger] r@[k] == (v@[j].0, v@[j].2, v@[j].1) by {
                if k < before.len() {
                    assert(r@[k] == before[k]);
                } else {
                    assert(r@[k] == (v@[i as int].0, v@[i as int].2, v@[i as int].1));
                }
            }
            assert forall|j: int| 0 <= j < i + 1 implies #[trigger] r@.contains((v@[j].0, v@[j].2, v@[j].1)) by {
                if j < i {
                    assert(before.contains((v@[j].0, v@[j].2, v@[j].1)));
                    let k = choose|k: int| 0 <= k < before.len() && before[k] == (v@[j].0, v@[j].2, v@[j].1);
                    assert(r@[k] == before[k]);
                } else {
                    assert(r@[r@.len() - 1] == (v@[j].0, v@[j].2, v@[j].1));
                }
            }
        }
        i = i + 1;
    }
    proof {
        assert forall|a: u32, c: u32, b: u32| #[trigger] r@.contains((a, c, b)) <==> v@.contains((a, b, c)) by {
            if r@.contains((a, c, b)) {
                let k = choose|k: int| 0 <= k < r@.len() && r@[k] == (a, c, b);
                let j = choose|j: int| 0 <= j < v@.len() && #[trigger] r@[k] == (v@[j].0, v@[j].2, v@[j].1);
                let x = v@[j];
                assert(x == (x.0, x.1, x.2));
                assert(v@.contains((x.0, x.1, x.2)));
            }
            if v@.contains((a, b, c)) {
                let j = choose|j: int| 0 <= j < v@.len() && v@[j] == (a, b, c);
                assert(r@.contains((v@[j].0, v@[j].2, v@[j].1)));
            }
        }
    }
    r
}

/// The triples `(c, a, b)` of the triples `(a, b, c)` of `v`.
fn rotate_right(v: &Vec<(u32, u32, u32)>) -> (r: Vec<(u32, u32, u32)>)
    ensures
        forall|c: u32, a: u32, b: u32| #[trigger] r@.contains((c, a, b)) <==> v@.contains((a, b, c)),
{
    let mut r: Vec<(u32, u32, u32)> = Vec::new();
    let mut i: usize = 0;
    while i < v.len()
        invariant
            i <= v@.len(),
            forall|k: int| 0 <= k < r@.len() ==> exists|j: int| 0 <= j < i && #[trigger] r@[k] == (v@[j].2, v@[j].0, v@[j].1),
            forall|j: int| 0 <= j < i ==> #[trigger] r@.contains((v@[j].2, v@[j].0, v@[j].1)),
        decreases v@.len() - i,
    {
        let t = v[i];
        let ghost before = r@;
        r.push((t.2, t.0, t.1));
        proof {
            assert forall|k: int| 0 <= k < r@.len() implies exists|j: int| 0 <= j < i + 1 && #[trigger] r@[k] == (v@[j].2, v@[j].0, v@[j].1) by {
                if k < before.len() {
                    assert(r@[k] == before[k]);
                } else {
                    assert(r@[k] == (v@[i as int].2, v@[i as int].0, v@[i as int].1));
                }
            }
            assert forall|j: int| 0 <= j < i + 1 implies #[trigger] r@.contains((v@[j].2, v@[j].0, v@[j].1)) by {
                if j < i {
                    assert(before.contains((v@[j].2, v@[j].0, v@[j].1)));
                    let k = choose|k: int| 0 <= k < before.len() && before[k] == (v@[j].2, v@[j].0, v@[j].1);
                    assert(r@[k] == before[k]);
                } else {
                    assert(r@[r@.len() - 1] == (v@[j].2, v@[j].0, v@[j].1));
                }
            }
        }
        i = i + 1;
    }
    proof {
        assert forall|c: u32, a: u32, b: u32| #[trigger] r@.contains((c, a, b)) <==> v@.contains((a, b, c)) by {
            if r@.contains((c, a, b)) {
                let k = choose|k: int| 0 <= k < r@.len() && r@[k] == (c, a, b);
                let j = choose|j: int| 0 <= j < v@.len() && #[trigger] r@[k] == (v@[j].2, v@[j].0, v@[j].1);
                let x = v@[j];
                assert(x == (x.0, x.1, x.2));
                assert(v@.contains((x.0, x.1, x.2)));
            }
            if v@.contains((a, b, c)) {
                let j = choose|j: int| 0 <= j < v@.len() && v@[j] == (a, b, c);
                assert(r@.contains((v@[j].2, v@[j].0, v@[j].1)));
            }
        }
    }
    r
}

/// The triples `(b, a, c)` of the triples `(a, b, c)` of `v`.
fn swap_first_two(v: &Vec<(u32, u32, u32)>) -> (r: Vec<(u32, u32, u32)>)
    ensures
        forall|b: u32, a: u32, c: u32| #[trigger] r@.contains((b, a, c)) <==> v@.contains((a, b, c)),
{
    let mut r: Vec<(u32, u32, u32)> = Vec::new();
    let mut i: usize = 0;
    while i < v.len()
        invariant
            i <= v@.len(),
            forall|k: int| 0 <= k < r@.len() ==> exists|j: int| 0 <= j < i && #[trigger] r@[k] == (v@[j].1, v@[j].0, v@[j].2),
            forall|j: int| 0 <= j < i ==> #[trigger] r@.contains((v@[j].1, v@[j].0, v@[j].2)),
        decreases v@.len() - i,
    {
        let t = v[i];
        let ghost before = r@;
        r.push((t.1, t.0, t.2));
        proof {
            assert forall|k: int| 0 <= k < r@.len() implies exists|j: int| 0 <= j < i + 1 && #[trigger] r@[k] == (v@[j].1, v@[j].0, v@[j].2) by {
                if k < before.len() {
                    assert(r@[k] == before[k]);
                } else {
                    assert(r@[k] == (v@[i as int].1, v@[i as int].0, v@[i as int].2));
                }
            }
            assert forall|j: int| 0 <= j < i + 1 implies #[trigger] r@.contains((v@[j].1, v@[j].0, v@[j].2)) by {
                if j < i {
                    assert(before.contains((v@[j].1, v@[j].0, v@[j].2)));
                    let k = choose|k: int| 0 <= k < before.len() && before[k] == (v@[j].1, v@[j].0, v@[j].2);
                    assert(r@[k] == before[k]);
                } else {
                    assert(r@[r@.len() - 1] == (v@[j].1, v@[j].0, v@[j].2));
                }
            }
        }
        i = i + 1;
    }
    proof {
        assert forall|b: u32, a: u32, c: u32| #[trigger] r@.contains((b, a, c)) <==> v@.contains((a, b, c)) by {
            if r@.contains((b, a, c)) {
                let k = choose|k: int| 0 <= k < r@.len() && r@[k] == (b, a, c);
                let j = choose|j: int| 0 <= j < v@.len() && #[trigger] r@[k] == (v@[j].1, v@[j].0, v@[j].2);
                let x = v@[j];
                assert(x == (x.0, x.1, x.2));
                assert(v@.contains((x.0, x.1, x.2)));
            }
            if v@.contains((a, b, c)) {
                let j = choose|j: int| 0 <= j < v@.len() && v@[j] == (a, b, c);
                assert(r@.contains((v@[j].1, v@[j].0, v@[j].2)));
            }
        }
    }
    r
}

/// The triples `(c, d, b)` of the tuples `(_, b, c, d)` of `v` where `c` and `d` differ.
fn pick_cdb_distinct(v: &Vec<(u32, u32, u32, u32)>) -> (r: Vec<(u32, u32, u32)>)
    ensures
        forall|c: u32, d: u32, b: u32| #[trigger] r@.contains((c, d, b)) <==> c != d && exists|a: u32| v@.contains((a, b, c, d)),
{
    let mut r: Vec<(u32, u32, u32)> = Vec::new();
    let mut i: usize = 0;
    while i < v.len()
        invariant
            i <= v@.len(),
            forall|k: int| 0 <= k < r@.len() ==> exists|j: int| 0 <= j < i && #[trigger] r@[k] == (v@[j].2, v@[j].3, v@[j].1),
            forall|k: int| 0 <= k < r@.len() ==> #[trigger] r@[k].0 != r@[k].1,
            forall|j: int| 0 <= j < i && v@[j].2 != v@[j].3 ==> #[trigger] r@.contains((v@[j].2, v@[j].3, v@[j].1)),
        decreases v@.len() - i,
    {
        let t = v[i];
        let ghost before = r@;
        if t.2 != t.3 {
            r.push((t.2, t.3, t.1));
            proof {
                assert forall|k: int| 0 <= k < r@.len() implies exists|j: int| 0 <= j < i + 1 && #[trigger] r@[k] == (v@[j].2, v@[j].3, v@[j].1) by {
                    if k < before.len() {
                        assert(r@[k] == before[k]);
                    } else {
                        assert(r@[k] == (v@[i as int].2, v@[i as int].3, v@[i as int].1));
                    }
                }
                assert forall|j: int| 0 <= j < i + 1 && v@[j].2 != v@[j].3 implies #[trigger] r@.contains((v@[j].2, v@[j].3, v@[j].1)) by {
                    if j < i {
                        assert(before.contains((v@[j].2, v@[j].3, v@[j].1)));
                        let k = choose|k: int| 0 <= k < before.len() && before[k] == (v@[j].2, v@[j].3, v@[j].1);
                        assert(r@[k] == before[k]);
                    } else {
                        assert(r@[r@.len() - 1] == (v@[j].2, v@[j].3, v@[j].1));
                    }
                }
            }
        } else {
            proof {
                assert forall|k: int| 0 <= k < r@.len() implies exists|j: int| 0 <= j < i + 1 && #[trigger] r@[k] == (v@[j].2, v@[j].3, v@[j].1) by {
                    assert(r@[k] == before[k]);
                }
            }
        }
        i = i + 1;
    }
    proof {
        assert forall|c: u32, d: u32, b: u32| #[trigger] r@.contains((c, d, b)) <==> c != d && exists|a: u32| v@.contains((a, b, c, d)) by {
            if r@.contains((c, d, b)) {
                let k = choose|k: int| 0 <= k < r@.len() && r@[k] == (c, d, b);
                assert(r@[k].0 != r@[k].1);
                let j = choose|j: int| 0 <= j < v@.len() && #[trigger] r@[k] == (v@[j].2, v@[j].3, v@[j].1);
                let x = v@[j];
                assert(x == (x.0, x.1, x.2, x.3));
                assert(v@.contains((x.0, x.1, x.2, x.3)));
            }
            if c != d && exists|a: u32| v@.contains((a, b, c, d)) {
                let (a) = choose|a: u32| v@.contains((a, b, c, d));
                let j = choose|j: int| 0 <= j < v@.len() && v@[j] == (a, b, c, d);
                assert(r@.contains((v@[j].2, v@[j].3, v@[j].1)));
            }
        }
    }
    r
}

/// The triples `(b, d, c)` of the tuples `(_, b, c, d)` of `v`.
fn pick_bdc(v: &Vec<(u32, u32, u32, u32)>) -> (r: Vec<(u32, u32, u32)>)
    ensures
        forall|b: u32, d: u32, c: u32| #[trigger] r@.contains((b, d, c)) <==> exists|a: u32| v@.contains((a, b, c, d)),
{
    let mut r: Vec<(u32, u32, u32)> = Vec::new();
    let mut i: usize = 0;
    while i < v.len()
        invariant
            i <= v@.len(),
            forall|k: int| 0 <= k < r@.len() ==> exists|j: int| 0 <= j < i && #[trigger] r@[k] == (v@[j].1, v@[j].3, v@[j].2),
            forall|j: int| 0 <= j < i ==> #[trigger] r@.contains((v@[j].1, v@[j].3, v@[j].2)),
        decreases v@.len() - i,
    {
        let t = v[i];
        let ghost before = r@;
        r.push((t.1, t.3, t.2));
        proof {
            assert forall|k: int| 0 <= k < r@.len() implies exists|j: int| 0 <= j < i + 1 && #[trigger] r@[k] == (v@[j].1, v@[j].3, v@[j].2) by {
                if k < before.len() {
                    assert(r@[k] == before[k]);
                } else {
                    assert(r@[k] == (v@[i as int].1, v@[i as int].3, v@[i as int].2));
                }
            }
            assert forall|j: int| 0 <= j < i + 1 implies #[trigger] r@.contains((v@[j].1, v@[j].3, v@[j].2)) by {
                if j < i {
                    assert(before.contains((v@[j].1, v@[j].3, v@[j].2)));
                    let k = choose|k: int| 0 <= k < before.len() && before[k] == (v@[j].1, v@[j].3, v@[j].2);
                    assert(r@[k] == before[k]);
                } else {
                    assert(r@[r@.len() - 1] == (v@[j].1, v@[j].3, v@[j].2));
                }
            }
        }
        i = i + 1;
    }
    proof {
        assert forall|b: u32, d: u32, c: u32| #[trigger] r@.contains((b, d, c)) <==> exists|a: u32| v@.contains((a, b, c, d)) by {
            if r@.contains((b, d, c)) {
                let k = choose|k: int| 0 <= k < r@.len() && r@[k] == (b, d, c);
                let j = choose|j: int| 0 <= j < v@.len() && #[trigger] r@[k] == (v@[j].1, v@[j].3, v@[j].2);
                let x = v@[j];
                assert(x == (x.0, x.1, x.2, x.3));
                assert(v@.contains((x.0, x.1, x.2, x.3)));
            }
            if exists|a: u32| v@.contains((a, b, c, d)) {
                let (a) = choose|a: u32| v@.contains((a, b, c, d));
                let j = choose|j: int| 0 <= j < v@.len() && v@[j] == (a, b, c, d);
                assert(r@.contains((v@[j].1, v@[j].3, v@[j].2)));
            }
        }
    }
    r
}

/// The triples `(d, c, b)` of the tuples `(_, b, c, d)` of `v`.
fn pick_dcb(v: &Vec<(u32, u32, u32, u32)>) -> (r: Vec<(u32, u32, u32)>)
    ensures
        forall|d: u32, c: u32, b: u32| #[trigger] r@.contains((d, c, b)) <==> exists|a: u32| v@.contains((a, b, c, d)),
{
    let mut r: Vec<(u32, u32, u32)> = Vec::new();
    let mut i: usize = 0;
    while i < v.len()
        invariant
            i <= v@.len(),
            forall|k: int| 0 <= k < r@.len() ==> exists|j: int| 0 <= j < i && #[trigger] r@[k] == (v@[j].3, v@[j].2, v@[j].1),
            forall|j: int| 0 <= j < i ==> #[trigger] r@.contains((v@[j].3, v@[j].2, v@[j].1)),
        decreases v@.len() - i,
    {
        let t = v[i];
        let ghost before = r@;
        r.push((t.3, t.2, t.1));
        proof {
            assert forall|k: int| 0 <= k < r@.len() implies exists|j: int| 0 <= j < i + 1 && #[trigger] r@[k] == (v@[j].3, v@[j].2, v@[j].1) by {
                if k < before.len() {
                    assert(r@[k] == before[k]);
                } else {
                    assert(r@[k] == (v@[i as int].3, v@[i as int].2, v@[i as int].1));
                }
            }
            assert forall|j: int| 0 <= j < i + 1 implies #[trigger] r@.contains((v@[j].3, v@[j].2, v@[j].1)) by {
                if j < i {
                    assert(before.contains((v@[j].3, v@[j].2, v@[j].1)));
                    let k = choose|k: int| 0 <= k < before.len() && before[k] == (v@[j].3, v@[j].2, v@[j].1);
                    assert(r@[k] == before[k]);
                } else {
                    assert(r@[r@.len() - 1] == (v@[j].3, v@[j].2, v@[j].1));
                }
            }
        }
        i = i + 1;
    }
    proof {
        assert forall|d: u32, c: u32, b: u32| #[trigger] r@.contains((d, c, b)) <==> exists|a: u32| v@.contains((a, b, c, d)) by {
            if r@.contains((d, c, b)) {
                let k = choose|k: int| 0 <= k < r@.len() && r@[k] == (d, c, b);
                let j = choose|j: int| 0 <= j < v@.len() && #[trigger] r@[k] == (v@[j].3, v@[j].2, v@[j].1);
                let x = v@[j];
                assert(x == (x.0, x.1, x.2, x.3));
                assert(v@.contains((x.0, x.1, x.2, x.3)));
            }
            if exists|a: u32| v@.contains((a, b, c, d)) {
                let (a) = choose|a: u32| v@.contains((a, b, c, d));
                let j = choose|j: int| 0 <= j < v@.len() && v@[j] == (a, b, c, d);
                assert(r@.contains((v@[j].3, v@[j].2, v@[j].1)));
            }
        }
    }
    r
}

/// The pairs `(c, b)` of the triples `(_, b, c)` of `v`.
fn pick_cb(v: &Vec<(u32, u32, u32)>) -> (r: Vec<(u32, u32)>)
    ensures
        forall|c: u32, b: u32| #[trigger] r@.contains((c, b)) <==> exists|a: u32| v@.contains((a, b, c)),
{
    let mut r: Vec<(u32, u32)> = Vec::new();
    let mut i: usize = 0;
    while i < v.len()
        invariant
            i <= v@.len(),
            forall|k: int| 0 <= k < r@.len() ==> exists|j: int| 0 <= j < i && #[trigger] r@[k] == (v@[j].2, v@[j].1),
            forall|j: int| 0 <= j < i ==> #[trigger] r@.contains((v@[j].2, v@[j].1)),
        decreases v@.len() - i,
    {
        let t = v[i];
        let ghost before = r@;
        r.push((t.2, t.1));
        proof {
            assert forall|k: int| 0 <= k < r@.len() implies exists|j: int| 0 <= j < i + 1 && #[trigger] r@[k] == (v@[j].2, v@[j].1) by {
                if k < before.len() {
                    assert(r@[k] == before[k]);
                } else {
                    assert(r@[k] == (v@[i as int].2, v@[i as int].1));
                }
            }
            assert forall|j: int| 0 <= j < i + 1 implies #[trigger] r@.contains((v@[j].2, v@[j].1)) by {
                if j < i {
                    assert(before.contains((v@[j].2, v@[j].1)));
                    let k = choose|k: int| 0 <= k < before.len() && before[k] == (v@[j].2, v@[j].1);
                    assert(r@[k] == before[k]);
                } else {
                    assert(r@[r@.len() - 1] == (v@[j].2, v@[j].1));
                }
            }
        }
        i = i + 1;
    }
    proof {
        assert forall|c: u32, b: u32| #[trigger] r@.contains((c, b)) <==> exists|a: u32| v@.contains((a, b, c)) by {
            if r@.contains((c, b)) {
                let k = choose|k: int| 0 <= k < r@.len() && r@[k] == (c, b);
                let j = choose|j: int| 0 <= j < v@.len() && #[trigger] r@[k] == (v@[j].2, v@[j].1);
                let x = v@[j];
                assert(x == (x.0, x.1, x.2));
                assert(v@.contains((x.0, x.1, x.2)));
            }
            if exists|a: u32| v@.contains((a, b, c)) {
                let (a) = choose|a: u32| v@.contains((a, b, c));
                let j = choose|j: int| 0 <= j < v@.len() && v@[j] == (a, b, c);
                assert(r@.contains((v@[j].2, v@[j].1)));
            }
        }
    }
    r
}

/// The triples `(a, b, c)` of `v` where `a` and `b` differ.
fn keep_distinct_first_two(v: &Vec<(u32, u32, u32)>) -> (r: Vec<(u32, u32, u32)>)
    ensures
        forall|a: u32, b: u32, c: u32| #[trigger] r@.contains((a, b, c)) <==> a != b && v@.contains((a, b, c)),
{
    let mut r: Vec<(u32, u32, u32)> = Vec::new();
    let mut i: usize = 0;
    while i < v.len()
        invariant
            i <= v@.len(),
            forall|k: int| 0 <= k < r@.len() ==> exists|j: int| 0 <= j < i && #[trigger] r@[k] == (v@[j].0, v@[j].1, v@[j].2),
            forall|k: int| 0 <= k < r@.len() ==> #[trigger] r@[k].0 != r@[k].1,
            forall|j: int| 0 <= j < i && v@[j].0 != v@[j].1 ==> #[trigger] r@.contains((v@[j].0, v@[j].1, v@[j].2)),
        decreases v@.len() - i,
    {
        let t = v[i];
        let ghost before = r@;
        if t.0 != t.1 {
            r.push((t.0, t.1, t.2));
            proof {
                assert forall|k: int| 0 <= k < r@.len() implies exists|j: int| 0 <= j < i + 1 && #[trigger] r@[k] == (v@[j].0, v@[j].1, v@[j].2) by {
                    if k < before.len() {
                        assert(r@[k] == before[k]);
                    } else {
                        assert(r@[k] == (v@[i as int].0, v@[i as int].1, v@[i as int].2));
                    }
                }
                assert forall|j: int| 0 <= j < i + 1 && v@[j].0 != v@[j].1 implies #[trigger] r@.contains((v@[j].0, v@[j].1, v@[j].2)) by {
                    if j < i {
                        assert(before.contains((v@[j].0, v@[j].1, v@[j].2)));
                        let k = choose|k: int| 0 <= k < before.len() && before[k] == (v@[j].0, v@[j].1, v@[j].2);
                        assert(r@[k] == before[k]);
                    } else {
                        assert(r@[r@.len() - 1] == (v@[j].0, v@[j].1, v@[j].2));
                    }
                }
            }
        } else {
            proof {
                assert forall|k: int| 0 <= k < r@.len() implies exists|j: int| 0 <= j < i + 1 && #[trigger] r@[k] == (v@[j].0, v@[j].1, v@[j].2) by {
                    assert(r@[k] == before[k]);
                }
            }
        }
        i = i + 1;
    }
    proof {
        assert forall|a: u32, b: u32, c: u32| #[trigger] r@.contains((a, b, c)) <==> a != b && v@.contains((a, b, c)) by {
            if r@.contains((a, b, c)) {
                let k = choose|k: int| 0 <= k < r@.len() && r@[k] == (a, b, c);
                assert(r@[k].0 != r@[k].1);
                let j = choose|j: int| 0 <= j < v@.len() && #[trigger] r@[k] == (v@[j].0, v@[j].1, v@[j].2);
                let x = v@[j];
                assert(x == (x.0, x.1, x.2));
                assert(v@.contains((x.0, x.1, x.2)));
            }
            if a != b && v@.contains((a, b, c)) {
                let j = choose|j: int| 0 <= j < v@.len() && v@[j] == (a, b, c);
                assert(r@.contains((v@[j].0, v@[j].1, v@[j].2)));
            }
        }
    }
    r
}

/// The triples of `v`, sorted, each once.
fn sorted_triples(v: Vec<(u32, u32, u32)>) -> (r: Vec<(u32, u32, u32)>)
    ensures
        sorted3(r@),
        forall|t: (u32, u32, u32)| #[trigger] r@.contains(t) <==> v@.contains(t),
{
    let ghost raw = v@;
    let r = relation_of_triples(v);
    proof {
        assert forall|t: (u32, u32, u32)| #[trigger] r@.contains(t) <==> raw.contains(t) by {
            assert(r@.to_set().contains(t) == r@.contains(t));
            assert(raw.to_set().contains(t) == raw.contains(t));
        }
    }
    r
}

/// The triples of `a` and of `b`, sorted, each once.
fn union_triples(a: &Vec<(u32, u32, u32)>, b: &Vec<(u32, u32, u32)>) -> (r: Vec<(u32, u32, u32)>)
    ensures
        sorted3(r@),
        forall|t: (u32, u32, u32)| #[trigger] r@.contains(t) <==> a@.contains(t) || b@.contains(t),
{
    let mut all: Vec<(u32, u32, u32)> = Vec::new();
    let mut i: usize = 0;
    while i < a.len()
        invariant
            i <= a@.len(),
            all@ == a@.take(i as int),
        decreases a@.len() - i,
    {
        all.push(a[i]);
        proof {
            assert(a@.take(i + 1) =~= a@.take(i as int).push(a@[i as int]));
        }
        i = i + 1;
    }
    let mut j: usize = 0;
    while j < b.len()
        invariant
            j <= b@.len(),
            all@ == a@ + b@.take(j as int),
        decreases b@.len() - j,
    {
        all.push(b[j]);
        proof {
            assert(a@ + b@.take(j + 1) =~= (a@ + b@.take(j as int)).push(b@[j as int]));
        }
        j = j + 1;
    }
    proof {
        assert(a@.take(a@.len() as int) =~= a@);
        assert(b@.take(b@.len() as int) =~= b@);
        assert forall|t: (u32, u32, u32)| all@.contains(t) <==> a@.contains(t) || b@.contains(t) by {
            if all@.contains(t) {
                let k = choose|k: int| 0 <= k < all@.len() && all@[k] == t;
                if k < a@.len() {
                    assert(a@[k] == t);
                } else {
                    assert(b@[k - a@.len()] == t);
                }
            }
            if a@.contains(t) {
                let k = choose|k: int| 0 <= k < a@.len() && a@[k] == t;
                assert(all@[k] == t);
            }
            if b@.contains(t) {
                let k = choose|k: int| 0 <= k < b@.len() && b@[k] == t;
                assert(all@[a@.len() + k] == t);
            }
        }
    }
    sorted_triples(all)
}

/// Whether `s` holds each triple that `rule` derives from it.
pub open spec fn closed_under(rule: spec_fn(Set<(u32, u32, u32)>, (u32, u32, u32)) -> bool, s: Set<(u32, u32, u32)>) -> bool {
    forall|x: (u32, u32, u32)| #[trigger] rule(s, x) ==> s.contains(x)
}

/// Whether `s` is the least set closed under `rule`: it is closed, and every closed set holds
/// it.
pub open spec fn least_closed(rule: spec_fn(Set<(u32, u32, u32)>, (u32, u32, u32)) -> bool, s: Set<(u32, u32, u32)>) -> bool {
    &&& closed_under(rule, s)
    &&& forall|t: Set<(u32, u32, u32)>| #[trigger] closed_under(rule, t) ==> s.subset_of(t)
}

/// A rule has at most one least closed set.
pub(crate) proof fn lemma_least_closed_unique(
    rule: spec_fn(Set<(u32, u32, u32)>, (u32, u32, u32)) -> bool,
    s: Set<(u32, u32, u32)>,
    t: Set<(u32, u32, u32)>,
)
    requires
        least_closed(rule, s),
        least_closed(rule, t),
    ensures
        s == t,
{
    assert(closed_under(rule, t));
    assert(closed_under(rule, s));
    assert(s.subset_of(t));
    assert(t.subset_of(s));
    assert(s =~= t);
}

/// Whether what `rule` derives from a set, it derives from each larger set too.
pub open spec fn monotone(rule: spec_fn(Set<(u32, u32, u32)>, (u32, u32, u32)) -> bool) -> bool {
    forall|s: Set<(u32, u32, u32)>, t: Set<(u32, u32, u32)>, x: (u32, u32, u32)|
        #![trigger rule(s, x), rule(t, x)]
        s.subset_of(t) && rule(s, x) ==> rule(t, x)
}

/// One round of the iteration from the empty set, which replaces a set by what `rule`
/// derives from it: the sets only grow, and stay within every closed set.
proof fn lemma_round(rule: spec_fn(Set<(u32, u32, u32)>, (u32, u32, u32)) -> bool, cur: Set<(u32, u32, u32)>, next: Set<(u32, u32, u32)>)
    requires
        monotone(rule),
        forall|x: (u32, u32, u32)| #[trigger] next.contains(x) <==> rule(cur, x),
        forall|x: (u32, u32, u32)| #[trigger] cur.contains(x) ==> rule(cur, x),
        forall|t: Set<(u32, u32, u32)>| #[trigger] closed_under(rule, t) ==> cur.subset_of(t),
    ensures
        cur.subset_of(next),
        forall|x: (u32, u32, u32)| #[trigger] next.contains(x) ==> rule(next, x),
        forall|t: Set<(u32, u32, u32)>| #[trigger] closed_under(rule, t) ==> next.subset_of(t),
{
    assert forall|x: (u32, u32, u32)| #[trigger] next.contains(x) implies rule(next, x) by {
        assert(rule(cur, x));
    }
    assert forall|t: Set<(u32, u32, u32)>| #[trigger] closed_under(rule, t) implies next.subset_of(t) by {
        assert forall|x: (u32, u32, u32)| next.contains(x) implies t.contains(x) by {
            assert(rule(cur, x));
            assert(rule(t, x));
        }
    }
}

/// The iteration stops at the least closed set.
proof fn lemma_round_done(rule: spec_fn(Set<(u32, u32, u32)>, (u32, u32, u32)) -> bool, cur: Set<(u32, u32, u32)>)
    requires
        forall|x: (u32, u32, u32)| #[trigger] cur.contains(x) <==> rule(cur, x),
        forall|t: Set<(u32, u32, u32)>| #[trigger] closed_under(rule, t) ==> cur.subset_of(t),
    ensures
        least_closed(rule, cur),
{
    assert forall|x: (u32, u32, u32)| #[trigger] rule(cur, x) implies cur.contains(x) by {}
}

/// Two sorted lists where the first holds no triple that the second lacks, and that are
/// equally long, hold the same triples.
proof fn lemma_same_length_same_triples(a: Seq<(u32, u32, u32)>, b: Seq<(u32, u32, u32)>)
    requires
        sorted3(a),
        sorted3(b),
        a.to_set().subset_of(b.to_set()),
    ensures
        a.len() <= b.len(),
        a.len() == b.len() ==> a.to_set() == b.to_set(),
{
    lemma_sorted_triples_distinct(a);
    lemma_sorted_triples_distinct(b);
    a.unique_seq_to_set();
    b.unique_seq_to_set();
    vstd::set_lib::lemma_len_subset(a.to_set(), b.to_set());
    if a.len() == b.len() {
        vstd::set_lib::lemma_subset_equality(a.to_set(), b.to_set());
    }
}

/// The triples of `a` whose first two components make a pair of `b`, sorted.
fn keyed_in(a: &Vec<(u32, u32, u32)>, b: &Vec<(u32, u32)>) -> (r: Vec<(u32, u32, u32)>)
    requires
        sorted3(a@),
        sorted2(b@),
    ensures
        sorted3(r@),
        forall|t: (u32, u32, u32)| #[trigger] r@.contains(t) <==> a@.contains(t) && b@.contains((t.0, t.1)),
{
    let k = triples_keyed_in(a, b);
    proof {
        assert forall|t: (u32, u32, u32)| #[trigger] k@.contains(t) <==> a@.contains(t) && b@.contains((t.0, t.1)) by {
            assert(k@.to_set().contains(t) == k@.contains(t));
        }
    }
    sorted_triples(k)
}

/// The triples of `a` whose first two components make no pair of `b`, sorted.
fn keyed_not_in(a: &Vec<(u32, u32, u32)>, b: &Vec<(u32, u32)>) -> (r: Vec<(u32, u32, u32)>)
    requires
        sorted3(a@),
        sorted2(b@),
    ensures
        sorted3(r@),
        forall|t: (u32, u32, u32)| #[trigger] r@.contains(t) <==> a@.contains(t) && !b@.contains((t.0, t.1)),
{
    let k = triples_keyed_not_in(a, b);
    proof {
        assert forall|t: (u32, u32, u32)| #[trigger] k@.contains(t) <==> a@.contains(t) && !b@.contains((t.0, t.1)) by {
            assert(k@.to_set().contains(t) == k@.contains(t));
        }
    }
    sorted_triples(k)
}

/// The triples `(o1, o3, p)` with `o1` and `o3` distinct, for each `(o1, o2, p)` of `a` and
/// `(o2, o3, p)` of `b`.
fn compose(a: &Vec<(u32, u32, u32)>, b: &Vec<(u32, u32, u32)>) -> (r: Vec<(u32, u32, u32)>)
    ensures
        sorted3(r@),
        forall|o1: u32, o3: u32, p: u32| #[trigger] r@.contains((o1, o3, p)) <==> o1 != o3 && exists|o2: u32|
            #[trigger] a@.contains((o1, o2, p)) && b@.contains((o2, o3, p)),
{
    let x = sorted_triples(rotate_left(a));
    let y = sorted_triples(swap_last_two(b));
    let j = join_on_first_two(&x, &y);
    let r = sorted_triples(pick_cdb_distinct(&j));
    proof {
        assert forall|o1: u32, o3: u32, p: u32| #[trigger] r@.contains((o1, o3, p)) <==> o1 != o3 && exists|o2: u32|
            #[trigger] a@.contains((o1, o2, p)) && b@.contains((o2, o3, p)) by {
            if r@.contains((o1, o3, p)) {
                let o2 = choose|o2: u32| j@.contains((o2, p, o1, o3));
                assert(j@.to_set().contains((o2, p, o1, o3)));
                assert(x@.contains((o2, p, o1)));
                assert(y@.contains((o2, p, o3)));
                assert(a@.contains((o1, o2, p)) && b@.contains((o2, o3, p)));
            }
            if o1 != o3 && exists|o2: u32| a@.contains((o1, o2, p)) && b@.contains((o2, o3, p)) {
                let o2 = choose|o2: u32| a@.contains((o1, o2, p)) && b@.contains((o2, o3, p));
                assert(x@.contains((o2, p, o1)));
                assert(y@.contains((o2, p, o3)));
                assert(j@.to_set().contains((o2, p, o1, o3)));
                assert(j@.contains((o2, p, o1, o3)));
            }
        }
    }
    r
}

/// The triples `(o1, o2, q)` for each `(o1, o2, p)` of `s` and each edge `(p, q)` of
/// `cfg_edge`, where both `o1` and `o2` are live on entry to `q`.
fn follow_edges(s: &Vec<(u32, u32, u32)>, cfg_edge: &Vec<(u32, u32)>, live: &Vec<(u32, u32)>) -> (r: Vec<(u32, u32, u32)>)
    requires
        sorted2(cfg_edge@),
        sorted2(live@),
    ensures
        sorted3(r@),
        forall|o1: u32, o2: u32, q: u32| #[trigger] r@.contains((o1, o2, q)) <==> live@.contains((o1, q)) && live@.contains((o2, q))
            && exists|p: u32| #[trigger] s@.contains((o1, o2, p)) && cfg_edge@.contains((p, q)),
{
    let c = sorted_triples(rotate_right(s));
    let jc = join_triples_with_pairs(&c, cfg_edge);
    let k1 = sorted_triples(pick_bdc(&jc));
    let k2 = keyed_in(&k1, live);
    let k3 = sorted_triples(swap_first_two(&rotate_left(&k2)));
    let k4 = keyed_in(&k3, live);
    let r = sorted_triples(rotate_right(&k4));
    proof {
        assert forall|o1: u32, o2: u32, q: u32| #[trigger] r@.contains((o1, o2, q)) <==> live@.contains((o1, q)) && live@.contains((o2, q))
            && exists|p: u32| #[trigger] s@.contains((o1, o2, p)) && cfg_edge@.contains((p, q)) by {
            if r@.contains((o1, o2, q)) {
                assert(k4@.contains((o2, q, o1)));
                assert(k3@.contains((o2, q, o1)));
                assert(k2@.contains((o1, q, o2)));
                assert(k1@.contains((o1, q, o2)));
                let p = choose|p: u32| jc@.contains((p, o1, o2, q));
                assert(jc@.to_set().contains((p, o1, o2, q)));
                assert(c@.contains((p, o1, o2)));
                assert(s@.contains((o1, o2, p)) && cfg_edge@.contains((p, q)));
            }
            if live@.contains((o1, q)) && live@.contains((o2, q)) && exists|p: u32| s@.contains((o1, o2, p)) && cfg_edge@.contains((p, q)) {
                let p = choose|p: u32| s@.contains((o1, o2, p)) && cfg_edge@.contains((p, q));
                assert(c@.contains((p, o1, o2)));
                assert(jc@.to_set().contains((p, o1, o2, q)));
                assert(jc@.contains((p, o1, o2, q)));
                assert(k1@.contains((o1, q, o2)));
                assert(k2@.contains((o1, q, o2)));
                assert(k3@.contains((o2, q, o1)));
                assert(k4@.contains((o2, q, o1)));
            }
        }
    }
    r
}

/// Whether one rule of `subset` derives `subset(origin1, origin2, point)` from the triples
/// of `s`, the two origins being distinct:
///
/// ```text
/// subset(Origin1, Origin2, Point) :- subset_base(Origin1, Origin2, Point).
/// subset(Origin1, Origin3, Point) :-
///   subset(Origin1, Origin2, Point),
///   subset(Origin2, Origin3, Point).
/// subset(Origin1, Origin2, Point2) :-
///   subset(Origin1, Origin2, Point1),
///   cfg_edge(Point1, Point2),
///   origin_live_on_entry(Origin1, Point2),
///   origin_live_on_entry(Origin2, Point2).
/// ```
pub open spec fn subset_rule(
    subset_base: Set<(u32, u32, u32)>,
    cfg_edge: Set<(u32, u32)>,
    origin_live_on_entry: Set<(u32, u32)>,
    s: Set<(u32, u32, u32)>,
    x: (u32, u32, u32),
) -> bool {
    &&& x.0 != x.1
    &&& {
        ||| subset_base.contains(x)
        ||| exists|o: u32| #[trigger] s.contains((x.0, o, x.2)) && s.contains((o, x.1, x.2))
        ||| {
            &&& origin_live_on_entry.contains((x.0, x.2))
            &&& origin_live_on_entry.contains((x.1, x.2))
            &&& exists|p: u32| #[trigger] s.contains((x.0, x.1, p)) && cfg_edge.contains((p, x.2))
        }
    }
}

/// The rules of `subset`, as a function of the relation they read.
pub open spec fn subset_rules(
    subset_base: Set<(u32, u32, u32)>,
    cfg_edge: Set<(u32, u32)>,
    origin_live_on_entry: Set<(u32, u32)>,
) -> spec_fn(Set<(u32, u32, u32)>, (u32, u32, u32)) -> bool {
    |s: Set<(u32, u32, u32)>, x: (u32, u32, u32)| subset_rule(subset_base, cfg_edge, origin_live_on_entry, s, x)
}

proof fn lemma_subset_rules_monotone(subset_base: Set<(u32, u32, u32)>, cfg_edge: Set<(u32, u32)>, origin_live_on_entry: Set<(u32, u32)>)
    ensures
        monotone(subset_rules(subset_base, cfg_edge, origin_live_on_entry)),
{
    let rule = subset_rules(subset_base, cfg_edge, origin_live_on_entry);
    assert forall|s: Set<(u32, u32, u32)>, t: Set<(u32, u32, u32)>, x: (u32, u32, u32)|
        #![trigger rule(s, x), rule(t, x)]
        s.subset_of(t) && rule(s, x) implies rule(t, x) by {
        if exists|o: u32| s.contains((x.0, o, x.2)) && s.contains((o, x.1, x.2)) {
            let o = choose|o: u32| s.contains((x.0, o, x.2)) && s.contains((o, x.1, x.2));
            assert(t.contains((x.0, o, x.2)) && t.contains((o, x.1, x.2)));
        }
        if exists|p: u32| s.contains((x.0, x.1, p)) && cfg_edge.contains((p, x.2)) {
            let p = choose|p: u32| s.contains((x.0, x.1, p)) && cfg_edge.contains((p, x.2));
            assert(t.contains((x.0, x.1, p)));
        }
    }
}

/// What the rules of `subset` derive from `s`.
fn subset_round(s: &Vec<(u32, u32, u32)>, subset_base: &Vec<(u32, u32, u32)>, cfg_edge: &Vec<(u32, u32)>, live: &Vec<(u32, u32)>) -> (r: Vec<(u32, u32, u32)>)
    requires
        sorted2(cfg_edge@),
        sorted2(live@),
    ensures
        sorted3(r@),
        forall|x: (u32, u32, u32)| #[trigger] r@.contains(x) <==> subset_rule(subset_base@.to_set(), cfg_edge@.to_set(), live@.to_set(), s@.to_set(), x),
{
    let transitive = compose(s, s);
    let moved = follow_edges(s, cfg_edge, live);
    let derived = union_triples(&transitive, &moved);
    let all = union_triples(subset_base, &derived);
    let r = sorted_triples(keep_distinct_first_two(&all));
    proof {
        let ss = s@.to_set();
        assert forall|x: (u32, u32, u32)| #[trigger] r@.contains(x) <==> subset_rule(subset_base@.to_set(), cfg_edge@.to_set(), live@.to_set(), ss, x) by {
            let (a, b, c) = x;
            assert(x == (a, b, c));
            assert(subset_base@.to_set().contains(x) == subset_base@.contains(x));
            assert(live@.to_set().contains((a, c)) == live@.contains((a, c)));
            assert(live@.to_set().contains((b, c)) == live@.contains((b, c)));
            if exists|o: u32| ss.contains((a, o, c)) && ss.contains((o, b, c)) {
                let o = choose|o: u32| ss.contains((a, o, c)) && ss.contains((o, b, c));
                assert(s@.contains((a, o, c)) && s@.contains((o, b, c)));
            }
            if exists|o: u32| s@.contains((a, o, c)) && s@.contains((o, b, c)) {
                let o = choose|o: u32| s@.contains((a, o, c)) && s@.contains((o, b, c));
                assert(ss.contains((a, o, c)) && ss.contains((o, b, c)));
            }
            if exists|p: u32| ss.contains((a, b, p)) && cfg_edge@.to_set().contains((p, c)) {
                let p = choose|p: u32| ss.contains((a, b, p)) && cfg_edge@.to_set().contains((p, c));
                assert(s@.contains((a, b, p)) && cfg_edge@.contains((p, c)));
            }
            if exists|p: u32| s@.contains((a, b, p)) && cfg_edge@.contains((p, c)) {
                let p = choose|p: u32| s@.contains((a, b, p)) && cfg_edge@.contains((p, c));
                assert(ss.contains((a, b, p)) && cfg_edge@.to_set().contains((p, c)));
            }
            assert(r@.contains((a, b, c)) <==> a != b && all@.contains((a, b, c)));
        }
    }
    r
}

/// The least relation closed under the rules of `subset` (see [`subset_rule`]), computed by
/// applying them from the empty relation until nothing new comes.
#[verifier::rlimit(30)]
fn least_subset(subset_base: &Vec<(u32, u32, u32)>, cfg_edge: &Vec<(u32, u32)>, live: &Vec<(u32, u32)>) -> (r: Vec<(u32, u32, u32)>)
    requires
        sorted2(cfg_edge@),
        sorted2(live@),
    ensures
        sorted3(r@),
        least_closed(subset_rules(subset_base@.to_set(), cfg_edge@.to_set(), live@.to_set()), r@.to_set()),
{
    let ghost rule = subset_rules(subset_base@.to_set(), cfg_edge@.to_set(), live@.to_set());
    proof {
        lemma_subset_rules_monotone(subset_base@.to_set(), cfg_edge@.to_set(), live@.to_set());
    }
    let mut current: Vec<(u32, u32, u32)> = Vec::new();
    proof {
        assert forall|t: Set<(u32, u32, u32)>| #[trigger] closed_under(rule, t) implies current@.to_set().subset_of(t) by {
            assert forall|x: (u32, u32, u32)| current@.to_set().contains(x) implies t.contains(x) by {
                assert(current@.contains(x));
            }
        }
    }
    loop
        invariant
            sorted2(cfg_edge@),
            sorted2(live@),
            sorted3(current@),
            rule == subset_rules(subset_base@.to_set(), cfg_edge@.to_set(), live@.to_set()),
            monotone(rule),
            forall|x: (u32, u32, u32)| #[trigger] current@.to_set().contains(x) ==> rule(current@.to_set(), x),
            forall|t: Set<(u32, u32, u32)>| #[trigger] closed_under(rule, t) ==> current@.to_set().subset_of(t),
        ensures
            sorted3(current@),
            least_closed(rule, current@.to_set()),
        decreases 0x1_0000_0000_0000_0000_0000_0000 - current@.len(),
    {
        let next = subset_round(&current, subset_base, cfg_edge, live);
        let ghost cur = current@.to_set();
        let ghost nxt = next@.to_set();
        proof {
            assert forall|x: (u32, u32, u32)| #[trigger] nxt.contains(x) <==> rule(cur, x) by {
                assert(nxt.contains(x) == next@.contains(x));
            }
            lemma_round(rule, cur, nxt);
            lemma_same_length_same_triples(current@, next@);
            lemma_sorted_triples_len(next@);
        }
        if next.len() == current.len() {
            proof {
                assert(cur == nxt);
                lemma_round_done(rule, cur);
            }
            break;
        }
        current = next;
    }
    current
}

/// The triples `(o2, l, p)` for each `(o1, l, p)` of `c` and `(o1, o2, p)` of `s`.
fn flow_into(c: &Vec<(u32, u32, u32)>, s: &Vec<(u32, u32, u32)>) -> (r: Vec<(u32, u32, u32)>)
    ensures
        sorted3(r@),
        forall|o2: u32, l: u32, p: u32| #[trigger] r@.contains((o2, l, p)) <==> exists|o1: u32|
            #[trigger] c@.contains((o1, l, p)) && s@.contains((o1, o2, p)),
{
    let x = sorted_triples(swap_last_two(c));
    let y = sorted_triples(swap_last_two(s));
    let j = join_on_first_two(&x, &y);
    let r = sorted_triples(pick_dcb(&j));
    proof {
        assert forall|o2: u32, l: u32, p: u32| #[trigger] r@.contains((o2, l, p)) <==> exists|o1: u32|
            #[trigger] c@.contains((o1, l, p)) && s@.contains((o1, o2, p)) by {
            if r@.contains((o2, l, p)) {
                let o1 = choose|o1: u32| j@.contains((o1, p, l, o2));
                assert(j@.to_set().contains((o1, p, l, o2)));
                assert(x@.contains((o1, p, l)));
                assert(y@.contains((o1, p, o2)));
                assert(c@.contains((o1, l, p)) && s@.contains((o1, o2, p)));
            }
            if exists|o1: u32| c@.contains((o1, l, p)) && s@.contains((o1, o2, p)) {
                let o1 = choose|o1: u32| c@.contains((o1, l, p)) && s@.contains((o1, o2, p));
                assert(x@.contains((o1, p, l)));
                assert(y@.contains((o1, p, o2)));
                assert(j@.to_set().contains((o1, p, l, o2)));
                assert(j@.contains((o1, p, l, o2)));
            }
        }
    }
    r
}

/// The triples `(o, l, q)` for each `(o, l, p)` of `c` whose loan `kill` does not pair with
/// `p`, and each edge `(p, q)` of `cfg_edge`, where `o` is live on entry to `q`.
fn follow_edges_unless(c: &Vec<(u32, u32, u32)>, kill: &Vec<(u32, u32)>, cfg_edge: &Vec<(u32, u32)>, live: &Vec<(u32, u32)>) -> (r: Vec<(u32, u32, u32)>)
    requires
        sorted2(kill@),
        sorted2(cfg_edge@),
        sorted2(live@),
    ensures
        sorted3(r@),
        forall|o: u32, l: u32, q: u32| #[trigger] r@.contains((o, l, q)) <==> live@.contains((o, q)) && exists|p: u32|
            #[trigger] c@.contains((o, l, p)) && !kill@.contains((l, p)) && cfg_edge@.contains((p, q)),
{
    let a = sorted_triples(rotate_left(c));
    let b = keyed_not_in(&a, kill);
    let d = sorted_triples(rotate_left(&b));
    let j = join_triples_with_pairs(&d, cfg_edge);
    let k = sorted_triples(pick_bdc(&j));
    let k2 = keyed_in(&k, live);
    let r = sorted_triples(swap_last_two(&k2));
    proof {
        assert forall|o: u32, l: u32, q: u32| #[trigger] r@.contains((o, l, q)) <==> live@.contains((o, q)) && exists|p: u32|
            #[trigger] c@.contains((o, l, p)) && !kill@.contains((l, p)) && cfg_edge@.contains((p, q)) by {
            if r@.contains((o, l, q)) {
                assert(k2@.contains((o, q, l)));
                assert(k@.contains((o, q, l)));
                let p = choose|p: u32| j@.contains((p, o, l, q));
                assert(j@.to_set().contains((p, o, l, q)));
                assert(d@.contains((p, o, l)));
                assert(b@.contains((l, p, o)));
                assert(a@.contains((l, p, o)));
                assert(c@.contains((o, l, p)) && !kill@.contains((l, p)) && cfg_edge@.contains((p, q)));
            }
            if live@.contains((o, q)) && exists|p: u32| c@.contains((o, l, p)) && !kill@.contains((l, p)) && cfg_edge@.contains((p, q)) {
                let p = choose|p: u32| c@.contains((o, l, p)) && !kill@.contains((l, p)) && cfg_edge@.contains((p, q));
                assert(a@.contains((l, p, o)));
                assert(b@.contains((l, p, o)));
                assert(d@.contains((p, o, l)));
                assert(j@.to_set().contains((p, o, l, q)));
                assert(j@.contains((p, o, l, q)));
                assert(k@.contains((o, q, l)));
                assert(k2@.contains((o, q, l)));
            }
        }
    }
    r
}

/// Whether one rule of `origin_contains_loan_on_entry` derives the triple
/// `(origin, loan, point)` from the triples of `c`, given the relation `subset`:
///
/// ```text
/// origin_contains_loan_on_entry(Origin, Loan, Point) :- loan_issued_at(Origin, Loan, Point).
/// origin_contains_loan_on_entry(Origin2, Loan, Point) :-
///   origin_contains_loan_on_entry(Origin1, Loan, Point),
///   subset(Origin1, Origin2, Point).
/// origin_contains_loan_on_entry(Origin, Loan, Point2) :-
///   origin_contains_loan_on_entry(Origin, Loan, Point1),
///   !loan_killed_at(Loan, Point1),
///   cfg_edge(Point1, Point2),
///   origin_live_on_entry(Origin, Point2).
/// ```
pub open spec fn contains_rule(
    loan_issued_at: Set<(u32, u32, u32)>,
    loan_killed_at: Set<(u32, u32)>,
    cfg_edge: Set<(u32, u32)>,
    origin_live_on_entry: Set<(u32, u32)>,
    subset: Set<(u32, u32, u32)>,
    c: Set<(u32, u32, u32)>,
    x: (u32, u32, u32),
) -> bool {
    ||| loan_issued_at.contains(x)
    ||| exists|o: u32| #[trigger] c.contains((o, x.1, x.2)) && subset.contains((o, x.0, x.2))
    ||| {
        &&& origin_live_on_entry.contains((x.0, x.2))
        &&& exists|p: u32| #[trigger] c.contains((x.0, x.1, p)) && !loan_killed_at.contains((x.1, p)) && cfg_edge.contains((p, x.2))
    }
}

/// The rules of `origin_contains_loan_on_entry`, as a function of the relation they read.
pub open spec fn contains_rules(
    loan_issued_at: Set<(u32, u32, u32)>,
    loan_killed_at: Set<(u32, u32)>,
    cfg_edge: Set<(u32, u32)>,
    origin_live_on_entry: Set<(u32, u32)>,
    subset: Set<(u32, u32, u32)>,
) -> spec_fn(Set<(u32, u32, u32)>, (u32, u32, u32)) -> bool {
    |c: Set<(u32, u32, u32)>, x: (u32, u32, u32)| contains_rule(loan_issued_at, loan_killed_at, cfg_edge, origin_live_on_entry, subset, c, x)
}

proof fn lemma_contains_rules_monotone(
    loan_issued_at: Set<(u32, u32, u32)>,
    loan_killed_at: Set<(u32, u32)>,
    cfg_edge: Set<(u32, u32)>,
    origin_live_on_entry: Set<(u32, u32)>,
    subset: Set<(u32, u32, u32)>,
)
    ensures
        monotone(contains_rules(loan_issued_at, loan_killed_at, cfg_edge, origin_live_on_entry, subset)),
{
    let rule = contains_rules(loan_issued_at, loan_killed_at, cfg_edge, origin_live_on_entry, subset);
    assert forall|s: Set<(u32, u32, u32)>, t: Set<(u32, u32, u32)>, x: (u32, u32, u32)|
        #![trigger rule(s, x), rule(t, x)]
        s.subset_of(t) && rule(s, x) implies rule(t, x) by {
        if exists|o: u32| s.contains((o, x.1, x.2)) && subset.contains((o, x.0, x.2)) {
            let o = choose|o: u32| s.contains((o, x.1, x.2)) && subset.contains((o, x.0, x.2));
            assert(t.contains((o, x.1, x.2)));
        }
        if exists|p: u32| s.contains((x.0, x.1, p)) && !loan_killed_at.contains((x.1, p)) && cfg_edge.contains((p, x.2)) {
            let p = choose|p: u32| s.contains((x.0, x.1, p)) && !loan_killed_at.contains((x.1, p)) && cfg_edge.contains((p, x.2));
            assert(t.contains((x.0, x.1, p)));
        }
    }
}

/// What the rules of `origin_contains_loan_on_entry` derive from `c`.
fn contains_round(
    c: &Vec<(u32, u32, u32)>,
    subset: &Vec<(u32, u32, u32)>,
    loan_issued_at: &Vec<(u32, u32, u32)>,
    loan_killed_at: &Vec<(u32, u32)>,
    cfg_edge: &Vec<(u32, u32)>,
    live: &Vec<(u32, u32)>,
) -> (r: Vec<(u32, u32, u32)>)
    requires
        sorted2(loan_killed_at@),
        sorted2(cfg_edge@),
        sorted2(live@),
    ensures
        sorted3(r@),
        forall|x: (u32, u32, u32)| #[trigger] r@.contains(x) <==> contains_rule(
            loan_issued_at@.to_set(),
            loan_killed_at@.to_set(),
            cfg_edge@.to_set(),
            live@.to_set(),
            subset@.to_set(),
            c@.to_set(),
            x,
        ),
{
    let flowed = flow_into(c, subset);
    let moved = follow_edges_unless(c, loan_killed_at, cfg_edge, live);
    let derived = union_triples(&flowed, &moved);
    let r = union_triples(loan_issued_at, &derived);
    proof {
        let cs = c@.to_set();
        let ss = subset@.to_set();
        assert forall|x: (u32, u32, u32)| #[trigger] r@.contains(x) <==> contains_rule(
            loan_issued_at@.to_set(),
            loan_killed_at@.to_set(),
            cfg_edge@.to_set(),
            live@.to_set(),
            ss,
            cs,
            x,
        ) by {
            let (a, b, d) = x;
            assert(x == (a, b, d));
            assert(loan_issued_at@.to_set().contains(x) == loan_issued_at@.contains(x));
            assert(live@.to_set().contains((a, d)) == live@.contains((a, d)));
            if exists|o: u32| cs.contains((o, b, d)) && ss.contains((o, a, d)) {
                let o = choose|o: u32| cs.contains((o, b, d)) && ss.contains((o, a, d));
                assert(c@.contains((o, b, d)) && subset@.contains((o, a, d)));
            }
            if exists|o: u32| c@.contains((o, b, d)) && subset@.contains((o, a, d)) {
                let o = choose|o: u32| c@.contains((o, b, d)) && subset@.contains((o, a, d));
                assert(cs.contains((o, b, d)) && ss.contains((o, a, d)));
            }
            if exists|p: u32| cs.contains((a, b, p)) && !loan_killed_at@.to_set().contains((b, p)) && cfg_edge@.to_set().contains((p, d)) {
                let p = choose|p: u32| cs.contains((a, b, p)) && !loan_killed_at@.to_set().contains((b, p)) && cfg_edge@.to_set().contains((p, d));
                assert(c@.contains((a, b, p)) && !loan_killed_at@.contains((b, p)) && cfg_edge@.contains((p, d)));
            }
            if exists|p: u32| c@.contains((a, b, p)) && !loan_killed_at@.contains((b, p)) && cfg_edge@.contains((p, d)) {
                let p = choose|p: u32| c@.contains((a, b, p)) && !loan_killed_at@.contains((b, p)) && cfg_edge@.contains((p, d));
                assert(cs.contains((a, b, p)) && !loan_killed_at@.to_set().contains((b, p)) && cfg_edge@.to_set().contains((p, d)));
            }
        }
    }
    r
}

/// The least relation closed under the rules of `origin_contains_loan_on_entry` (see
/// [`contains_rule`]), computed by applying them from the empty relation until nothing new
/// comes.
#[verifier::rlimit(30)]
fn least_contains(
    subset: &Vec<(u32, u32, u32)>,
    loan_issued_at: &Vec<(u32, u32, u32)>,
    loan_killed_at: &Vec<(u32, u32)>,
    cfg_edge: &Vec<(u32, u32)>,
    live: &Vec<(u32, u32)>,
) -> (r: Vec<(u32, u32, u32)>)
    requires
        sorted2(loan_killed_at@),
        sorted2(cfg_edge@),
        sorted2(live@),
    ensures
        sorted3(r@),
        least_closed(contains_rules(loan_issued_at@.to_set(), loan_killed_at@.to_set(), cfg_edge@.to_set(), live@.to_set(), subset@.to_set()), r@.to_set()),
{
    let ghost rule = contains_rules(loan_issued_at@.to_set(), loan_killed_at@.to_set(), cfg_edge@.to_set(), live@.to_set(), subset@.to_set());
    proof {
        lemma_contains_rules_monotone(loan_issued_at@.to_set(), loan_killed_at@.to_set(), cfg_edge@.to_set(), live@.to_set(), subset@.to_set());
    }
    let mut current: Vec<(u32, u32, u32)> = Vec::new();
    proof {
        assert forall|t: Set<(u32, u32, u32)>| #[trigger] closed_under(rule, t) implies current@.to_set().subset_of(t) by {
            assert forall|x: (u32, u32, u32)| current@.to_set().contains(x) implies t.contains(x) by {
                assert(current@.contains(x));
            }
        }
    }
    loop
        invariant
            sorted2(loan_killed_at@),
            sorted2(cfg_edge@),
            sorted2(live@),
            sorted3(current@),
            rule == contains_rules(loan_issued_at@.to_set(), loan_killed_at@.to_set(), cfg_edge@.to_set(), live@.to_set(), subset@.to_set()),
            monotone(rule),
            forall|x: (u32, u32, u32)| #[trigger] current@.to_set().contains(x) ==> rule(current@.to_set(), x),
            forall|t: Set<(u32, u32, u32)>| #[trigger] closed_under(rule, t) ==> current@.to_set().subset_of(t),
        ensures
            sorted3(current@),
            least_closed(rule, current@.to_set()),
        decreases 0x1_0000_0000_0000_0000_0000_0000 - current@.len(),
    {
        let next = contains_round(&current, subset, loan_issued_at, loan_killed_at, cfg_edge, live);
        let ghost cur = current@.to_set();
        let ghost nxt = next@.to_set();
        proof {
            assert forall|x: (u32, u32, u32)| #[trigger] nxt.contains(x) <==> rule(cur, x) by {
                assert(nxt.contains(x) == next@.contains(x));
            }
            lemma_round(rule, cur, nxt);
            lemma_same_length_same_triples(current@, next@);
            lemma_sorted_triples_len(next@);
        }
        if next.len() == current.len() {
            proof {
                assert(cur == nxt);
                lemma_round_done(rule, cur);
            }
            break;
        }
        current = next;
    }
    current
}

/// Whether `v` is one of `vals`.
fn has_value(vals: &Vec<u32>, v: u32) -> (r: bool)
    ensures
        r == vals@.contains(v),
{
    let mut i: usize = 0;
    while i < vals.len()
        invariant
            i <= vals@.len(),
            forall|k: int| 0 <= k < i ==> vals@[k] != v,
        decreases vals@.len() - i,
    {
        if vals[i] == v {
            return true;
        }
        i = i + 1;
    }
    false
}

/// The triples of `s` whose first component is one of `vals`, sorted.
fn first_in(s: &Vec<(u32, u32, u32)>, vals: &Vec<u32>) -> (r: Vec<(u32, u32, u32)>)
    ensures
        sorted3(r@),
        forall|t: (u32, u32, u32)| #[trigger] r@.contains(t) <==> s@.contains(t) && vals@.contains(t.0),
{
    let mut kept: Vec<(u32, u32, u32)> = Vec::new();
    let mut i: usize = 0;
    while i < s.len()
        invariant
            i <= s@.len(),
            forall|t: (u32, u32, u32)| #[trigger] kept@.contains(t) <==> s@.take(i as int).contains(t) && vals@.contains(t.0),
        decreases s@.len() - i,
    {
        let t = s[i];
        let ghost before = kept@;
        if has_value(vals, t.0) {
            kept.push(t);
        }
        proof {
            let pre = s@.take(i as int);
            let post = s@.take(i + 1);
            assert(post =~= pre.push(t));
            assert forall|u: (u32, u32, u32)| #[trigger] kept@.contains(u) <==> post.contains(u) && vals@.contains(u.0) by {
                if u != t {
                    assert(post.contains(u) == pre.contains(u)) by {
                        if post.contains(u) {
                            let k = choose|k: int| 0 <= k < post.len() && post[k] == u;
                            assert(pre[k] == u);
                        }
                        if pre.contains(u) {
                            let k = choose|k: int| 0 <= k < pre.len() && pre[k] == u;
                            assert(post[k] == u);
                        }
                    }
                    assert(kept@.contains(u) == before.contains(u)) by {
                        if kept@.contains(u) {
                            let k = choose|k: int| 0 <= k < kept@.len() && kept@[k] == u;
                            assert(before[k] == u);
                        }
                        if before.contains(u) {
                            let k = choose|k: int| 0 <= k < before.len() && before[k] == u;
                            assert(kept@[k] == u);
                        }
                    }
                } else {
                    assert(post[post.len() - 1] == t);
                    if vals@.contains(t.0) {
                        assert(kept@[kept@.len() - 1] == t);
                    } else {
                        assert(kept@ == before);
                    }
                }
            }
        }
        i = i + 1;
    }
    proof {
        assert(s@.take(s@.len() as int) =~= s@);
    }
    sorted_triples(kept)
}

/// Whether one rule of `subset_placeholder` derives the triple `(origin1, origin2, point)`
/// from the triples of `sp`, given the relation `subset`, the two origins being distinct:
///
/// ```text
/// subset_placeholder(Origin1, Origin2, Point) :-
///   subset(Origin1, Origin2, Point),
///   placeholder_origin(Origin1).
/// subset_placeholder(Origin1, Origin3, Point) :-
///   subset_placeholder(Origin1, Origin2, Point),
///   subset(Origin2, Origin3, Point).
/// ```
pub open spec fn placeholder_rule(placeholder_origin: Set<u32>, subset: Set<(u32, u32, u32)>, sp: Set<(u32, u32, u32)>, x: (u32, u32, u32)) -> bool {
    &&& x.0 != x.1
    &&& {
        ||| subset.contains(x) && placeholder_origin.contains(x.0)
        ||| exists|o: u32| #[trigger] sp.contains((x.0, o, x.2)) && subset.contains((o, x.1, x.2))
    }
}

/// The rules of `subset_placeholder`, as a function of the relation they read.
pub open spec fn placeholder_rules(placeholder_origin: Set<u32>, subset: Set<(u32, u32, u32)>) -> spec_fn(
    Set<(u32, u32, u32)>,
    (u32, u32, u32),
) -> bool {
    |sp: Set<(u32, u32, u32)>, x: (u32, u32, u32)| placeholder_rule(placeholder_origin, subset, sp, x)
}

proof fn lemma_placeholder_rules_monotone(placeholder_origin: Set<u32>, subset: Set<(u32, u32, u32)>)
    ensures
        monotone(placeholder_rules(placeholder_origin, subset)),
{
    let rule = placeholder_rules(placeholder_origin, subset);
    assert forall|s: Set<(u32, u32, u32)>, t: Set<(u32, u32, u32)>, x: (u32, u32, u32)|
        #![trigger rule(s, x), rule(t, x)]
        s.subset_of(t) && rule(s, x) implies rule(t, x) by {
        if exists|o: u32| s.contains((x.0, o, x.2)) && subset.contains((o, x.1, x.2)) {
            let o = choose|o: u32| s.contains((x.0, o, x.2)) && subset.contains((o, x.1, x.2));
            assert(t.contains((x.0, o, x.2)));
        }
    }
}

/// What the rules of `subset_placeholder` derive from `sp`.
fn placeholder_round(sp: &Vec<(u32, u32, u32)>, subset: &Vec<(u32, u32, u32)>, placeholder_origin: &Vec<u32>) -> (r: Vec<(u32, u32, u32)>)
    ensures
        sorted3(r@),
        forall|x: (u32, u32, u32)| #[trigger] r@.contains(x) <==> placeholder_rule(
            placeholder_origin@.to_set(),
            subset@.to_set(),
            sp@.to_set(),
            x,
        ),
{
    let from_placeholders = first_in(subset, placeholder_origin);
    let extended = compose(sp, subset);
    let all = union_triples(&from_placeholders, &extended);
    let r = sorted_triples(keep_distinct_first_two(&all));
    proof {
        let sps = sp@.to_set();
        let ss = subset@.to_set();
        assert forall|x: (u32, u32, u32)| #[trigger] r@.contains(x) <==> placeholder_rule(placeholder_origin@.to_set(), ss, sps, x) by {
            let (a, b, c) = x;
            assert(x == (a, b, c));
            assert(placeholder_origin@.to_set().contains(a) == placeholder_origin@.contains(a));
            assert(ss.contains(x) == subset@.contains(x));
            if exists|o: u32| sps.contains((a, o, c)) && ss.contains((o, b, c)) {
                let o = choose|o: u32| sps.contains((a, o, c)) && ss.contains((o, b, c));
                assert(sp@.contains((a, o, c)) && subset@.contains((o, b, c)));
            }
            if exists|o: u32| sp@.contains((a, o, c)) && subset@.contains((o, b, c)) {
                let o = choose|o: u32| sp@.contains((a, o, c)) && subset@.contains((o, b, c));
                assert(sps.contains((a, o, c)) && ss.contains((o, b, c)));
            }
            assert(r@.contains((a, b, c)) <==> a != b && all@.contains((a, b, c)));
        }
    }
    r
}

/// The least relation closed under the rules of `subset_placeholder` (see
/// [`placeholder_rule`]), computed by applying them from the empty relation until nothing new
/// comes.
#[verifier::rlimit(30)]
fn least_subset_placeholder(subset: &Vec<(u32, u32, u32)>, placeholder_origin: &Vec<u32>) -> (r: Vec<(u32, u32, u32)>)
    ensures
        sorted3(r@),
        least_closed(placeholder_rules(placeholder_origin@.to_set(), subset@.to_set()), r@.to_set()),
{
    let ghost rule = placeholder_rules(placeholder_origin@.to_set(), subset@.to_set());
    proof {
        lemma_placeholder_rules_monotone(placeholder_origin@.to_set(), subset@.to_set());
    }
    let mut current: Vec<(u32, u32, u32)> = Vec::new();
    proof {
        assert forall|t: Set<(u32, u32, u32)>| #[trigger] closed_under(rule, t) implies current@.to_set().subset_of(t) by {
            assert forall|x: (u32, u32, u32)| current@.to_set().contains(x) implies t.contains(x) by {
                assert(current@.contains(x));
            }
        }
    }
    loop
        invariant
            sorted3(current@),
            rule == placeholder_rules(placeholder_origin@.to_set(), subset@.to_set()),
            monotone(rule),
            forall|x: (u32, u32, u32)| #[trigger] current@.to_set().contains(x) ==> rule(current@.to_set(), x),
            forall|t: Set<(u32, u32, u32)>| #[trigger] closed_under(rule, t) ==> current@.to_set().subset_of(t),
        ensures
            sorted3(current@),
            least_closed(rule, current@.to_set()),
        decreases 0x1_0000_0000_0000_0000_0000_0000 - current@.len(),
    {
        let next = placeholder_round(&current, subset, placeholder_origin);
        let ghost cur = current@.to_set();
        let ghost nxt = next@.to_set();
        proof {
            assert forall|x: (u32, u32, u32)| #[trigger] nxt.contains(x) <==> rule(cur, x) by {
                assert(nxt.contains(x) == next@.contains(x));
            }
            lemma_round(rule, cur, nxt);
            lemma_same_length_same_triples(current@, next@);
            lemma_sorted_triples_len(next@);
        }
        if next.len() == current.len() {
            proof {
                assert(cur == nxt);
                lemma_round_done(rule, cur);
            }
            break;
        }
        current = next;
    }
    current
}

/// The pairs of `v`, sorted, each once.
fn sorted_pairs(v: Vec<(u32, u32)>) -> (r: Vec<(u32, u32)>)
    ensures
        sorted2(r@),
        forall|t: (u32, u32)| #[trigger] r@.contains(t) <==> v@.contains(t),
{
    let ghost raw = v@;
    let r = relation_of_pairs(v);
    proof {
        assert forall|t: (u32, u32)| #[trigger] r@.contains(t) <==> raw.contains(t) by {
            assert(r@.to_set().contains(t) == r@.contains(t));
            assert(raw.to_set().contains(t) == raw.contains(t));
        }
    }
    r
}

/// The pairs of both `a` and `b`, sorted.
fn common_pairs(a: &Vec<(u32, u32)>, b: &Vec<(u32, u32)>) -> (r: Vec<(u32, u32)>)
    requires
        sorted2(a@),
        sorted2(b@),
    ensures
        sorted2(r@),
        forall|t: (u32, u32)| #[trigger] r@.contains(t) <==> a@.contains(t) && b@.contains(t),
{
    let only_a = pairs_not_in(a, b);
    let r = pairs_not_in(a, &only_a);
    proof {
        assert forall|t: (u32, u32)| #[trigger] r@.contains(t) <==> a@.contains(t) && b@.contains(t) by {
            assert(r@.to_set().contains(t) == r@.contains(t));
            assert(only_a@.to_set().contains(t) == only_a@.contains(t));
            assert(a@.to_set().contains(t) == a@.contains(t));
            assert(b@.to_set().contains(t) == b@.contains(t));
        }
    }
    r
}

/// The pairs `(loan, point)` for each `(origin, loan, point)` of `c` where `origin` is live
/// on entry to `point`.
fn live_loans(c: &Vec<(u32, u32, u32)>, live: &Vec<(u32, u32)>) -> (r: Vec<(u32, u32)>)
    requires
        sorted2(live@),
    ensures
        sorted2(r@),
        forall|l: u32, p: u32| #[trigger] r@.contains((l, p)) <==> exists|o: u32| #[trigger] c@.contains((o, l, p)) && live@.contains((o, p)),
{
    let a = sorted_triples(swap_last_two(c));
    let b = keyed_in(&a, live);
    let r = sorted_pairs(pick_cb(&b));
    proof {
        assert forall|l: u32, p: u32| #[trigger] r@.contains((l, p)) <==> exists|o: u32| #[trigger] c@.contains((o, l, p)) && live@.contains((o, p)) by {
            if r@.contains((l, p)) {
                let o = choose|o: u32| b@.contains((o, p, l));
                assert(a@.contains((o, p, l)));
                assert(c@.contains((o, l, p)) && live@.contains((o, p)));
            }
            if exists|o: u32| c@.contains((o, l, p)) && live@.contains((o, p)) {
                let o = choose|o: u32| c@.contains((o, l, p)) && live@.contains((o, p));
                assert(a@.contains((o, p, l)));
                assert(b@.contains((o, p, l)));
            }
        }
    }
    r
}

/// The least `subset` relates no origin to itself.
pub(crate) proof fn lemma_subset_irreflexive(
    subset_base: Set<(u32, u32, u32)>,
    cfg_edge: Set<(u32, u32)>,
    origin_live_on_entry: Set<(u32, u32)>,
    s: Set<(u32, u32, u32)>,
)
    requires
        least_closed(subset_rules(subset_base, cfg_edge, origin_live_on_entry), s),
    ensures
        forall|x: (u32, u32, u32)| #[trigger] s.contains(x) ==> x.0 != x.1,
{
    let rule = subset_rules(subset_base, cfg_edge, origin_live_on_entry);
    lemma_subset_rules_monotone(subset_base, cfg_edge, origin_live_on_entry);
    let u = Set::new(|x: (u32, u32, u32)| s.contains(x) && x.0 != x.1);
    assert(closed_under(rule, u)) by {
        assert forall|x: (u32, u32, u32)| #[trigger] rule(u, x) implies u.contains(x) by {
            assert(u.subset_of(s));
            assert(rule(s, x));
        }
    }
    assert(s.subset_of(u));
}

/// The least `subset_placeholder` holds the triples of the least `subset` whose first origin
/// is a placeholder, and no others.
proof fn lemma_subset_placeholder(
    subset_base: Set<(u32, u32, u32)>,
    cfg_edge: Set<(u32, u32)>,
    origin_live_on_entry: Set<(u32, u32)>,
    placeholder_origin: Set<u32>,
    s: Set<(u32, u32, u32)>,
    sp: Set<(u32, u32, u32)>,
)
    requires
        least_closed(subset_rules(subset_base, cfg_edge, origin_live_on_entry), s),
        least_closed(placeholder_rules(placeholder_origin, s), sp),
    ensures
        forall|x: (u32, u32, u32)| #[trigger] sp.contains(x) <==> s.contains(x) && placeholder_origin.contains(x.0),
{
    lemma_subset_irreflexive(subset_base, cfg_edge, origin_live_on_entry, s);
    let srule = subset_rules(subset_base, cfg_edge, origin_live_on_entry);
    let prule = placeholder_rules(placeholder_origin, s);
    let u = Set::new(|x: (u32, u32, u32)| s.contains(x) && placeholder_origin.contains(x.0));
    assert(closed_under(prule, u)) by {
        assert forall|x: (u32, u32, u32)| #[trigger] prule(u, x) implies u.contains(x) by {
            if !(s.contains(x) && placeholder_origin.contains(x.0)) {
                let o = choose|o: u32| u.contains((x.0, o, x.2)) && s.contains((o, x.1, x.2));
                assert(s.contains((x.0, o, x.2)));
                assert(srule(s, x));
            }
        }
    }
    assert(sp.subset_of(u));
    assert forall|x: (u32, u32, u32)| #[trigger] sp.contains(x) <==> s.contains(x) && placeholder_origin.contains(x.0) by {
        if s.contains(x) && placeholder_origin.contains(x.0) {
            assert(prule(sp, x));
        }
        if sp.contains(x) {
            assert(u.contains(x));
        }
    }
}

/// What the naive analysis computes: its errors, and the relations it derives them from.
pub struct BorrowckNaiveOutput {
    /// `errors(loan, point)`: the loan is invalidated at the point, where it is live.
    pub errors: Vec<(u32, u32)>,
    /// `subset_errors(origin1, origin2, point)`: a placeholder origin flows into another one
    /// at the point, with no known subset relation between them.
    pub subset_errors: Vec<(u32, u32, u32)>,
    /// `subset(origin1, origin2, point)`
    pub subset: Vec<(u32, u32, u32)>,
    /// `origin_contains_loan_on_entry(origin, loan, point)`
    pub origin_contains_loan_on_entry: Vec<(u32, u32, u32)>,
    /// `loan_live_at(loan, point)`
    pub loan_live_at: Vec<(u32, u32)>,
}

/// The naive location-sensitive borrow check.
#[derive(Clone, Copy)]
pub struct BorrowckNaive;

impl BorrowckNaive {
    /// The least relations closed under the rules of `subset` (see [`subset_rule`]) and of
    /// `origin_contains_loan_on_entry` (see [`contains_rule`]), and from them:
    ///
    /// ```text
    /// loan_live_at(Loan, Point) :-
    ///   origin_contains_loan_on_entry(Origin, Loan, Point),
    ///   origin_live_on_entry(Origin, Point).
    /// errors(Loan, Point) :-
    ///   loan_invalidated_at(Loan, Point),
    ///   loan_live_at(Loan, Point).
    /// subset_errors(Origin1, Origin2, Point) :-
    ///   subset_placeholder(Origin1, Origin2, Point),
    ///   placeholder_origin(Origin2),
    ///   !known_placeholder_subset(Origin1, Origin2).
    /// ```
    ///
    /// where `subset_placeholder` is the least relation closed under its rules (see
    /// [`placeholder_rule`]): the triples of `subset` whose first origin is a placeholder.
    /// `loan_invalidated_at` holds pairs `(loan, point)`.
    #[verifier::rlimit(30)]
    pub fn compute(
        &self,
        subset_base: &Vec<(u32, u32, u32)>,
        loan_issued_at: &Vec<(u32, u32, u32)>,
        cfg_edge: &Vec<(u32, u32)>,
        origin_live_on_entry: &Vec<(u32, u32)>,
        loan_killed_at: &Vec<(u32, u32)>,
        loan_invalidated_at: &Vec<(u32, u32)>,
        known_placeholder_subset: &Vec<(u32, u32)>,
        placeholder_origin: &Vec<u32>,
    ) -> (r: BorrowckNaiveOutput)
        ensures
            sorted3(r.subset@),
            least_closed(subset_rules(subset_base@.to_set(), cfg_edge@.to_set(), origin_live_on_entry@.to_set()), r.subset@.to_set()),
            forall|x: (u32, u32, u32)| #[trigger] r.subset@.contains(x) ==> x.0 != x.1,
            sorted3(r.origin_contains_loan_on_entry@),
            least_closed(
                contains_rules(
                    loan_issued_at@.to_set(),
                    loan_killed_at@.to_set(),
                    cfg_edge@.to_set(),
                    origin_live_on_entry@.to_set(),
                    r.subset@.to_set(),
                ),
                r.origin_contains_loan_on_entry@.to_set(),
            ),
            sorted2(r.loan_live_at@),
            forall|l: u32, p: u32| #[trigger] r.loan_live_at@.contains((l, p)) <==> exists|o: u32|
                #[trigger] r.origin_contains_loan_on_entry@.contains((o, l, p)) && origin_live_on_entry@.contains((o, p)),
            sorted2(r.errors@),
            forall|l: u32, p: u32| #[trigger] r.errors@.contains((l, p)) <==> loan_invalidated_at@.contains((l, p)) && r.loan_live_at@.contains((l, p)),
            sorted3(r.subset_errors@),
            forall|a: u32, b: u32, p: u32| #[trigger] r.subset_errors@.contains((a, b, p)) <==> {
                &&& r.subset@.contains((a, b, p))
                &&& placeholder_origin@.contains(a)
                &&& placeholder_origin@.contains(b)
                &&& !known_placeholder_subset@.contains((a, b))
            },
    {
        let cfg = sorted_pairs(copy_pairs(cfg_edge));
        let live = sorted_pairs(copy_pairs(origin_live_on_entry));
        let killed = sorted_pairs(copy_pairs(loan_killed_at));
        let invalidated = sorted_pairs(copy_pairs(loan_invalidated_at));
        let known = sorted_pairs(copy_pairs(known_placeholder_subset));
        proof {
            assert(cfg@.to_set() =~= cfg_edge@.to_set());
            assert(live@.to_set() =~= origin_live_on_entry@.to_set());
            assert(killed@.to_set() =~= loan_killed_at@.to_set());
        }
        let subset = least_subset(subset_base, &cfg, &live);
        proof {
            lemma_subset_irreflexive(subset_base@.to_set(), cfg_edge@.to_set(), origin_live_on_entry@.to_set(), subset@.to_set());
            assert forall|x: (u32, u32, u32)| #[trigger] subset@.contains(x) implies x.0 != x.1 by {
                assert(subset@.to_set().contains(x));
            }
        }
        let contains = least_contains(&subset, loan_issued_at, &killed, &cfg, &live);
        let loan_live_at = live_loans(&contains, &live);
        let errors = common_pairs(&invalidated, &loan_live_at);
        let subset_placeholder = least_subset_placeholder(&subset, placeholder_origin);
        let flipped = sorted_triples(swap_first_two(&subset_placeholder));
        let into_placeholders = sorted_triples(swap_first_two(&first_in(&flipped, placeholder_origin)));
        let unknown = keyed_not_in(&into_placeholders, &known);
        let subset_errors = sorted_triples(keep_distinct_first_two(&unknown));
        proof {
            let ss = subset@.to_set();
            let sps = subset_placeholder@.to_set();
            lemma_subset_placeholder(
                subset_base@.to_set(),
                cfg_edge@.to_set(),
                origin_live_on_entry@.to_set(),
                placeholder_origin@.to_set(),
                ss,
                sps,
            );
            assert forall|a: u32, b: u32, p: u32| #[trigger] subset_errors@.contains((a, b, p)) <==> {
                &&& subset@.contains((a, b, p))
                &&& placeholder_origin@.contains(a)
                &&& placeholder_origin@.contains(b)
                &&& !known_placeholder_subset@.contains((a, b))
            } by {
                assert(sps.contains((a, b, p)) == subset_placeholder@.contains((a, b, p)));
                assert(ss.contains((a, b, p)) == subset@.contains((a, b, p)));
                assert(placeholder_origin@.to_set().contains(a) == placeholder_origin@.contains(a));
                assert(flipped@.contains((b, a, p)) == subset_placeholder@.contains((a, b, p)));
                assert(into_placeholders@.contains((a, b, p)) == (subset_placeholder@.contains((a, b, p)) && placeholder_origin@.contains(b)));
                assert(subset_errors@.contains((a, b, p)) == (a != b && unknown@.contains((a, b, p))));
            }
        }
        BorrowckNaiveOutput { errors, subset_errors, subset, origin_contains_loan_on_entry: contains, loan_live_at }
    }
}

proof fn lemma_first_two(v: Seq<(u32, u32, u32)>, a: u32, b: u32, c: u32)
    requires
        v.contains((a, b, c)),
    ensures
        first_two(v).contains((a, b)),
{
    let t = (a, b);
    assert(v.contains((t.0, t.1, c)));
    assert(first_two(v).contains(t));
}

/// A walk along `e` that ends where another one starts, followed by the rest of that one, is
/// a walk along `e` from the start of the first to the end of the second.
pub(crate) proof fn lemma_walk_concat(e: Set<(u32, u32)>, w1: Seq<u32>, w2: Seq<u32>)
    requires
        is_walk(e, w1),
        is_walk(e, w2),
        w1.last() == w2[0],
    ensures
        is_walk(e, w1 + w2.drop_first()),
        (w1 + w2.drop_first())[0] == w1[0],
        (w1 + w2.drop_first()).last() == w2.last(),
        (w1 + w2.drop_first()).len() == w1.len() + w2.len() - 1,
{
    let w = w1 + w2.drop_first();
    assert forall|i: int| 0 <= i < w.len() - 1 implies #[trigger] e.contains((w[i], w[i + 1])) by {
        if i < w1.len() - 1 {
            assert(w[i] == w1[i]);
            assert(w[i + 1] == w1[i + 1]);
        } else {
            let j = i - (w1.len() - 1);
            assert(w[i] == w2[j]);
            assert(w[i + 1] == w2[j + 1]);
        }
    }
}

/// The least `subset` relates two origins only where a walk of at least one subset of
/// `subset_base`, wherever it holds, leads from the one to the other.
pub(crate) proof fn lemma_subset_connected(
    subset_base: Seq<(u32, u32, u32)>,
    cfg_edge: Set<(u32, u32)>,
    origin_live_on_entry: Set<(u32, u32)>,
    s: Set<(u32, u32, u32)>,
)
    requires
        least_closed(subset_rules(subset_base.to_set(), cfg_edge, origin_live_on_entry), s),
    ensures
        forall|x: (u32, u32, u32)| #[trigger] s.contains(x) ==> connected(first_two(subset_base), x.0, x.1),
{
    let e = first_two(subset_base);
    let rule = subset_rules(subset_base.to_set(), cfg_edge, origin_live_on_entry);
    let u = Set::new(|x: (u32, u32, u32)| connected(e, x.0, x.1));
    assert(closed_under(rule, u)) by {
        assert forall|x: (u32, u32, u32)| #[trigger] rule(u, x) implies u.contains(x) by {
            if subset_base.to_set().contains(x) {
                let (a, b, c) = x;
                assert(x == (a, b, c));
                lemma_first_two(subset_base, a, b, c);
                let w = seq![x.0, x.1];
                assert(is_walk(e, w)) by {
                    assert forall|i: int| 0 <= i < w.len() - 1 implies #[trigger] e.contains((w[i], w[i + 1])) by {
                        assert(i == 0);
                    }
                }
                assert(w.last() == x.1);
            } else if exists|o: u32| u.contains((x.0, o, x.2)) && u.contains((o, x.1, x.2)) {
                let o = choose|o: u32| u.contains((x.0, o, x.2)) && u.contains((o, x.1, x.2));
                let w1 = choose|w: Seq<u32>| #[trigger] is_walk(e, w) && w.len() >= 2 && w[0] == x.0 && w.last() == o;
                let w2 = choose|w: Seq<u32>| #[trigger] is_walk(e, w) && w.len() >= 2 && w[0] == o && w.last() == x.1;
                lemma_walk_concat(e, w1, w2);
                let w = w1 + w2.drop_first();
                assert(is_walk(e, w) && w.len() >= 2 && w[0] == x.0 && w.last() == x.1);
            } else {
                let p = choose|p: u32| u.contains((x.0, x.1, p)) && cfg_edge.contains((p, x.2));
                assert(u.contains((x.0, x.1, p)));
            }
        }
    }
    assert(s.subset_of(u));
}

/// Where the least `origin_contains_loan_on_entry` (built on the least `subset`) has an
/// origin contain a loan at some point, the location-insensitive analysis has it contain the
/// loan anywhere.
pub proof fn lemma_contains_anywhere(
    subset_base: Seq<(u32, u32, u32)>,
    loan_issued_at: Seq<(u32, u32, u32)>,
    placeholder: Seq<(u32, u32)>,
    cfg_edge: Set<(u32, u32)>,
    origin_live_on_entry: Set<(u32, u32)>,
    loan_killed_at: Set<(u32, u32)>,
    s: Set<(u32, u32, u32)>,
    c: Set<(u32, u32, u32)>,
)
    requires
        least_closed(subset_rules(subset_base.to_set(), cfg_edge, origin_live_on_entry), s),
        least_closed(contains_rules(loan_issued_at.to_set(), loan_killed_at, cfg_edge, origin_live_on_entry, s), c),
    ensures
        forall|x: (u32, u32, u32)| #[trigger] c.contains(x) ==> contains_loan_anywhere(loan_issued_at, placeholder, subset_base, x.0, x.1),
{
    lemma_subset_connected(subset_base, cfg_edge, origin_live_on_entry, s);
    let e = first_two(subset_base);
    let b = first_two(loan_issued_at) + placeholder.to_set();
    let rule = contains_rules(loan_issued_at.to_set(), loan_killed_at, cfg_edge, origin_live_on_entry, s);
    let v = Set::new(|x: (u32, u32, u32)| reached(b, e, (x.0, x.1)));
    assert(closed_under(rule, v)) by {
        assert forall|x: (u32, u32, u32)| #[trigger] rule(v, x) implies v.contains(x) by {
            if loan_issued_at.to_set().contains(x) {
                let (o, l, q) = x;
                assert(x == (o, l, q));
                lemma_first_two(loan_issued_at, o, l, q);
                let w = seq![x.0];
                assert(is_walk(e, w));
                assert(b.contains((w[0], x.1)));
            } else if exists|o: u32| v.contains((o, x.1, x.2)) && s.contains((o, x.0, x.2)) {
                let o = choose|o: u32| v.contains((o, x.1, x.2)) && s.contains((o, x.0, x.2));
                let w1 = choose|w: Seq<u32>| #[trigger] is_walk(e, w) && w.last() == o && b.contains((w[0], x.1));
                assert(connected(e, o, x.0));
                let w2 = choose|w: Seq<u32>| #[trigger] is_walk(e, w) && w.len() >= 2 && w[0] == o && w.last() == x.0;
                lemma_walk_concat(e, w1, w2);
                let w = w1 + w2.drop_first();
                assert(is_walk(e, w) && w.last() == x.0 && b.contains((w[0], x.1)));
            } else {
                let p = choose|p: u32| v.contains((x.0, x.1, p)) && !loan_killed_at.contains((x.1, p)) && cfg_edge.contains((p, x.2));
                assert(v.contains((x.0, x.1, p)));
            }
        }
    }
    assert(c.subset_of(v));
}

/// The location-insensitive analysis finds every error of the naive one: where a loan is
/// invalidated at a point where an origin live there contains it, the origin contains the
/// loan anywhere.
pub proof fn lemma_location_insensitive_finds_naive_errors(
    subset_base: Seq<(u32, u32, u32)>,
    loan_issued_at: Seq<(u32, u32, u32)>,
    placeholder: Seq<(u32, u32)>,
    cfg_edge: Seq<(u32, u32)>,
    origin_live_on_entry: Seq<(u32, u32)>,
    loan_killed_at: Seq<(u32, u32)>,
    loan_invalidated_at: Seq<(u32, u32)>,
    s: Set<(u32, u32, u32)>,
    c: Set<(u32, u32, u32)>,
    l: u32,
    p: u32,
)
    requires
        least_closed(subset_rules(subset_base.to_set(), cfg_edge.to_set(), origin_live_on_entry.to_set()), s),
        least_closed(
            contains_rules(loan_issued_at.to_set(), loan_killed_at.to_set(), cfg_edge.to_set(), origin_live_on_entry.to_set(), s),
            c,
        ),
        loan_invalidated_at.contains((l, p)),
        exists|o: u32| #[trigger] c.contains((o, l, p)) && origin_live_on_entry.contains((o, p)),
    ensures
        loan_invalidated_at.contains((l, p)),
        exists|o: u32| #[trigger] origin_live_on_entry.contains((o, p)) && contains_loan_anywhere(loan_issued_at, placeholder, subset_base, o, l),
{
    lemma_contains_anywhere(
        subset_base,
        loan_issued_at,
        placeholder,
        cfg_edge.to_set(),
        origin_live_on_entry.to_set(),
        loan_killed_at.to_set(),
        s,
        c,
    );
    let o = choose|o: u32| c.contains((o, l, p)) && origin_live_on_entry.contains((o, p));
    assert(contains_loan_anywhere(loan_issued_at, placeholder, subset_base, o, l));
}

} // verus!
