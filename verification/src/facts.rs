//! The input facts of the borrow analysis: relations over interned indices of origins, loans,
//! points, variables and paths.
//!
//! Each relation is kept as a sorted list of distinct tuples, in the order of `std`'s tuples:
//! lexicographic, by the first component, then the second, then the third.

use vstd::prelude::*;

verus! {

/// An interned origin (a region).
pub type Origin = u32;

/// An interned loan.
pub type Loan = u32;

/// An interned point of the control-flow graph.
pub type Point = u32;

/// An interned variable.
pub type Variable = u32;

/// An interned move path.
pub type Path = u32;

/// The "facts" which are the basis of the NLL borrow analysis.
#[derive(Clone, Debug)]
pub struct AllFacts {
    /// `loan_issued_at(origin, loan, point)`: the `loan` was issued at `point`, creating a
    /// reference with the `origin`.
    pub loan_issued_at: Vec<(Origin, Loan, Point)>,
    /// `universal_region(origin)`: a "free region" within the function body.
    pub universal_region: Vec<Origin>,
    /// `cfg_edge(point1, point2)` for each edge `point1 -> point2` in the control flow.
    pub cfg_edge: Vec<(Point, Point)>,
    /// `loan_killed_at(loan, point)` when some prefix of the path borrowed at `loan` is
    /// assigned at `point`.
    pub loan_killed_at: Vec<(Loan, Point)>,
    /// `subset_base(origin1, origin2, point)` when we require `origin1@point: origin2@point`.
    pub subset_base: Vec<(Origin, Origin, Point)>,
    /// `loan_invalidated_at(point, loan)` when the `loan` is invalidated at `point`.
    pub loan_invalidated_at: Vec<(Point, Loan)>,
    /// `var_used_at(var, point)` when the variable `var` is used for anything but a drop at
    /// `point`.
    pub var_used_at: Vec<(Variable, Point)>,
    /// `var_defined_at(var, point)` when the variable `var` is overwritten at `point`.
    pub var_defined_at: Vec<(Variable, Point)>,
    /// `var_dropped_at(var, point)` when the variable `var` is used in a drop at `point`.
    pub var_dropped_at: Vec<(Variable, Point)>,
    /// `use_of_var_derefs_origin(variable, origin)`: references with the given `origin` may
    /// be dereferenced when the `variable` is used.
    pub use_of_var_derefs_origin: Vec<(Variable, Origin)>,
    /// `drop_of_var_derefs_origin(var, origin)` when the type of `var` includes the `origin`
    /// and uses it when dropping.
    pub drop_of_var_derefs_origin: Vec<(Variable, Origin)>,
    /// `child_path(child, parent)` when the path `child` is the direct child of `parent`.
    pub child_path: Vec<(Path, Path)>,
    /// `path_is_var(path, var)`: the root path `path` starting in variable `var`.
    pub path_is_var: Vec<(Path, Variable)>,
    /// `path_assigned_at_base(path, point)` when the `path` was initialized at `point`.
    pub path_assigned_at_base: Vec<(Path, Point)>,
    /// `path_moved_at_base(path, point)` when the `path` was moved at `point`.
    pub path_moved_at_base: Vec<(Path, Point)>,
    /// `path_accessed_at_base(path, point)` when the `path` was accessed at `point`.
    pub path_accessed_at_base: Vec<(Path, Point)>,
    /// `known_placeholder_subset(origin1, origin2)`: the `'a: 'b` relations declared by the
    /// user or inferred from implied bounds.
    pub known_placeholder_subset: Vec<(Origin, Origin)>,
    /// `placeholder(origin, loan)`: a placeholder `origin`, with its placeholder `loan`.
    pub placeholder: Vec<(Origin, Loan)>,
}

impl AllFacts {
    /// Whether every relation is empty.
    pub open spec fn is_empty(&self) -> bool {
        &&& self.loan_issued_at@.len() == 0
        &&& self.universal_region@.len() == 0
        &&& self.cfg_edge@.len() == 0
        &&& self.loan_killed_at@.len() == 0
        &&& self.subset_base@.len() == 0
        &&& self.loan_invalidated_at@.len() == 0
        &&& self.var_used_at@.len() == 0
        &&& self.var_defined_at@.len() == 0
        &&& self.var_dropped_at@.len() == 0
        &&& self.use_of_var_derefs_origin@.len() == 0
        &&& self.drop_of_var_derefs_origin@.len() == 0
        &&& self.child_path@.len() == 0
        &&& self.path_is_var@.len() == 0
        &&& self.path_assigned_at_base@.len() == 0
        &&& self.path_moved_at_base@.len() == 0
        &&& self.path_accessed_at_base@.len() == 0
        &&& self.known_placeholder_subset@.len() == 0
        &&& self.placeholder@.len() == 0
    }
}

impl Default for AllFacts {
    fn default() -> (r: AllFacts)
        ensures
            r.is_empty(),
    {
        AllFacts {
            loan_issued_at: Vec::new(),
            universal_region: Vec::new(),
            cfg_edge: Vec::new(),
            loan_killed_at: Vec::new(),
            subset_base: Vec::new(),
            loan_invalidated_at: Vec::new(),
            var_used_at: Vec::new(),
            var_defined_at: Vec::new(),
            var_dropped_at: Vec::new(),
            use_of_var_derefs_origin: Vec::new(),
            drop_of_var_derefs_origin: Vec::new(),
            child_path: Vec::new(),
            path_is_var: Vec::new(),
            path_assigned_at_base: Vec::new(),
            path_moved_at_base: Vec::new(),
            path_accessed_at_base: Vec::new(),
            known_placeholder_subset: Vec::new(),
            placeholder: Vec::new(),
        }
    }
}

/// The order of pairs: by the first component, then the second.
pub open spec fn lt2(a: (u32, u32), b: (u32, u32)) -> bool {
    a.0 < b.0 || (a.0 == b.0 && a.1 < b.1)
}

/// The order of triples: by the first component, then the second, then the third.
pub open spec fn lt3(a: (u32, u32, u32), b: (u32, u32, u32)) -> bool {
    a.0 < b.0 || (a.0 == b.0 && (a.1 < b.1 || (a.1 == b.1 && a.2 < b.2)))
}

/// Whether `s` is strictly increasing.
pub open spec fn sorted1(s: Seq<u32>) -> bool {
    forall|i: int, j: int| 0 <= i < j < s.len() ==> s[i] < s[j]
}

/// Whether `s` is strictly increasing.
pub open spec fn sorted2(s: Seq<(u32, u32)>) -> bool {
    forall|i: int, j: int| 0 <= i < j < s.len() ==> lt2(s[i], s[j])
}

/// Whether `s` is strictly increasing.
pub open spec fn sorted3(s: Seq<(u32, u32, u32)>) -> bool {
    forall|i: int, j: int| 0 <= i < j < s.len() ==> lt3(s[i], s[j])
}

fn less2(a: (u32, u32), b: (u32, u32)) -> (r: bool)
    ensures
        r == lt2(a, b),
{
    a.0 < b.0 || (a.0 == b.0 && a.1 < b.1)
}

fn less3(a: (u32, u32, u32), b: (u32, u32, u32)) -> (r: bool)
    ensures
        r == lt3(a, b),
{
    a.0 < b.0 || (a.0 == b.0 && (a.1 < b.1 || (a.1 == b.1 && a.2 < b.2)))
}

/// Adds `x` to the sorted set `v`.
pub fn insert1(v: &mut Vec<u32>, x: u32)
    requires
        sorted1(old(v)@),
    ensures
        sorted1(final(v)@),
        final(v)@.to_set() == old(v)@.to_set().insert(x),
{
    let mut i: usize = 0;
    while i < v.len() && v[i] < x
        invariant
            i <= v.len(),
            forall|k: int| 0 <= k < i ==> v@[k] < x,
        decreases v.len() - i,
    {
        i = i + 1;
    }
    if i < v.len() && v[i] == x {
        assert(old(v)@.to_set().insert(x) =~= old(v)@.to_set()) by {
            assert(old(v)@.to_set().contains(x)) by {
                assert(old(v)@[i as int] == x);
            }
        }
        return;
    }
    let ghost before = v@;
    v.insert(i, x);
    proof {
        assert forall|a: int, b: int| 0 <= a < b < v@.len() implies v@[a] < v@[b] by {
            if b < i {
            } else if a < i && b == i {
            } else if a < i {
                assert(v@[b] == before[b - 1]);
            } else if a == i {
                assert(v@[b] == before[b - 1]);
                assert(before[i as int] > x);
                if b - 1 > i {
                    assert(before[i as int] < before[b - 1]);
                }
            } else {
                assert(v@[a] == before[a - 1]);
                assert(v@[b] == before[b - 1]);
            }
        }
        assert(v@.to_set() =~= before.to_set().insert(x)) by {
            assert forall|y: u32| v@.to_set().contains(y) implies before.to_set().insert(x).contains(y) by {
                let k = choose|k: int| 0 <= k < v@.len() && v@[k] == y;
                if k < i {
                    assert(before[k] == y);
                } else if k > i {
                    assert(before[k - 1] == y);
                }
            }
            assert forall|y: u32| before.to_set().insert(x).contains(y) implies v@.to_set().contains(y) by {
                if y == x {
                    assert(v@[i as int] == x);
                } else {
                    let k = choose|k: int| 0 <= k < before.len() && before[k] == y;
                    if k < i {
                        assert(v@[k] == y);
                    } else {
                        assert(v@[k + 1] == y);
                    }
                }
            }
        }
    }
}

/// Adds `x` to the sorted set `v`.
pub fn insert2(v: &mut Vec<(u32, u32)>, x: (u32, u32))
    requires
        sorted2(old(v)@),
    ensures
        sorted2(final(v)@),
        final(v)@.to_set() == old(v)@.to_set().insert(x),
{
    let mut i: usize = 0;
    while i < v.len() && less2(v[i], x)
        invariant
            i <= v.len(),
            forall|k: int| 0 <= k < i ==> lt2(v@[k], x),
        decreases v.len() - i,
    {
        i = i + 1;
    }
    if i < v.len() && v[i].0 == x.0 && v[i].1 == x.1 {
        assert(old(v)@.to_set().insert(x) =~= old(v)@.to_set()) by {
            assert(old(v)@.to_set().contains(x)) by {
                assert(old(v)@[i as int] == x);
            }
        }
        return;
    }
    let ghost before = v@;
    v.insert(i, x);
    proof {
        assert forall|a: int, b: int| 0 <= a < b < v@.len() implies lt2(v@[a], v@[b]) by {
            if b < i {
            } else if a < i && b == i {
            } else if a < i {
                assert(v@[b] == before[b - 1]);
            } else if a == i {
                assert(v@[b] == before[b - 1]);
                assert(lt2(x, before[i as int]));
                if b - 1 > i {
                    assert(lt2(before[i as int], before[b - 1]));
                }
            } else {
                assert(v@[a] == before[a - 1]);
                assert(v@[b] == before[b - 1]);
            }
        }
        assert(v@.to_set() =~= before.to_set().insert(x)) by {
            assert forall|y: (u32, u32)| v@.to_set().contains(y) implies before.to_set().insert(x).contains(y) by {
                let k = choose|k: int| 0 <= k < v@.len() && v@[k] == y;
                if k < i {
                    assert(before[k] == y);
                } else if k > i {
                    assert(before[k - 1] == y);
                }
            }
            assert forall|y: (u32, u32)| before.to_set().insert(x).contains(y) implies v@.to_set().contains(y) by {
                if y == x {
                    assert(v@[i as int] == x);
                } else {
                    let k = choose|k: int| 0 <= k < before.len() && before[k] == y;
                    if k < i {
                        assert(v@[k] == y);
                    } else {
                        assert(v@[k + 1] == y);
                    }
                }
            }
        }
    }
}

/// Adds `x` to the sorted set `v`.
pub fn insert3(v: &mut Vec<(u32, u32, u32)>, x: (u32, u32, u32))
    requires
        sorted3(old(v)@),
    ensures
        sorted3(final(v)@),
        final(v)@.to_set() == old(v)@.to_set().insert(x),
{
    let mut i: usize = 0;
    while i < v.len() && less3(v[i], x)
        invariant
            i <= v.len(),
            forall|k: int| 0 <= k < i ==> lt3(v@[k], x),
        decreases v.len() - i,
    {
        i = i + 1;
    }
    if i < v.len() && v[i].0 == x.0 && v[i].1 == x.1 && v[i].2 == x.2 {
        assert(old(v)@.to_set().insert(x) =~= old(v)@.to_set()) by {
            assert(old(v)@.to_set().contains(x)) by {
                assert(old(v)@[i as int] == x);
            }
        }
        return;
    }
    let ghost before = v@;
    v.insert(i, x);
    proof {
        assert forall|a: int, b: int| 0 <= a < b < v@.len() implies lt3(v@[a], v@[b]) by {
            if b < i {
            } else if a < i && b == i {
            } else if a < i {
                assert(v@[b] == before[b - 1]);
            } else if a == i {
                assert(v@[b] == before[b - 1]);
                assert(lt3(x, before[i as int]));
                if b - 1 > i {
                    assert(lt3(before[i as int], before[b - 1]));
                }
            } else {
                assert(v@[a] == before[a - 1]);
                assert(v@[b] == before[b - 1]);
            }
        }
        assert(v@.to_set() =~= before.to_set().insert(x)) by {
            assert forall|y: (u32, u32, u32)| v@.to_set().contains(y) implies before.to_set().insert(x).contains(
                y,
            ) by {
                let k = choose|k: int| 0 <= k < v@.len() && v@[k] == y;
                if k < i {
                    assert(before[k] == y);
                } else if k > i {
                    assert(before[k - 1] == y);
                }
            }
            assert forall|y: (u32, u32, u32)| before.to_set().insert(x).contains(y) implies v@.to_set().contains(
                y,
            ) by {
                if y == x {
                    assert(v@[i as int] == x);
                } else {
                    let k = choose|k: int| 0 <= k < before.len() && before[k] == y;
                    if k < i {
                        assert(v@[k] == y);
                    } else {
                        assert(v@[k + 1] == y);
                    }
                }
            }
        }
    }
}

} // verus!
