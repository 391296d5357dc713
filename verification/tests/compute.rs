use polonius::algorithm::Algorithm;
use polonius::compute::{
    Cfg, KnownPlaceholder, KnownPlaceholderLoans, LiveOrigins, MaybeInit, MaybeUninit, MoveError, Paths,
    VarDroppedWhileInit,
};
use polonius::intern::{Interner, InternerTables};
use polonius::relation::{propagate, propagate_unless};
use polonius::timely_util::populate_args_for_differential_dataflow;

#[test]
fn cfg_nodes_are_the_ends_of_edges() {
    assert_eq!(Cfg.compute(&vec![(2, 3), (0, 1), (1, 2), (0, 1)]), vec![0, 1, 2, 3]);
    assert!(Cfg.compute(&vec![]).is_empty());
}

#[test]
fn known_placeholder_subset_is_transitive() {
    let known = KnownPlaceholder.compute(&vec![(1, 2), (0, 1)]);
    assert_eq!(known, vec![(0, 1), (0, 2), (1, 2)]);
}

#[test]
fn known_placeholder_loans_flow_along_known_subsets() {
    let known = KnownPlaceholder.compute(&vec![(0, 1), (1, 2)]);
    let requires = KnownPlaceholderLoans.compute(&known, &vec![(0, 10), (1, 11), (2, 12)]);
    assert_eq!(requires, vec![(0, 10), (1, 10), (1, 11), (2, 10), (2, 11), (2, 12)]);
}

#[test]
fn paths_reach_their_children() {
    // path 1 is a child of path 0, which is the variable 5
    let paths = Paths.compute(&vec![(1, 0)], &vec![(0, 5)], &vec![(0, 3)], &vec![(1, 4)], &vec![]);
    assert_eq!(paths.path_moved_at, vec![(0, 3), (1, 3)]);
    assert_eq!(paths.path_assigned_at, vec![(1, 4)]);
    assert!(paths.path_accessed_at.is_empty());
    assert_eq!(paths.path_begins_with_var, vec![(0, 5), (1, 5)]);
}

#[test]
fn initialization_flows_until_a_move() {
    let cfg = vec![(0, 1), (1, 2)];
    let moved = vec![(7, 1)];
    let assigned = vec![(7, 0)];
    assert_eq!(MaybeInit.compute(&cfg, &moved, &assigned), vec![(7, 0)]);
    assert_eq!(MaybeUninit.compute(&cfg, &moved, &assigned), vec![(7, 1), (7, 2)]);
}

#[test]
fn access_after_a_move_is_an_error() {
    let cfg = vec![(0, 1), (1, 2)];
    assert_eq!(MoveError.compute(&cfg, &vec![(7, 1), (7, 2)], &vec![(7, 2), (7, 1)]), vec![(7, 2)]);
    assert!(MoveError.compute(&cfg, &vec![(7, 2)], &vec![(7, 2)]).is_empty());
}

#[test]
fn drops_of_maybe_initialized_variables() {
    let dropped = VarDroppedWhileInit.compute(&vec![(5, 2)], &vec![(7, 2)], &vec![(7, 5)]);
    assert_eq!(dropped, vec![(5, 2)]);
    assert!(VarDroppedWhileInit.compute(&vec![(5, 2)], &vec![(7, 2)], &vec![(7, 6)]).is_empty());
}

#[test]
fn live_origins_of_used_variables_and_universal_regions() {
    let live = LiveOrigins.compute(
        &vec![(0, 1), (1, 2)],
        &vec![0, 1, 2],
        &vec![],
        &vec![(3, 2)],
        &vec![(3, 1)],
        &vec![(3, 9)],
        &vec![],
        &vec![4],
    );
    assert_eq!(live, vec![(4, 0), (4, 1), (4, 2), (9, 2)]);
}

#[test]
fn variables_live_back_to_their_definition() {
    let live = LiveOrigins.compute(
        &vec![(0, 1), (1, 2), (2, 3)],
        &vec![0, 1, 2, 3],
        &vec![],
        &vec![(3, 3)],
        &vec![(3, 0)],
        &vec![(3, 9)],
        &vec![],
        &vec![],
    );
    assert_eq!(live, vec![(9, 1), (9, 2), (9, 3)]);
}

#[test]
fn propagation_follows_edges() {
    let reached = propagate(&vec![(0, 9)], &vec![(0, 1), (1, 2), (3, 4)]);
    assert_eq!(reached, vec![(0, 9), (1, 9), (2, 9)]);
}

#[test]
fn propagation_stops_where_killed() {
    let reached = propagate_unless(&vec![(0, 9), (3, 8)], &vec![(0, 1), (1, 2), (3, 4)], &vec![(1, 9)]);
    assert_eq!(reached, vec![(0, 9), (3, 8), (4, 8)]);
}

#[test]
fn interning_twice_gives_the_same_index() {
    let mut interner = Interner::new();
    let a = interner.intern("'a");
    let b = interner.intern("'b");
    assert_eq!(interner.intern("'a"), a);
    assert_ne!(a, b);
    assert_eq!(interner.untern(b), "'b");
    assert_eq!(interner.len(), 2);
    let tables = InternerTables::new();
    assert_eq!(tables.origins.len(), 0);
}

#[test]
fn every_variant_name_parses_back() {
    for (i, name) in Algorithm::variants().iter().enumerate() {
        let parsed = Algorithm::from_str(name).expect("a variant");
        assert_eq!(Algorithm::from_str(&name.to_uppercase()), Ok(parsed));
        assert_eq!(Algorithm::from_str(&name.to_lowercase()), Ok(parsed));
        if i == 0 {
            assert_eq!(parsed, Algorithm::Naive);
        }
    }
    assert_eq!(
        Algorithm::from_str("fast"),
        Err(String::from("valid values: Naive, DatafrogOpt, LocationInsensitive, Compare, Hybrid"))
    );
}

#[test]
fn dataflow_workers_argument() {
    assert_eq!(populate_args_for_differential_dataflow(1), Vec::<String>::new());
    assert_eq!(populate_args_for_differential_dataflow(0), Vec::<String>::new());
    assert_eq!(populate_args_for_differential_dataflow(12), vec![String::from("-w"), String::from("12")]);
}
