use polonius::algorithm::Algorithm;
use polonius::compute::{BorrowckLocationInsensitive, KnownPlaceholder, KnownPlaceholderLoans};
use polonius::facts::AllFacts;
use polonius::intern::InternerTables;
use polonius::naive::BorrowckNaive;
use polonius::pipeline::{compare_errors, Output, Pipeline, PipelineError, Rel, Unit};
use polonius::program::parse_from_program;

/// The facts of a program, what the naive analysis finds in them, and the names they were
/// interned with.
struct FactChecker {
    facts: AllFacts,
    output: Output,
    tables: InternerTables,
    known_contains_origins: usize,
}

fn check_program(program: &str) -> FactChecker {
    let mut tables = InternerTables::new();
    let facts = parse_from_program(program, &mut tables).expect("Parsing failure");
    let output = Output::compute(&facts, Algorithm::Naive, false);
    let known = KnownPlaceholder.compute(&facts.known_placeholder_subset);
    let requires = KnownPlaceholderLoans.compute(&known, &facts.placeholder);
    let mut origins: Vec<u32> = requires.iter().map(|&(origin, _)| origin).collect();
    origins.dedup();
    FactChecker {
        facts,
        output,
        tables,
        known_contains_origins: origins.len(),
    }
}

impl FactChecker {
    fn subset_error_exists(&mut self, origin1: &str, origin2: &str, point: &str) -> bool {
        let point = self.tables.points.intern(point);
        let origin1 = self.tables.origins.intern(origin1);
        let origin2 = self.tables.origins.intern(origin2);
        self.output.subset_errors.contains(&(origin1, origin2, point))
    }

    fn subset_errors_count(&self) -> usize {
        self.output.subset_errors.len()
    }
}

#[test]
fn illegal_subset_error() {
    let program = r"
        placeholders { 'a, 'b }
        
        block B0 {
            // creates a transitive `'b: 'a` subset
            borrow_region_at('x, L0),
              outlives('b: 'x),
              outlives('x: 'a);
        }
    ";

    let mut checker = check_program(program);

    assert_eq!(checker.facts.universal_region.len(), 2);
    assert_eq!(checker.facts.placeholder.len(), 2);

    // no known subsets are defined in the program...
    assert_eq!(checker.facts.known_placeholder_subset.len(), 0);

    // ...so there should be an error here about the missing `'b: 'a` subset
    assert_eq!(checker.subset_errors_count(), 1);
    assert!(checker.subset_error_exists("'b", "'a", "\"Mid(B0[0])\""));
}

#[test]
fn known_placeholder_origin_subset() {
    let program = r"
        placeholders { 'a, 'b }
        known_subsets { 'b: 'a }

        block B0 {
            borrow_region_at('x, L0),
              outlives('b: 'x),
              outlives('x: 'a);
        }
    ";

    let checker = check_program(program);

    assert_eq!(checker.facts.universal_region.len(), 2);
    assert_eq!(checker.facts.placeholder.len(), 2);
    assert_eq!(checker.facts.known_placeholder_subset.len(), 1);

    assert_eq!(checker.subset_errors_count(), 0);
}

#[test]
fn transitive_known_subset() {
    let program = r"
        placeholders { 'a, 'b, 'c }
        known_subsets { 'a: 'b, 'b: 'c }
        
        block B0 {
            borrow_region_at('x, L0),
              outlives('a: 'x),
              outlives('x: 'c);
        }
    ";

    let checker = check_program(program);

    assert_eq!(checker.facts.universal_region.len(), 3);
    assert_eq!(checker.facts.placeholder.len(), 3);

    // the 2 `known_subset`s here mean 3 `known_contains`, transitively
    assert_eq!(checker.facts.known_placeholder_subset.len(), 2);
    assert_eq!(checker.known_contains_origins, 3);

    assert_eq!(checker.subset_errors_count(), 0);
}

/// A loan issued into origin 0 at point 0, which flows into origin 1 there; both origins
/// are live at point 1, where the loan is invalidated.
fn naive_on_small_cfg(killed: Vec<(u32, u32)>) -> polonius::naive::BorrowckNaiveOutput {
    BorrowckNaive.compute(
        &vec![(0, 1, 0), (2, 2, 0)],
        &vec![(0, 7, 0)],
        &vec![(0, 1)],
        &vec![(0, 1), (1, 1)],
        &killed,
        &vec![(7, 1)],
        &vec![],
        &vec![],
    )
}

#[test]
fn naive_loan_live_where_invalidated_is_an_error() {
    let out = naive_on_small_cfg(vec![]);
    assert_eq!(out.subset, vec![(0, 1, 0), (0, 1, 1)]);
    assert_eq!(
        out.origin_contains_loan_on_entry,
        vec![(0, 7, 0), (0, 7, 1), (1, 7, 0), (1, 7, 1)]
    );
    assert_eq!(out.loan_live_at, vec![(7, 1)]);
    assert_eq!(out.errors, vec![(7, 1)]);
    assert!(out.subset_errors.is_empty());
}

#[test]
fn naive_subset_relates_no_origin_to_itself() {
    let out = naive_on_small_cfg(vec![]);
    assert!(out.subset.iter().all(|&(a, b, _)| a != b));
    assert!(!out.subset.contains(&(2, 2, 0)));
}

#[test]
fn naive_killed_loan_does_not_flow_along_edges() {
    let out = naive_on_small_cfg(vec![(7, 0)]);
    assert_eq!(out.origin_contains_loan_on_entry, vec![(0, 7, 0), (1, 7, 0)]);
    assert!(out.loan_live_at.is_empty());
    assert!(out.errors.is_empty());
}

#[test]
fn naive_subset_errors_need_both_placeholders_and_no_known_subset() {
    // 'a (0) and 'b (1) are placeholders; 'x (2) is not.
    let subset_base = vec![(1, 2, 0), (2, 0, 0)];
    let out = BorrowckNaive.compute(&subset_base, &vec![], &vec![], &vec![], &vec![], &vec![], &vec![], &vec![0, 1]);
    assert_eq!(out.subset, vec![(1, 0, 0), (1, 2, 0), (2, 0, 0)]);
    assert_eq!(out.subset_errors, vec![(1, 0, 0)]);

    let known = BorrowckNaive.compute(&subset_base, &vec![], &vec![], &vec![], &vec![], &vec![], &vec![(1, 0)], &vec![0, 1]);
    assert!(known.subset_errors.is_empty());
}

#[test]
fn location_insensitive_finds_the_naive_errors() {
    let naive = naive_on_small_cfg(vec![]);
    let insensitive = BorrowckLocationInsensitive.compute(
        &vec![(0, 1), (1, 1)],
        &vec![(7, 1)],
        &vec![],
        &vec![],
        &vec![(0, 7, 0)],
        &vec![(0, 1, 0), (2, 2, 0)],
    );
    for error in &naive.errors {
        assert!(insensitive.potential_errors.contains(error));
    }
    assert_eq!(insensitive.potential_errors, vec![(7, 1)]);
}

#[test]
fn pipeline_reports_the_first_missing_input() {
    let pipeline = Pipeline::new(vec![Unit::Cfg, Unit::LiveOrigins]);
    let inputs = vec![Rel::CfgEdge, Rel::VarUsedAt];
    let r = pipeline.validate(&inputs, &vec![]);
    assert_eq!(
        r,
        Err(PipelineError::MissingInput {
            relation: Rel::VarDroppedWhileInitAt,
            unit: Unit::LiveOrigins
        })
    );
}

#[test]
fn pipeline_reports_a_missing_output() {
    let pipeline = Pipeline::new(vec![Unit::Cfg]);
    let r = pipeline.validate(&vec![Rel::CfgEdge], &vec![Rel::CfgNode, Rel::Errors]);
    assert_eq!(r, Err(PipelineError::MissingOutput { relation: Rel::Errors }));
    assert_eq!(pipeline.validate(&vec![Rel::CfgEdge], &vec![Rel::CfgNode]), Ok(()));
}

#[test]
fn pipeline_computes_a_relation_twice_alike() {
    let mut facts = AllFacts::default();
    facts.cfg_edge = vec![(2, 3), (0, 1), (0, 1)];
    let pipeline = Pipeline::new(vec![Unit::Cfg, Unit::Cfg]);
    let db = pipeline.compute(&facts, &vec![Rel::CfgNode]).expect("runs");
    assert_eq!(db.cfg_node, Some(vec![0, 1, 2, 3]));
    assert_eq!(db.cfg_edge, Some(vec![(0, 1), (2, 3)]));
    assert!(db.errors.is_none());
}

#[test]
fn pipeline_stores_invalidations_by_loan() {
    let mut facts = AllFacts::default();
    facts.loan_invalidated_at = vec![(5, 1), (4, 2)];
    let db = Pipeline::new(vec![]).compute(&facts, &vec![]).expect("runs");
    assert_eq!(db.loan_invalidated_at, Some(vec![(1, 5), (2, 4)]));
}

#[test]
fn output_of_a_program_with_an_error() {
    let program = r"
        placeholders { }
        use_of_var_derefs_origin { (V1, 'a) }

        block B0 {
            borrow_region_at('a, L0);
            var_used_at(V1), loan_invalidated_at(L0);
        }
    ";
    let mut tables = InternerTables::new();
    let facts = parse_from_program(program, &mut tables).expect("Parsing failure");
    let naive = Output::compute(&facts, Algorithm::Naive, false);
    let insensitive = Output::compute(&facts, Algorithm::LocationInsensitive, false);
    let l0 = tables.loans.intern("L0");
    let point = tables.points.intern("\"Mid(B0[1])\"");
    assert_eq!(naive.errors_at(point), vec![l0]);
    let a = tables.origins.intern("'a");
    assert_eq!(naive.origins_live_at(point), vec![a]);
    let start = tables.points.intern("\"Start(B0[0])\"");
    assert_eq!(naive.origins_live_at(start), vec![a]);
    assert!(naive.errors_at(start).is_empty());
    assert_eq!(naive.errors, vec![(l0, point)]);
    for error in &naive.errors {
        assert!(insensitive.errors.contains(error));
    }
    assert!(naive.move_errors.is_empty());
}

/// Each variant gives the errors of the naive analysis.
fn assert_variants_agree(program: &str) {
    let mut tables = InternerTables::new();
    let facts = parse_from_program(program, &mut tables).expect("Parsing failure");
    let naive = Output::compute(&facts, Algorithm::Naive, false);
    for algorithm in [Algorithm::DatafrogOpt, Algorithm::Compare, Algorithm::Hybrid] {
        let other = Output::compute(&facts, algorithm, false);
        assert_eq!(naive.errors, other.errors, "{:?}", algorithm);
        assert_eq!(naive.move_errors, other.move_errors, "{:?}", algorithm);
        assert_eq!(naive.subset_errors, other.subset_errors, "{:?}", algorithm);
    }
}

#[test]
fn optimized_variants_give_the_naive_errors() {
    assert_variants_agree(
        r"
        placeholders { }
        use_of_var_derefs_origin { (V1, 'a) }

        block B0 {
            borrow_region_at('a, L0);
            var_used_at(V1), loan_invalidated_at(L0);
        }
    ",
    );
    assert_variants_agree(
        r"
        placeholders { 'a, 'b }

        block B0 {
            borrow_region_at('x, L0),
              outlives('b: 'x),
              outlives('x: 'a);
        }
    ",
    );
    assert_variants_agree("placeholders { }");
}

#[test]
fn each_algorithm_has_a_pipeline() {
    assert_eq!(Algorithm::Naive.pipeline().0.len(), 9);
    assert_eq!(Algorithm::Compare.pipeline().0.len(), 10);
    assert_eq!(Algorithm::Hybrid.pipeline().0.len(), 11);
}

#[test]
fn names_of_relations_and_units() {
    assert_eq!(Rel::KnownPlaceholderSubsetBase.name(), "known_placeholder_subset_base");
    assert_eq!(Unit::BorrowckNaive.name(), "BorrowckNaive");
    assert_eq!(Unit::MaybeInit.inputs(), vec![Rel::CfgEdge, Rel::PathMovedAt, Rel::PathAssignedAt]);
    assert_eq!(Unit::Paths.outputs().len(), 4);
}

/// `'a: 'b` is known, but the program also makes `'b` flow into `'c`, and so `'a` too: both
/// relations between placeholders are unknown. The chain `'b: 'y`, `'y: 'c` has the shape of
/// the chain `'b: 'x`, `'x: 'a` of `illegal_subset_error`, and is an error for the same reason.
#[test]
fn each_unknown_placeholder_subset_is_an_error() {
    let program = r"
        placeholders { 'a, 'b, 'c }
        known_subsets { 'a: 'b }

        block B0 {
            borrow_region_at('x, L0),
              outlives('a: 'x),
              outlives('x: 'b);
            borrow_region_at('y, L1),
              outlives('b: 'y),
              outlives('y: 'c);
        }
    ";

    let mut checker = check_program(program);

    assert_eq!(checker.subset_errors_count(), 2);
    assert!(checker.subset_error_exists("'a", "'c", "\"Mid(B0[1])\""));
    assert!(checker.subset_error_exists("'b", "'c", "\"Mid(B0[1])\""));
    assert!(!checker.subset_error_exists("'a", "'b", "\"Mid(B0[1])\""));
}

fn compare(errors1: &Vec<(u32, Vec<u32>)>, errors2: &Vec<(u32, Vec<u32>)>) -> bool {
    let diff1 = compare_errors(errors1, errors2);
    let diff2 = compare_errors(errors2, errors1);
    assert_eq!(diff1, diff2);
    diff1
}

#[test]
fn test_compare_errors() {
    let empty = vec![];
    assert_eq!(false, compare(&empty, &empty));
    let empty_vec = vec![(1, vec![]), (2, vec![])];
    assert_eq!(false, compare(&empty, &empty_vec));

    let singleton1 = vec![(1, vec![10])];
    assert_eq!(false, compare(&singleton1, &singleton1));
    let singleton2 = vec![(1, vec![11])];
    assert_eq!(false, compare(&singleton2, &singleton2));
    let singleton3 = vec![(2, vec![10])];
    assert_eq!(false, compare(&singleton3, &singleton3));

    assert_eq!(true, compare(&singleton1, &singleton2));
    assert_eq!(true, compare(&singleton2, &singleton3));
    assert_eq!(true, compare(&singleton1, &singleton3));

    assert_eq!(true, compare(&empty, &singleton1));
    assert_eq!(true, compare(&empty, &singleton2));
    assert_eq!(true, compare(&empty, &singleton3));

    let errors1 = vec![(1, vec![11]), (2, vec![10])];
    assert_eq!(false, compare(&errors1, &errors1));
    assert_eq!(true, compare(&errors1, &singleton1));
    assert_eq!(true, compare(&errors1, &singleton2));
    assert_eq!(true, compare(&errors1, &singleton3));
}

#[test]
fn location_insensitive_finds_the_naive_subset_errors() {
    let program = r"
        placeholders { 'a, 'b }

        block B0 {
            borrow_region_at('x, L0),
              outlives('b: 'x),
              outlives('x: 'a);
        }
    ";
    let mut tables = InternerTables::new();
    let facts = parse_from_program(program, &mut tables).expect("Parsing failure");
    let naive = Output::compute(&facts, Algorithm::Naive, false);
    let insensitive = Output::compute(&facts, Algorithm::LocationInsensitive, false);
    let a = tables.origins.intern("'a");
    let b = tables.origins.intern("'b");
    assert_eq!(naive.subset_errors.len(), 1);
    for &(o1, o2, _) in &naive.subset_errors {
        assert!(insensitive.subset_errors.contains(&(o1, o2, 0)));
    }
    assert_eq!(insensitive.subset_errors, vec![(b, a, 0)]);
}

#[test]
fn a_variable_is_partly_initialized_where_a_path_of_it_may_be() {
    let mut facts = AllFacts::default();
    facts.cfg_edge = vec![(0, 1), (1, 2)];
    facts.path_is_var = vec![(7, 3)];
    facts.path_assigned_at_base = vec![(7, 1)];
    let output = Output::compute(&facts, Algorithm::Naive, true);
    let mut partly = output.var_maybe_partly_initialized_on_exit.clone();
    partly.sort();
    assert_eq!(partly, vec![(3, 1), (3, 2)]);
    assert!(Output::compute(&facts, Algorithm::Naive, false).var_maybe_partly_initialized_on_exit.is_empty());
}
