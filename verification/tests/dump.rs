use polonius::algorithm::Algorithm;
use polonius::dump::{dump_output, dump_rows};
use polonius::facts::AllFacts;
use polonius::graphviz::{graphviz_text, inputs_by_point, outputs_by_point};
use polonius::intern::InternerTables;
use polonius::pipeline::Output;
use polonius::program::parse_from_program;

fn row(cols: &[&str]) -> Vec<String> {
    cols.iter().map(|c| c.to_string()).collect()
}

#[test]
fn rows_are_padded_to_the_widest_column() {
    let rows = vec![row(&["a", "bbb"]), row(&["cc", "d"])];
    assert_eq!(dump_rows(Some("x"), &rows), "x a   bbb\nx cc  d\n");
    assert_eq!(dump_rows(None, &rows), "a   bbb\ncc  d\n");
    assert_eq!(dump_rows(None, &vec![row(&["p", "o1", "o2"])]), "p  o1 o2\n");
    assert_eq!(dump_rows(Some("x"), &Vec::new()), "");
}

#[test]
fn widths_are_counted_in_bytes() {
    let rows = vec![row(&["é", "z"]), row(&["ab", "c"])];
    assert_eq!(dump_rows(None, &rows), "é z\nab c\n");
}

#[test]
fn dumped_errors_of_a_program() {
    let program = r"
        placeholders { }
        use_of_var_derefs_origin { (V1, 'a) }

        block B0 {
            borrow_region_at('a, L0);
            var_used_at(V1), loan_invalidated_at(L0);
        }
    ";
    let mut tables = InternerTables::new();
    let facts = parse_from_program(program, &mut tables).expect("Parsing failure");
    let output = Output::compute(&facts, Algorithm::Naive, false);
    let on_stdout = dump_output(&output, &tables, false);
    assert_eq!(
        on_stdout,
        vec![
            ("errors".to_string(), "# errors\nerrors \"Mid(B0[1])\" L0\n".to_string()),
            ("move_errors".to_string(), "# move_errors\n".to_string()),
            ("subset_errors".to_string(), "# subset_errors\n".to_string()),
        ]
    );
    let to_files = dump_output(&output, &tables, true);
    assert_eq!(to_files[0], ("errors".to_string(), "\"Mid(B0[1])\" L0\n".to_string()));
    assert_eq!(to_files[1].1, "");
}

#[test]
fn dumped_errors_go_point_by_point() {
    let mut tables = InternerTables::new();
    let l0 = tables.loans.intern("L0");
    let l1 = tables.loans.intern("L1");
    let p0 = tables.points.intern("P0");
    let p1 = tables.points.intern("P1");
    let o0 = tables.origins.intern("'a");
    let o1 = tables.origins.intern("'b");
    let output = Output {
        errors: vec![(l0, p1), (l1, p0)],
        subset_errors: vec![(o0, o1, p1), (o1, o0, p0)],
        move_errors: vec![],
        origin_live_on_entry: vec![],
        dump_enabled: false,
        loan_invalidated_at: vec![],
        loan_live_at: vec![],
        origin_contains_loan_at: vec![],
        subset: vec![],
        origin_contains_loan_anywhere: vec![],
        subset_anywhere: vec![],
        known_contains: vec![],
        var_live_on_entry: vec![],
        var_drop_live_on_entry: vec![],
        path_maybe_initialized_on_exit: vec![],
        path_maybe_uninitialized_on_exit: vec![],
        var_maybe_partly_initialized_on_exit: vec![],
    };
    let dumped = dump_output(&output, &tables, false);
    assert_eq!(dumped[0].1, "# errors\nerrors P0 L1\nerrors P1 L0\n");
    assert_eq!(dumped[2].1, "# subset_errors\nsubset_errors P0 'b 'a\nsubset_errors P1 'a 'b\n");
}

#[test]
fn verbose_output_keeps_the_intermediate_relations() {
    let program = r"
        placeholders { }
        use_of_var_derefs_origin { (V1, 'a) }

        block B0 {
            borrow_region_at('a, L0);
            var_used_at(V1), loan_invalidated_at(L0);
        }
    ";
    let mut tables = InternerTables::new();
    let facts = parse_from_program(program, &mut tables).expect("Parsing failure");
    let output = Output::compute(&facts, Algorithm::Naive, true);
    assert!(output.dump_enabled);
    let l0 = tables.loans.intern("L0");
    let v1 = tables.variables.intern("V1");
    let a = tables.origins.intern("'a");
    let mid = tables.points.intern("\"Mid(B0[1])\"");
    assert_eq!(output.loan_invalidated_at, vec![(l0, mid)]);
    assert!(output.loan_live_at.contains(&(l0, mid)));
    assert!(output.origin_contains_loan_at.contains(&(a, l0, mid)));
    assert!(output.var_live_on_entry.contains(&(v1, mid)));
    assert!(output.var_drop_live_on_entry.is_empty());
    assert!(output.known_contains.is_empty());
    let names: Vec<String> = dump_output(&output, &tables, true).into_iter().map(|(name, _)| name).collect();
    assert_eq!(
        names,
        vec![
            "errors",
            "move_errors",
            "subset_errors",
            "origin_contains_loan_at",
            "origin_contains_loan_anywhere",
            "origin_live_on_entry",
            "loan_invalidated_at",
            "loan_live_at",
            "subset_anywhere",
            "known_contains",
            "var_live_on_entry",
            "var_drop_live_on_entry",
            "path_maybe_initialized_on_exit",
            "path_maybe_uninitialized_on_exit",
            "var_maybe_partly_initialized_on_exit",
        ]
    );
    let dumped = dump_output(&output, &tables, false);
    assert_eq!(dumped[6].1, "# loan_invalidated_at\nloan_invalidated_at \"Mid(B0[1])\" L0\n");

    let quiet = Output::compute(&facts, Algorithm::Naive, false);
    assert!(quiet.loan_live_at.is_empty() && quiet.var_live_on_entry.is_empty());
    assert_eq!(dump_output(&quiet, &tables, true).len(), 3);
    assert!(quiet.var_maybe_partly_initialized_on_exit.is_empty());

    let insensitive = Output::compute(&facts, Algorithm::LocationInsensitive, true);
    assert!(insensitive.loan_live_at.is_empty());
    assert!(insensitive.origin_contains_loan_at.is_empty());
    assert_eq!(insensitive.loan_invalidated_at, vec![(l0, mid)]);
    assert_eq!(insensitive.origin_contains_loan_anywhere, vec![(l0, a)]);
    assert!(insensitive.subset_anywhere.is_empty());
    assert!(output.origin_contains_loan_anywhere.is_empty());
}

#[test]
fn the_location_insensitive_subsets_hold_anywhere() {
    let program = r"
        placeholders { }

        block B0 {
            outlives('x: 'y);
            outlives('y: 'z);
        }
    ";
    let mut tables = InternerTables::new();
    let facts = parse_from_program(program, &mut tables).expect("Parsing failure");
    let output = Output::compute(&facts, Algorithm::LocationInsensitive, true);
    let x = tables.origins.intern("'x");
    let y = tables.origins.intern("'y");
    let z = tables.origins.intern("'z");
    let mut subsets = output.subset_anywhere.clone();
    subsets.sort();
    let mut expected = vec![(y, x), (z, y)];
    expected.sort();
    assert_eq!(subsets, expected);
    let dumped = dump_output(&output, &tables, true);
    assert_eq!(dumped[8].0, "subset_anywhere");
    assert_eq!(dumped[8].1, "'x 'y\n'y 'z\n");
}

#[test]
fn known_contains_goes_origin_by_origin() {
    let program = r"
        placeholders { 'a, 'b }
        known_subsets { 'a: 'b }
    ";
    let mut tables = InternerTables::new();
    let facts = parse_from_program(program, &mut tables).expect("Parsing failure");
    let output = Output::compute(&facts, Algorithm::Naive, true);
    let a = tables.origins.intern("'a");
    let b = tables.origins.intern("'b");
    let la = tables.loans.intern("'a");
    let lb = tables.loans.intern("'b");
    let mut known = output.known_contains.clone();
    known.sort();
    let mut expected = vec![(la, a), (lb, b), (la, b)];
    expected.sort();
    assert_eq!(known, expected);
}

#[test]
fn graphviz_shows_the_facts_at_each_point() {
    let mut tables = InternerTables::new();
    let p0 = tables.points.intern("P0");
    let p1 = tables.points.intern("P1");
    let l0 = tables.loans.intern("L0");
    let mut facts = AllFacts::default();
    facts.cfg_edge = vec![(p0, p1)];
    facts.loan_killed_at = vec![(l0, p1)];
    let output = Output::compute(&facts, Algorithm::Naive, true);
    let text = graphviz_text(&output, &facts, &tables, &None);
    let expected = String::new()
        + "digraph g {\n  graph [\n  rankdir = \"TD\"\n];\n"
        + "\"node0\" [\n  label = \"{ <f0> P0  | INPUTS |  | OUTPUTS |  }\"\n  shape = \"record\"\n];\n"
        + "\"node1\" [\n  label = \"{ <f0> P1  | INPUTS | loan_killed_at\\(L0, _\\)\\l | OUTPUTS |  }\"\n  shape = \"record\"\n];\n"
        + "\"node0\" -> \"node1\":f0 [\n  id = 0\n];\n"
        + "}";
    assert_eq!(text, expected);
}

#[test]
fn per_point_accessors_of_a_verbose_output() {
    let program = r"
        placeholders { 'a, 'b }

        block B0 {
            borrow_region_at('x, L0),
              outlives('b: 'x),
              outlives('x: 'a);
        }
    ";
    let mut tables = InternerTables::new();
    let facts = parse_from_program(program, &mut tables).expect("Parsing failure");
    let output = Output::compute(&facts, Algorithm::Naive, true);
    let a = tables.origins.intern("'a");
    let b = tables.origins.intern("'b");
    let x = tables.origins.intern("'x");
    let l0 = tables.loans.intern("L0");
    let mid = tables.points.intern("\"Mid(B0[0])\"");
    let subsets = output.subsets_at(mid);
    assert!(subsets.contains(&(b, x)));
    assert!(subsets.contains(&(x, a)));
    assert!(subsets.contains(&(b, a)));
    assert!(output.origin_contains_loan_at_point(mid).contains(&(x, l0)));
    assert!(output.origin_contains_loan_at_point(mid).contains(&(a, l0)));
    assert_eq!(output.loans_in_scope_at(mid), vec![l0]);
}

#[test]
fn graphviz_shows_the_statement_of_each_point() {
    let mut tables = InternerTables::new();
    let p0 = tables.points.intern("Start(bb0[0])");
    let p1 = tables.points.intern("Mid(bb0[+1])");
    let mut facts = AllFacts::default();
    facts.cfg_edge = vec![(p0, p1)];
    let output = Output::compute(&facts, Algorithm::Naive, true);
    let mir = Some(vec![
        ("bb1".to_string(), vec!["nop".to_string()]),
        ("bb0".to_string(), vec!["_1 = const 5_i32".to_string(), "_2 = &(_1)".to_string()]),
    ]);
    let text = graphviz_text(&output, &facts, &tables, &mir);
    let expected = String::new()
        + "digraph g {\n  graph [\n  rankdir = \"TD\"\n];\n"
        + "\"node0\" [\n  label = \"{ <f0> Start\\(bb0[0]\\) | _1 = const 5_i32 | INPUTS |  | OUTPUTS |  }\"\n  shape = \"record\"\n];\n"
        + "\"node1\" [\n  label = \"{ <f0> Mid\\(bb0[+1]\\) | _2 = &\\(_1\\) | INPUTS |  | OUTPUTS |  }\"\n  shape = \"record\"\n];\n"
        + "\"node0\" -> \"node1\":f0 [\n  id = 0\n];\n"
        + "}";
    assert_eq!(text, expected);
}

#[test]
fn the_facts_at_a_point_as_the_graph_lists_them() {
    let mut tables = InternerTables::new();
    let p0 = tables.points.intern("P0");
    let p1 = tables.points.intern("P1");
    let l0 = tables.loans.intern("L0");
    let v0 = tables.variables.intern("V0");
    let mut facts = AllFacts::default();
    facts.cfg_edge = vec![(p0, p1)];
    facts.loan_killed_at = vec![(l0, p1)];
    facts.var_used_at = vec![(v0, p1)];
    let output = Output::compute(&facts, Algorithm::Naive, true);
    assert_eq!(
        inputs_by_point(&facts, &tables, p1),
        vec!["loan_killed_at\\(L0, _\\)\\l".to_string(), "var_used_at\\(V0, _\\)\\l".to_string()]
    );
    assert!(inputs_by_point(&facts, &tables, p0).is_empty());
    assert_eq!(outputs_by_point(&output, &tables, p0), vec!["var_live_on_entry\\(V0, _\\)\\l".to_string()]);
}
